//! The name collector: the first pass over a declaration. It gathers every
//! directly serialized name — each named field and each variant tag — into a
//! duplicate-free list, without touching the declaration.

use vstd::prelude::*;
use crate::decl::{Decl, Field, Variant, decl_names, field_names, fields_names, variant_names,
    variants_names};
use crate::order::views_of;

verus! {

/// Collects all distinct names of one declaration.
pub struct NameCollector {
    pub names: Vec<String>,
}

impl NameCollector {
    /// The set of names gathered so far.
    pub open spec fn name_set(&self) -> Set<Seq<char>> {
        views_of(self.names@).to_set()
    }

    /// The gathered list never holds a name twice.
    pub open spec fn wf(&self) -> bool {
        views_of(self.names@).no_duplicates()
    }

    /// A fresh collector with nothing gathered.
    pub fn new() -> (c: NameCollector)
        ensures
            c.wf(),
            c.name_set() == Set::<Seq<char>>::empty(),
    {
        let c = NameCollector { names: Vec::new() };
        proof {
            assert(views_of(c.names@) =~= Seq::<Seq<char>>::empty());
            assert(c.name_set() =~= Set::<Seq<char>>::empty());
        }
        c
    }

    /// Records one name, keeping the list duplicate-free.
    fn insert_name(&mut self, n: &String)
        requires
            old(self).wf(),
        ensures
            final(self).wf(),
            final(self).name_set() == old(self).name_set().insert(n@),
    {
        let ghost vs = views_of(self.names@);
        let mut i: usize = 0;
        while i < self.names.len()
            invariant
                i <= self.names@.len(),
                vs == views_of(self.names@),
                vs == views_of(old(self).names@),
                vs.no_duplicates(),
                forall|k: int| 0 <= k < i ==> vs[k] != n@,
            decreases self.names@.len() - i,
        {
            if self.names[i] == *n {
                proof {
                    assert(vs[i as int] == n@);
                    assert(self.name_set().contains(n@));
                    assert(self.name_set() =~= old(self).name_set().insert(n@));
                    assert(self.wf());
                }
                return ;
            }
            i = i + 1;
        }
        proof {
            assert(forall|k: int| 0 <= k < vs.len() ==> vs[k] != n@);
        }
        self.names.push(n.clone());
        proof {
            let nvs = views_of(self.names@);
            assert(nvs =~= vs.push(n@));
            assert(nvs.no_duplicates());
            assert(nvs.to_set() =~= vs.to_set().insert(n@)) by {
                assert forall|v: Seq<char>| vs.to_set().contains(v) implies nvs.to_set().contains(
                    v,
                ) by {
                    let k = choose|k: int| 0 <= k < vs.len() && #[trigger] vs[k] == v;
                    assert(nvs[k] == v);
                }
                assert(nvs[vs.len() as int] == n@);
                assert forall|v: Seq<char>| nvs.to_set().contains(v) implies vs.to_set().insert(
                    n@,
                ).contains(v) by {
                    let k = choose|k: int| 0 <= k < nvs.len() && nvs[k] == v;
                    if k < vs.len() {
                        assert(vs[k] == v);
                    }
                }
            }
        }
    }

    /// Visits one field: a named field contributes its name, an unnamed one
    /// contributes nothing.
    pub fn visit_field(&mut self, node: &Field)
        requires
            old(self).wf(),
        ensures
            final(self).wf(),
            final(self).name_set() == old(self).name_set().union(field_names(node@)),
    {
        match &node.name {
            Option::Some(n) => {
                self.insert_name(n);
                proof {
                    assert(self.name_set() =~= old(self).name_set().union(field_names(node@)));
                }
            },
            Option::None => {
                proof {
                    assert(self.name_set() =~= old(self).name_set().union(field_names(node@)));
                }
            },
        }
    }

    /// Visits one variant: its tag and every name nested in its fields.
    pub fn visit_variant(&mut self, node: &Variant)
        requires
            old(self).wf(),
        ensures
            final(self).wf(),
            final(self).name_set() == old(self).name_set().union(variant_names(node@)),
    {
        self.insert_name(&node.name);
        let ghost fs = node@.fields;
        proof {
            assert(fs.take(0) =~= Seq::<crate::decl::FieldView>::empty());
            assert(self.name_set() =~= old(self).name_set().insert(node@.name).union(
                fields_names(fs.take(0)),
            ));
        }
        let mut i: usize = 0;
        while i < node.fields.len()
            invariant
                i <= node.fields@.len(),
                fs == node@.fields,
                self.wf(),
                self.name_set() == old(self).name_set().insert(node@.name).union(
                    fields_names(fs.take(i as int)),
                ),
            decreases node.fields@.len() - i,
        {
            let ghost before = self.name_set();
            self.visit_field(&node.fields[i]);
            proof {
                assert(fs.take(i as int + 1).drop_last() =~= fs.take(i as int));
                assert(fs.take(i as int + 1).last() == fs[i as int]);
                assert(node.fields@[i as int]@ == fs[i as int]);
                assert(self.name_set() =~= old(self).name_set().insert(node@.name).union(
                    fields_names(fs.take(i as int + 1)),
                ));
            }
            i = i + 1;
        }
        proof {
            assert(fs.take(fs.len() as int) =~= fs);
            assert(self.name_set() =~= old(self).name_set().union(variant_names(node@)));
        }
    }

    /// Visits a whole declaration, gathering every name that requires an
    /// alias.
    pub fn visit_item(&mut self, node: &Decl)
        requires
            old(self).wf(),
        ensures
            final(self).wf(),
            final(self).name_set() == old(self).name_set().union(decl_names(node@)),
    {
        match node {
            Decl::Struct { fields } => {
                let ghost fs = fields@.map_values(|f: Field| f@);
                proof {
                    assert(fs.take(0) =~= Seq::<crate::decl::FieldView>::empty());
                    assert(self.name_set() =~= old(self).name_set().union(
                        fields_names(fs.take(0)),
                    ));
                }
                let mut i: usize = 0;
                while i < fields.len()
                    invariant
                        i <= fields@.len(),
                        fs == fields@.map_values(|f: Field| f@),
                        self.wf(),
                        self.name_set() == old(self).name_set().union(
                            fields_names(fs.take(i as int)),
                        ),
                    decreases fields@.len() - i,
                {
                    self.visit_field(&fields[i]);
                    proof {
                        assert(fs.take(i as int + 1).drop_last() =~= fs.take(i as int));
                        assert(self.name_set() =~= old(self).name_set().union(
                            fields_names(fs.take(i as int + 1)),
                        ));
                    }
                    i = i + 1;
                }
                proof {
                    assert(fs.take(fs.len() as int) =~= fs);
                    assert(self.name_set() =~= old(self).name_set().union(decl_names(node@)));
                }
            },
            Decl::Enum { variants } => {
                let ghost vs = variants@.map_values(|v: Variant| v@);
                proof {
                    assert(vs.take(0) =~= Seq::<crate::decl::VariantView>::empty());
                    assert(self.name_set() =~= old(self).name_set().union(
                        variants_names(vs.take(0)),
                    ));
                }
                let mut i: usize = 0;
                while i < variants.len()
                    invariant
                        i <= variants@.len(),
                        vs == variants@.map_values(|v: Variant| v@),
                        self.wf(),
                        self.name_set() == old(self).name_set().union(
                            variants_names(vs.take(i as int)),
                        ),
                    decreases variants@.len() - i,
                {
                    self.visit_variant(&variants[i]);
                    proof {
                        assert(vs.take(i as int + 1).drop_last() =~= vs.take(i as int));
                        assert(self.name_set() =~= old(self).name_set().union(
                            variants_names(vs.take(i as int + 1)),
                        ));
                    }
                    i = i + 1;
                }
                proof {
                    assert(vs.take(vs.len() as int) =~= vs);
                    assert(self.name_set() =~= old(self).name_set().union(decl_names(node@)));
                }
            },
        }
    }
}

} // verus!
