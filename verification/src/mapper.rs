//! The alias assigner and rewriter: the second pass. It sorts the collected
//! names, assigns each the alias encoding its sorted position, and walks the
//! declaration again attaching one rename directive to every named field and
//! every variant.

use vstd::prelude::*;
use crate::alias::{alias_of, alphabet_symbol, push_char};
use crate::decl::{Attr, Decl, Field, Variant, alias_in, decl_names, field_names, field_views,
    fields_names, name_rank, rewrite_decl, rewrite_field, rewrite_fields, rewrite_variant,
    rewrite_variants, variant_names, variant_views, variants_names, AttrView, FieldView};
use crate::order::{lex_lt, lemma_lex_asymmetric, lemma_lex_irreflexive, lemma_sorted_no_duplicates,
    sort_names, strictly_sorted, views_of};

verus! {

/// Holds the alias mapping of one declaration: the distinct names in sorted
/// order, and beside each the alias encoding its position.
pub struct NameMapper {
    pub names: Vec<String>,
    pub aliases: Vec<String>,
}

impl NameMapper {
    /// The sorted names, as character sequences.
    pub open spec fn names_seq(&self) -> Seq<Seq<char>> {
        views_of(self.names@)
    }

    /// The assigned aliases, in the same order as the names.
    pub open spec fn aliases_seq(&self) -> Seq<Seq<char>> {
        views_of(self.aliases@)
    }

    /// The set of names this mapping covers.
    pub open spec fn name_set(&self) -> Set<Seq<char>> {
        self.names_seq().to_set()
    }

    /// Well-formed mapping: names strictly sorted, one alias per name, and
    /// the alias at position `i` encodes `i`.
    pub open spec fn wf(&self) -> bool {
        &&& self.aliases@.len() == self.names@.len()
        &&& strictly_sorted(self.names_seq())
        &&& forall|i: int|
            0 <= i < self.names@.len() ==> #[trigger] self.aliases_seq()[i] == alias_of(i as nat)
    }

    /// Builds the mapping for a set of distinct names: sorts them and
    /// assigns each the alias of its sorted position.
    pub fn new(names: Vec<String>) -> (m: NameMapper)
        requires
            views_of(names@).no_duplicates(),
        ensures
            m.wf(),
            m.name_set() == views_of(names@).to_set(),
    {
        let sorted = sort_names(&names);
        let mut aliases: Vec<String> = Vec::new();
        let mut i: usize = 0;
        while i < sorted.len()
            invariant
                i <= sorted@.len(),
                aliases@.len() == i,
                forall|k: int|
                    0 <= k < i ==> #[trigger] views_of(aliases@)[k] == alias_of(k as nat),
            decreases sorted@.len() - i,
        {
            let ghost before = views_of(aliases@);
            let a = Self::get_name(i);
            aliases.push(a);
            proof {
                assert(views_of(aliases@) =~= before.push(a@));
            }
            i = i + 1;
        }
        NameMapper { names: sorted, aliases }
    }

    /// Encodes an index as its alias: the index written in base 52 over the
    /// alias alphabet, most significant digit first.
    pub fn get_name(value: usize) -> (r: String)
        ensures
            r@ == alias_of(value as nat),
        decreases value,
    {
        if value < 52 {
            let mut s = String::new();
            push_char(&mut s, alphabet_symbol(value));
            proof {
                assert(s@ =~= alias_of(value as nat));
            }
            s
        } else {
            let mut s = Self::get_name(value / 52);
            push_char(&mut s, alphabet_symbol(value % 52));
            proof {
                assert(s@ =~= alias_of(value as nat));
            }
            s
        }
    }

    /// The name at position `i` has exactly `i` names of the set before it.
    proof fn lemma_rank_of_index(&self, i: int)
        requires
            self.wf(),
            0 <= i < self.names@.len(),
        ensures
            name_rank(self.name_set(), self.names_seq()[i]) == i as nat,
    {
        let ns = self.names_seq();
        let n = ns[i];
        let s = self.name_set();
        let f = |m: Seq<char>| lex_lt(m, n);
        lemma_sorted_no_duplicates(ns);
        assert(s.filter(f) =~= ns.take(i).to_set()) by {
            assert forall|m: Seq<char>| s.filter(f).contains(m) implies ns.take(
                i,
            ).to_set().contains(m) by {
                let k = choose|k: int| 0 <= k < ns.len() && #[trigger] ns[k] == m;
                if k == i {
                    lemma_lex_irreflexive(n);
                }
                if k > i {
                    lemma_lex_asymmetric(ns[i], ns[k]);
                }
                assert(0 <= k < i);
                assert(ns.take(i)[k] == m);
            }
            assert forall|m: Seq<char>| ns.take(i).to_set().contains(m) implies s.filter(
                f,
            ).contains(m) by {
                let k = choose|k: int| 0 <= k < i && #[trigger] ns.take(i)[k] == m;
                assert(ns[k] == m);
                assert(lex_lt(m, n));
                assert(s.contains(m));
            }
        }
        assert(ns.take(i).no_duplicates());
        ns.take(i).unique_seq_to_set();
    }

    /// Looks up the alias assigned to a name the mapping covers.
    fn get_alias<'a>(&'a self, name: &String) -> (r: &'a String)
        requires
            self.wf(),
            self.name_set().contains(name@),
        ensures
            r@ == alias_in(self.name_set(), name@),
    {
        let n = self.names.len();
        let mut i: usize = 0;
        loop
            invariant
                self.wf(),
                self.name_set().contains(name@),
                n == self.names@.len(),
                i <= n,
                forall|k: int| 0 <= k < i ==> self.names_seq()[k] != name@,
            decreases self.names@.len() - i,
        {
            proof {
                let k = choose|k: int|
                    0 <= k < self.names_seq().len() && #[trigger] self.names_seq()[k] == name@;
                assert(k >= i);
                assert(self.names_seq().len() == self.names@.len());
                assert(i < n);
            }
            if self.names[i] == *name {
                proof {
                    assert(self.names_seq()[i as int] == name@);
                    self.lemma_rank_of_index(i as int);
                    assert(name_rank(self.name_set(), name@) == i as nat);
                    assert(self.aliases_seq()[i as int] == alias_of(i as nat));
                    assert(self.aliases@[i as int]@ == self.aliases_seq()[i as int]);
                }
                return &self.aliases[i];
            }
            i = i + 1;
        }
    }

    /// Rewrites one field: appends the rename directive carrying the field
    /// name's alias, or returns an unnamed field untouched.
    pub fn fold_field(&self, node: Field) -> (r: Field)
        requires
            self.wf(),
            field_names(node@).subset_of(self.name_set()),
        ensures
            r@ == rewrite_field(node@, self.name_set()),
    {
        let ghost nv = node@;
        let Field { name, ty, attrs } = node;
        let mut attrs = attrs;
        let ghost old_attrs = attrs@;
        match &name {
            Option::Some(n) => {
                proof {
                    assert(field_names(nv).contains(n@));
                    assert(self.name_set().contains(n@));
                }
                let alias = self.get_alias(n).clone();
                attrs.push(Attr::Rename(alias));
                proof {
                    assert(attrs@.map_values(|a: Attr| a@) =~= old_attrs.map_values(
                        |a: Attr| a@,
                    ).push(AttrView::Rename(alias_in(self.name_set(), n@))));
                }
            },
            Option::None => {},
        }
        let r = Field { name, ty, attrs };
        proof {
            assert(r@ =~= rewrite_field(nv, self.name_set()));
        }
        r
    }

    /// Rewrites one variant: gives its tag a rename directive and rewrites
    /// each of its fields.
    pub fn fold_variant(&self, node: Variant) -> (r: Variant)
        requires
            self.wf(),
            variant_names(node@).subset_of(self.name_set()),
        ensures
            r@ == rewrite_variant(node@, self.name_set()),
    {
        let ghost nv = node@;
        let Variant { name, fields, attrs } = node;
        let mut attrs = attrs;
        let ghost old_attrs = attrs@;
        proof {
            assert(variant_names(nv).contains(name@));
            assert(self.name_set().contains(name@));
        }
        let alias = self.get_alias(&name).clone();
        attrs.push(Attr::Rename(alias));
        proof {
            assert(attrs@.map_values(|a: Attr| a@) =~= old_attrs.map_values(|a: Attr| a@).push(
                AttrView::Rename(alias_in(self.name_set(), name@)),
            ));
        }
        let done = self.fold_field_list(fields, Ghost(nv.fields));
        let r = Variant { name, fields: done, attrs };
        proof {
            assert(r@ =~= rewrite_variant(nv, self.name_set()));
        }
        r
    }

    /// Rewrites a list of fields in order.
    fn fold_field_list(&self, fields: Vec<Field>, fs0: Ghost<Seq<FieldView>>) -> (r: Vec<Field>)
        requires
            self.wf(),
            fs0@ == field_views(fields@),
            fields_names(fs0@).subset_of(self.name_set()),
        ensures
            field_views(r@) == rewrite_fields(fs0@, self.name_set()),
    {
        let mut rest = fields;
        let mut done: Vec<Field> = Vec::new();
        let ghost k: int = 0;
        proof {
            assert(field_views(rest@) =~= fs0@.skip(0));
            assert(field_views(done@) =~= rewrite_fields(fs0@.take(0), self.name_set()));
        }
        while rest.len() > 0
            invariant
                self.wf(),
                fields_names(fs0@).subset_of(self.name_set()),
                0 <= k <= fs0@.len(),
                field_views(rest@) == fs0@.skip(k),
                field_views(done@) == rewrite_fields(fs0@.take(k), self.name_set()),
                done@.len() == k,
            decreases rest@.len(),
        {
            let ghost old_rest = rest@;
            let ghost old_done = done@;
            let f = rest.remove(0);
            proof {
                assert(field_views(old_rest).len() == old_rest.len());
                assert(field_views(old_rest) == fs0@.skip(k));
                assert(fs0@.skip(k).len() == fs0@.len() - k);
                assert(k < fs0@.len());
                assert(field_views(old_rest)[0] == f@);
                assert(fs0@.skip(k)[0] == fs0@[k]);
                assert(f@ == fs0@[k]);
                crate::decl::lemma_fields_names_member(fs0@, k);
                assert(field_views(rest@) =~= fs0@.skip(k + 1)) by {
                    assert(rest@ =~= old_rest.skip(1));
                    assert forall|p: int|
                        0 <= p < rest@.len() implies #[trigger] field_views(rest@)[p] == fs0@.skip(
                        k + 1,
                    )[p] by {
                        assert(rest@[p] == old_rest[p + 1]);
                        assert(field_views(old_rest)[p + 1] == fs0@.skip(k)[p + 1]);
                    }
                }
            }
            let g = self.fold_field(f);
            done.push(g);
            proof {
                assert(field_views(done@) =~= rewrite_fields(fs0@.take(k + 1), self.name_set()))
                    by {
                    assert(done@ =~= old_done.push(g));
                    assert forall|p: int|
                        0 <= p < done@.len() implies #[trigger] field_views(done@)[p]
                        == rewrite_fields(fs0@.take(k + 1), self.name_set())[p] by {
                        if p < k {
                            assert(done@[p] == old_done[p]);
                            assert(field_views(old_done)[p] == rewrite_fields(
                                fs0@.take(k),
                                self.name_set(),
                            )[p]);
                            assert(fs0@.take(k + 1)[p] == fs0@.take(k)[p]);
                        } else {
                            assert(done@[p] == g);
                            assert(fs0@.take(k + 1)[p] == fs0@[k]);
                        }
                    }
                }
                k = k + 1;
            }
        }
        proof {
            assert(fs0@.skip(k).len() == 0);
            assert(fs0@.take(k) =~= fs0@);
        }
        done
    }

    /// Rewrites a whole declaration against this mapping.
    pub fn fold_item(&self, node: Decl) -> (r: Decl)
        requires
            self.wf(),
            decl_names(node@).subset_of(self.name_set()),
        ensures
            r@ == rewrite_decl(node@, self.name_set()),
    {
        let ghost nv = node@;
        match node {
            Decl::Struct { fields } => {
                let ghost fs0 = field_views(fields@);
                let done = self.fold_field_list(fields, Ghost(fs0));
                let r = Decl::Struct { fields: done };
                proof {
                    assert(r@ =~= rewrite_decl(nv, self.name_set()));
                }
                r
            },
            Decl::Enum { variants } => {
                let ghost vs0 = variant_views(variants@);
                let mut rest = variants;
                let mut done: Vec<Variant> = Vec::new();
                let ghost k: int = 0;
                proof {
                    assert(variant_views(rest@) =~= vs0.skip(0));
                    assert(variant_views(done@) =~= rewrite_variants(
                        vs0.take(0),
                        self.name_set(),
                    ));
                }
                while rest.len() > 0
                    invariant
                        self.wf(),
                        variants_names(vs0).subset_of(self.name_set()),
                        0 <= k <= vs0.len(),
                        variant_views(rest@) == vs0.skip(k),
                        variant_views(done@) == rewrite_variants(vs0.take(k), self.name_set()),
                        done@.len() == k,
                    decreases rest@.len(),
                {
                    let ghost old_rest = rest@;
                    let ghost old_done = done@;
                    let v = rest.remove(0);
                    proof {
                        assert(variant_views(old_rest).len() == old_rest.len());
                        assert(variant_views(old_rest) == vs0.skip(k));
                        assert(vs0.skip(k).len() == vs0.len() - k);
                        assert(k < vs0.len());
                        assert(variant_views(old_rest)[0] == v@);
                        assert(vs0.skip(k)[0] == vs0[k]);
                        assert(v@ == vs0[k]);
                        crate::decl::lemma_variants_names_member(vs0, k);
                        assert(variant_views(rest@) =~= vs0.skip(k + 1)) by {
                            assert(rest@ =~= old_rest.skip(1));
                            assert forall|p: int|
                                0 <= p < rest@.len() implies #[trigger] variant_views(rest@)[p]
                                == vs0.skip(k + 1)[p] by {
                                assert(rest@[p] == old_rest[p + 1]);
                                assert(variant_views(old_rest)[p + 1] == vs0.skip(k)[p + 1]);
                            }
                        }
                    }
                    let w = self.fold_variant(v);
                    done.push(w);
                    proof {
                        assert(variant_views(done@) =~= rewrite_variants(
                            vs0.take(k + 1),
                            self.name_set(),
                        )) by {
                            assert(done@ =~= old_done.push(w));
                            assert forall|p: int|
                                0 <= p < done@.len() implies #[trigger] variant_views(done@)[p]
                                == rewrite_variants(vs0.take(k + 1), self.name_set())[p] by {
                                if p < k {
                                    assert(done@[p] == old_done[p]);
                                    assert(variant_views(old_done)[p] == rewrite_variants(
                                        vs0.take(k),
                                        self.name_set(),
                                    )[p]);
                                    assert(vs0.take(k + 1)[p] == vs0.take(k)[p]);
                                } else {
                                    assert(done@[p] == w);
                                    assert(vs0.take(k + 1)[p] == vs0[k]);
                                }
                            }
                        }
                        k = k + 1;
                    }
                }
                proof {
                    assert(vs0.skip(k).len() == 0);
                    assert(vs0.take(k) =~= vs0);
                }
                let r = Decl::Enum { variants: done };
                proof {
                    assert(r@ =~= rewrite_decl(nv, self.name_set()));
                }
                r
            },
        }
    }
}

} // verus!
