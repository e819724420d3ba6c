//! The laws of the compaction: the alias assignment is a bijection on the
//! declaration's name set, it depends on nothing but that name set, alias
//! length grows monotonically along the sorted names, and the rewrite touches
//! nothing but the metadata it appends to.

use vstd::prelude::*;
use crate::alias::{alias_of, lemma_alias_injective, lemma_alias_len_monotonic};
use crate::decl::{alias_in, decl_names, lemma_decl_names_finite, name_rank, rewrite_field,
    rewrite_fields, rewrite_variant, DeclView, FieldView, VariantView};
use crate::mapper::NameMapper;
use crate::order::{lex_lt, lemma_lex_asymmetric, lemma_lex_connected, lemma_lex_irreflexive,
    lemma_lex_transitive, lemma_sorted_no_duplicates, strictly_sorted};

verus! {

/// A name strictly earlier in the order has a strictly smaller rank.
proof fn lemma_rank_strict(s: Set<Seq<char>>, a: Seq<char>, b: Seq<char>)
    requires
        s.finite(),
        s.contains(a),
        lex_lt(a, b),
    ensures
        name_rank(s, a) < name_rank(s, b),
{
    let fa = s.filter(|m: Seq<char>| lex_lt(m, a));
    let fb = s.filter(|m: Seq<char>| lex_lt(m, b));
    s.lemma_len_filter(|m: Seq<char>| lex_lt(m, a));
    s.lemma_len_filter(|m: Seq<char>| lex_lt(m, b));
    assert(fb.contains(a));
    assert(fa.subset_of(fb.remove(a))) by {
        assert forall|m: Seq<char>| fa.contains(m) implies fb.remove(a).contains(m) by {
            lemma_lex_transitive(m, a, b);
            lemma_lex_irreflexive(a);
            assert(m != a);
        }
    }
    vstd::set_lib::lemma_len_subset(fa, fb.remove(a));
    assert(fb.remove(a).len() == fb.len() - 1);
}

/// Bijection law: within one name set, distinct names always receive
/// distinct aliases.
pub proof fn lemma_alias_assignment_injective(s: Set<Seq<char>>, a: Seq<char>, b: Seq<char>)
    requires
        s.finite(),
        s.contains(a),
        s.contains(b),
        a != b,
    ensures
        alias_in(s, a) != alias_in(s, b),
{
    if !lex_lt(a, b) && !lex_lt(b, a) {
        lemma_lex_connected(a, b);
    }
    if lex_lt(a, b) {
        lemma_rank_strict(s, a, b);
    } else {
        lemma_rank_strict(s, b, a);
    }
    if alias_in(s, a) == alias_in(s, b) {
        lemma_alias_injective(name_rank(s, a), name_rank(s, b));
    }
}

/// Distinct names of one declaration never serialize under the same wire
/// key: the rename directives a declaration receives identify its names
/// uniquely, which is what lets a decoder holding the same declaration map
/// every wire key back to its one original name.
pub proof fn lemma_decl_keys_distinct(d: DeclView, a: Seq<char>, b: Seq<char>)
    requires
        decl_names(d).contains(a),
        decl_names(d).contains(b),
        a != b,
    ensures
        alias_in(decl_names(d), a) != alias_in(decl_names(d), b),
{
    lemma_decl_names_finite(d);
    lemma_alias_assignment_injective(decl_names(d), a, b);
}

/// The alias a name receives depends on the declaration's name set alone:
/// two declarations with the same names — whatever the order of their fields
/// or variants — assign every name the same alias.
pub proof fn lemma_compact_deterministic(d1: DeclView, d2: DeclView, n: Seq<char>)
    requires
        decl_names(d1) == decl_names(d2),
    ensures
        alias_in(decl_names(d1), n) == alias_in(decl_names(d2), n),
{
}

/// Bijection law, stated of a built mapping: it has exactly one entry per
/// name of its set, no name twice, and no alias twice.
pub proof fn lemma_mapping_bijection(m: &NameMapper)
    requires
        m.wf(),
    ensures
        m.names_seq().len() == m.name_set().len(),
        m.names_seq().no_duplicates(),
        m.aliases_seq().no_duplicates(),
        m.aliases_seq().len() == m.names_seq().len(),
{
    lemma_sorted_no_duplicates(m.names_seq());
    m.names_seq().unique_seq_to_set();
    assert forall|i: int, j: int|
        0 <= i < m.aliases_seq().len() && 0 <= j < m.aliases_seq().len() && i
            != j implies m.aliases_seq()[i] != m.aliases_seq()[j] by {
        if m.aliases_seq()[i] == m.aliases_seq()[j] {
            lemma_alias_injective(i as nat, j as nat);
        }
    }
}

/// Two strictly sorted sequences over the same set of names are identical.
proof fn lemma_sorted_unique(s1: Seq<Seq<char>>, s2: Seq<Seq<char>>)
    requires
        strictly_sorted(s1),
        strictly_sorted(s2),
        s1.to_set() == s2.to_set(),
    ensures
        s1 == s2,
    decreases s1.len(),
{
    lemma_sorted_no_duplicates(s1);
    lemma_sorted_no_duplicates(s2);
    if s1.len() == 0 {
        if s2.len() > 0 {
            assert(s2.to_set().contains(s2[0]));
            assert(s1.to_set().contains(s2[0]));
            let k = choose|k: int| 0 <= k < s1.len() && s1[k] == s2[0];
            assert(false);
        }
        assert(s1 =~= s2);
    } else {
        assert(s1.to_set().contains(s1[0]));
        assert(s2.to_set().contains(s1[0]));
        assert(s2.len() > 0);
        // The heads are both the unique minimum of the set.
        assert(s1[0] == s2[0]) by {
            let k = choose|k: int| 0 <= k < s2.len() && s2[k] == s1[0];
            if k > 0 {
                assert(lex_lt(s2[0], s2[k]));
                assert(s2.to_set().contains(s2[0]));
                assert(s1.to_set().contains(s2[0]));
                let j = choose|j: int| 0 <= j < s1.len() && s1[j] == s2[0];
                if j > 0 {
                    assert(lex_lt(s1[0], s1[j]));
                    lemma_lex_asymmetric(s1[0], s1[j]);
                }
            }
        }
        let t1 = s1.drop_first();
        let t2 = s2.drop_first();
        assert(strictly_sorted(t1)) by {
            assert(forall|i: int, j: int|
                0 <= i < j < t1.len() ==> t1[i] == s1[i + 1] && t1[j] == s1[j + 1]);
        }
        assert(strictly_sorted(t2)) by {
            assert(forall|i: int, j: int|
                0 <= i < j < t2.len() ==> t2[i] == s2[i + 1] && t2[j] == s2[j + 1]);
        }
        assert(t1.to_set() =~= s1.to_set().remove(s1[0])) by {
            assert forall|m: Seq<char>| t1.to_set().contains(m) implies s1.to_set().remove(
                s1[0],
            ).contains(m) by {
                let k = choose|k: int| 0 <= k < t1.len() && t1[k] == m;
                assert(s1[k + 1] == m);
            }
            assert forall|m: Seq<char>| s1.to_set().remove(s1[0]).contains(m)
                implies t1.to_set().contains(m) by {
                let k = choose|k: int| 0 <= k < s1.len() && s1[k] == m;
                assert(k > 0);
                assert(t1[k - 1] == m);
            }
        }
        assert(t2.to_set() =~= s2.to_set().remove(s2[0])) by {
            assert forall|m: Seq<char>| t2.to_set().contains(m) implies s2.to_set().remove(
                s2[0],
            ).contains(m) by {
                let k = choose|k: int| 0 <= k < t2.len() && t2[k] == m;
                assert(s2[k + 1] == m);
            }
            assert forall|m: Seq<char>| s2.to_set().remove(s2[0]).contains(m)
                implies t2.to_set().contains(m) by {
                let k = choose|k: int| 0 <= k < s2.len() && s2[k] == m;
                assert(k > 0);
                assert(t2[k - 1] == m);
            }
        }
        lemma_sorted_unique(t1, t2);
        assert(s1 =~= s2) by {
            assert(forall|i: int| 1 <= i < s1.len() ==> s1[i] == t1[i - 1] && s2[i] == t2[i - 1]);
        }
    }
}

/// Determinism law: two well-formed mappings over the same name set are the
/// same mapping — same sorted names, same aliases — however the declarations
/// they came from ordered their fields.
pub proof fn lemma_mapping_deterministic(m1: &NameMapper, m2: &NameMapper)
    requires
        m1.wf(),
        m2.wf(),
        m1.name_set() == m2.name_set(),
    ensures
        m1.names_seq() == m2.names_seq(),
        m1.aliases_seq() == m2.aliases_seq(),
{
    lemma_sorted_unique(m1.names_seq(), m2.names_seq());
    assert(m1.aliases_seq() =~= m2.aliases_seq()) by {
        assert(forall|i: int|
            0 <= i < m1.aliases_seq().len() ==> m1.aliases_seq()[i] == alias_of(i as nat)
                && m2.aliases_seq()[i] == alias_of(i as nat));
    }
}

/// Monotonicity law: along the sorted name sequence, alias length never
/// decreases with the index.
pub proof fn lemma_alias_length_monotone(m: &NameMapper, i: int, j: int)
    requires
        m.wf(),
        0 <= i <= j < m.names@.len(),
    ensures
        m.aliases_seq()[i].len() <= m.aliases_seq()[j].len(),
{
    lemma_alias_len_monotonic(i as nat, j as nat);
}

/// Passthrough law for fields: the rewrite never renames the in-memory name,
/// never touches the type, keeps every pre-existing directive in place, and
/// returns an unnamed field entirely unchanged.
pub proof fn lemma_passthrough_field(f: FieldView, s: Set<Seq<char>>)
    ensures
        f.name is None ==> rewrite_field(f, s) == f,
        rewrite_field(f, s).name == f.name,
        rewrite_field(f, s).ty == f.ty,
        f.attrs.len() <= rewrite_field(f, s).attrs.len(),
        forall|k: int| 0 <= k < f.attrs.len() ==> rewrite_field(f, s).attrs[k] == f.attrs[k],
{
}

/// Passthrough law for variants: the rewrite keeps the tag, the field count
/// and order, and every pre-existing directive of the variant.
pub proof fn lemma_passthrough_variant(v: VariantView, s: Set<Seq<char>>)
    ensures
        rewrite_variant(v, s).name == v.name,
        rewrite_variant(v, s).fields.len() == v.fields.len(),
        forall|k: int| 0 <= k < v.attrs.len() ==> rewrite_variant(v, s).attrs[k] == v.attrs[k],
        forall|k: int|
            0 <= k < v.fields.len() ==> rewrite_variant(v, s).fields[k] == rewrite_field(
                v.fields[k],
                s,
            ),
{
    assert(rewrite_variant(v, s).fields == rewrite_fields(v.fields, s));
}

} // verus!
