//! The total order over names: locale-independent lexicographic comparison of
//! character sequences by code point. Sorting the collected names under this
//! order is what makes the alias assignment deterministic.

use vstd::prelude::*;
use vstd::string::StrSliceExecFns;
use vstd::utf8::char_u32_cast;

verus! {

/// Lexicographic strict order on character sequences, by code point.
pub open spec fn lex_lt(a: Seq<char>, b: Seq<char>) -> bool
    decreases a.len(),
{
    if b.len() == 0 {
        false
    } else if a.len() == 0 {
        true
    } else if (a[0] as u32) < (b[0] as u32) {
        true
    } else if a[0] == b[0] {
        lex_lt(a.drop_first(), b.drop_first())
    } else {
        false
    }
}

/// No sequence is less than itself.
pub proof fn lemma_lex_irreflexive(a: Seq<char>)
    ensures
        !lex_lt(a, a),
    decreases a.len(),
{
    if a.len() > 0 {
        lemma_lex_irreflexive(a.drop_first());
    }
}

/// Two sequences that are not ordered either way are equal.
pub proof fn lemma_lex_connected(a: Seq<char>, b: Seq<char>)
    requires
        !lex_lt(a, b),
        !lex_lt(b, a),
    ensures
        a == b,
    decreases a.len(),
{
    if a.len() == 0 || b.len() == 0 {
        assert(a =~= b);
    } else {
        assert(!((a[0] as u32) < (b[0] as u32)));
        assert(!((b[0] as u32) < (a[0] as u32)));
        char_u32_cast(a[0], a[0] as u32);
        char_u32_cast(b[0], b[0] as u32);
        assert(a[0] == b[0]);
        assert(!lex_lt(a.drop_first(), b.drop_first()));
        assert(!lex_lt(b.drop_first(), a.drop_first()));
        lemma_lex_connected(a.drop_first(), b.drop_first());
        assert(a.drop_first() == b.drop_first());
        assert(a.len() == b.len());
        assert(a =~= b) by {
            assert forall|i: int| 0 <= i < a.len() implies a[i] == b[i] by {
                if i >= 1 {
                    assert(a[i] == a.drop_first()[i - 1]);
                    assert(b[i] == b.drop_first()[i - 1]);
                }
            }
        }
    }
}

/// The order is asymmetric: at most one direction holds.
pub proof fn lemma_lex_asymmetric(a: Seq<char>, b: Seq<char>)
    requires
        lex_lt(a, b),
    ensures
        !lex_lt(b, a),
    decreases a.len(),
{
    if a.len() > 0 && b.len() > 0 && a[0] == b[0] {
        lemma_lex_asymmetric(a.drop_first(), b.drop_first());
    }
}

/// The order is transitive.
pub proof fn lemma_lex_transitive(a: Seq<char>, b: Seq<char>, c: Seq<char>)
    requires
        lex_lt(a, b),
        lex_lt(b, c),
    ensures
        lex_lt(a, c),
    decreases a.len(),
{
    if a.len() == 0 {
    } else {
        // a non-empty forces b non-empty, and then c non-empty.
        if a[0] == b[0] && b[0] == c[0] {
            lemma_lex_transitive(a.drop_first(), b.drop_first(), c.drop_first());
        }
    }
}

/// Comparison of two sequences that agree on their first `i` characters is
/// decided by what remains after those characters.
pub proof fn lemma_lex_skip(a: Seq<char>, b: Seq<char>, i: int)
    requires
        0 <= i <= a.len(),
        i <= b.len(),
        forall|j: int| 0 <= j < i ==> a[j] == b[j],
    ensures
        lex_lt(a, b) == lex_lt(a.skip(i), b.skip(i)),
    decreases i,
{
    if i == 0 {
        assert(a.skip(0) =~= a);
        assert(b.skip(0) =~= b);
    } else {
        assert(a.drop_first() =~= a.skip(1));
        assert(b.drop_first() =~= b.skip(1));
        assert(a.skip(1).skip(i - 1) =~= a.skip(i));
        assert(b.skip(1).skip(i - 1) =~= b.skip(i));
        lemma_lex_skip(a.skip(1), b.skip(1), i - 1);
    }
}

/// Executable comparison: returns whether `a` precedes `b` in the
/// lexicographic order.
pub fn str_lt(a: &str, b: &str) -> (r: bool)
    ensures
        r == lex_lt(a@, b@),
{
    let alen = a.unicode_len();
    let blen = b.unicode_len();
    let mut i: usize = 0;
    while i < alen && i < blen
        invariant
            alen == a@.len(),
            blen == b@.len(),
            i <= alen,
            i <= blen,
            forall|j: int| 0 <= j < i ==> a@[j] == b@[j],
        decreases alen - i,
    {
        let ca = a.get_char(i);
        let cb = b.get_char(i);
        if (ca as u32) < (cb as u32) {
            proof {
                lemma_lex_skip(a@, b@, i as int);
                assert(a@.skip(i as int)[0] == ca);
                assert(b@.skip(i as int)[0] == cb);
            }
            return true;
        }
        if (cb as u32) < (ca as u32) {
            proof {
                lemma_lex_skip(a@, b@, i as int);
                assert(a@.skip(i as int)[0] == ca);
                assert(b@.skip(i as int)[0] == cb);
            }
            return false;
        }
        proof {
            char_u32_cast(ca, ca as u32);
            char_u32_cast(cb, cb as u32);
        }
        i = i + 1;
    }
    proof {
        lemma_lex_skip(a@, b@, i as int);
        assert(a@.skip(i as int).len() == alen - i);
        assert(b@.skip(i as int).len() == blen - i);
    }
    alen < blen
}

/// The views of the strings in a sequence.
pub open spec fn views_of(s: Seq<String>) -> Seq<Seq<char>> {
    s.map_values(|x: String| x@)
}

/// A sequence of names in strictly increasing lexicographic order.
pub open spec fn strictly_sorted(s: Seq<Seq<char>>) -> bool {
    forall|i: int, j: int| 0 <= i < j < s.len() ==> lex_lt(s[i], s[j])
}

/// A strictly sorted sequence holds no name twice.
pub proof fn lemma_sorted_no_duplicates(s: Seq<Seq<char>>)
    requires
        strictly_sorted(s),
    ensures
        s.no_duplicates(),
{
    assert forall|i: int, j: int|
        0 <= i < s.len() && 0 <= j < s.len() && i != j implies s[i] != s[j] by {
        if i < j {
            lemma_lex_irreflexive(s[i]);
        } else {
            lemma_lex_irreflexive(s[j]);
        }
    }
}

/// Inserting a string commutes with taking views.
proof fn lemma_views_insert(s: Seq<String>, i: int, x: String)
    requires
        0 <= i <= s.len(),
    ensures
        views_of(s.insert(i, x)) =~= views_of(s).insert(i, x@),
{
    s.insert_ensures(i, x);
    views_of(s).insert_ensures(i, x@);
}

/// Sorts distinct names into strictly increasing lexicographic order; the set
/// of names is unchanged.
pub fn sort_names(names: &Vec<String>) -> (r: Vec<String>)
    requires
        views_of(names@).no_duplicates(),
    ensures
        strictly_sorted(views_of(r@)),
        views_of(r@).to_set() == views_of(names@).to_set(),
        r@.len() == names@.len(),
{
    let ghost all = views_of(names@);
    let mut out: Vec<String> = Vec::new();
    let mut idx: usize = 0;
    proof {
        assert(views_of(out@) =~= Seq::<Seq<char>>::empty());
        assert(views_of(out@).to_set() =~= all.take(0).to_set());
    }
    while idx < names.len()
        invariant
            idx <= names@.len(),
            all == views_of(names@),
            all.no_duplicates(),
            strictly_sorted(views_of(out@)),
            views_of(out@).to_set() == all.take(idx as int).to_set(),
            out@.len() == idx,
        decreases names@.len() - idx,
    {
        let name = names[idx].clone();
        let ghost old_out = out@;
        let ghost ovs = views_of(out@);
        proof {
            // The new name is not yet present.
            assert(!ovs.to_set().contains(name@)) by {
                if ovs.to_set().contains(name@) {
                    assert(all.take(idx as int).to_set().contains(name@));
                    let k = choose|k: int|
                        0 <= k < idx && all.take(idx as int)[k] == name@;
                    assert(all[k] == all[idx as int]);
                }
            }
        }
        let mut j: usize = 0;
        while j < out.len() && str_lt(out[j].as_str(), name.as_str())
            invariant
                j <= out@.len(),
                ovs == views_of(out@),
                forall|k: int| 0 <= k < j ==> lex_lt(ovs[k], name@),
            decreases out@.len() - j,
        {
            j = j + 1;
        }
        proof {
            if (j as int) < ovs.len() {
                assert(!lex_lt(ovs[j as int], name@));
                assert(ovs.to_set().contains(ovs[j as int]));
                assert(ovs[j as int] != name@);
                if !lex_lt(name@, ovs[j as int]) {
                    lemma_lex_connected(ovs[j as int], name@);
                }
                assert(lex_lt(name@, ovs[j as int]));
            }
            assert(forall|k: int| j <= k < ovs.len() ==> #[trigger] lex_lt(name@, ovs[k])) by {
                assert forall|k: int| j <= k < ovs.len() implies #[trigger] lex_lt(
                    name@,
                    ovs[k],
                ) by {
                    if k > j {
                        lemma_lex_transitive(name@, ovs[j as int], ovs[k]);
                    }
                }
            }
        }
        out.insert(j, name);
        proof {
            lemma_views_insert(old_out, j as int, names@[idx as int]);
            let nvs = views_of(out@);
            ovs.insert_ensures(j as int, name@);
            assert(nvs == ovs.insert(j as int, name@));
            assert(strictly_sorted(nvs)) by {
                assert forall|p: int, q: int| 0 <= p < q < nvs.len() implies lex_lt(
                    nvs[p],
                    nvs[q],
                ) by {
                    if p < j && q < j {
                    } else if p < j && q == j {
                    } else if p < j && q > j {
                        assert(nvs[p] == ovs[p]);
                        assert(nvs[q] == ovs[q - 1]);
                    } else if p == j {
                        assert(nvs[q] == ovs[q - 1]);
                        assert(lex_lt(name@, ovs[q - 1]));
                    } else {
                        assert(nvs[p] == ovs[p - 1]);
                        assert(nvs[q] == ovs[q - 1]);
                    }
                }
            }
            assert(nvs.to_set() =~= all.take(idx as int + 1).to_set()) by {
                assert(all.take(idx as int + 1) =~= all.take(idx as int).push(
                    all[idx as int],
                ));
                assert forall|v: Seq<char>| nvs.to_set().contains(v) implies all.take(
                    idx as int + 1,
                ).to_set().contains(v) by {
                    let k = choose|k: int| 0 <= k < nvs.len() && nvs[k] == v;
                    if k < j {
                        assert(ovs[k] == v);
                        assert(ovs.to_set().contains(v));
                    } else if k == j {
                        assert(v == name@);
                        assert(all.take(idx as int + 1)[idx as int] == name@);
                    } else {
                        assert(ovs[k - 1] == v);
                        assert(ovs.to_set().contains(v));
                    }
                }
                assert forall|v: Seq<char>| all.take(idx as int + 1).to_set().contains(
                    v,
                ) implies nvs.to_set().contains(v) by {
                    let k = choose|k: int|
                        0 <= k < idx as int + 1 && #[trigger] all.take(idx as int + 1)[k] == v;
                    if k < idx {
                        assert(all.take(idx as int).to_set().contains(v));
                        let m = choose|m: int| 0 <= m < ovs.len() && ovs[m] == v;
                        if m < j {
                            assert(nvs[m] == v);
                        } else {
                            assert(nvs[m + 1] == v);
                        }
                    } else {
                        assert(v == name@);
                        assert(nvs[j as int] == v);
                    }
                }
            }
        }
        idx = idx + 1;
    }
    proof {
        assert(all.take(names@.len() as int) =~= all);
    }
    out
}

} // verus!
