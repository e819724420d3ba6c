//! The alias encoding: an integer index is written in base 52, most
//! significant digit first, over the alphabet `'a'..='z'` then `'A'..='Z'`.
//! Index 0 gives `"a"`, index 52 gives `"ba"`, and so on; the encoding is
//! injective over all indices, so distinct indices never share an alias.

use vstd::prelude::*;

verus! {

/// The alias alphabet as a function from digit value to symbol:
/// digits 0..=25 are `'a'..='z'`, digits 26..=51 are `'A'..='Z'`.
pub open spec fn alphabet_char(d: int) -> char {
    if d < 26 {
        ((97 + d) as u8) as char
    } else {
        ((39 + d) as u8) as char
    }
}

/// Executable form of [`alphabet_char`].
pub(crate) fn alphabet_symbol(d: usize) -> (c: char)
    requires
        d < 52,
    ensures
        c == alphabet_char(d as int),
{
    let b: u8 = if d < 26 {
        97 + (d as u8)
    } else {
        39 + (d as u8)
    };
    b as char
}

/// Relies on `String::push`: appends the given character to the end of the
/// string.
#[verifier::external_body]
pub(crate) fn push_char(s: &mut String, c: char)
    ensures
        final(s)@ == old(s)@ + seq![c],
{
    s.push(c);
}

/// The alias assigned to index `i`: its base-52 numeral, most significant
/// digit first, one alphabet symbol per digit.
pub open spec fn alias_of(i: nat) -> Seq<char>
    decreases i,
{
    if i < 52 {
        seq![alphabet_char(i as int)]
    } else {
        alias_of(i / 52) + seq![alphabet_char((i % 52) as int)]
    }
}

/// Distinct digits are written with distinct symbols.
pub proof fn lemma_alphabet_injective(d1: int, d2: int)
    requires
        0 <= d1 < 52,
        0 <= d2 < 52,
        alphabet_char(d1) == alphabet_char(d2),
    ensures
        d1 == d2,
{
}

/// Every alias is non-empty, and an index of two or more digits has an
/// alias one symbol longer than that of its leading digits.
pub proof fn lemma_alias_len(i: nat)
    ensures
        alias_of(i).len() >= 1,
        i < 52 ==> alias_of(i).len() == 1,
        i >= 52 ==> alias_of(i).len() == 1 + alias_of(i / 52).len(),
    decreases i,
{
    if i >= 52 {
        lemma_alias_len(i / 52);
    }
}

/// The encoding is injective: distinct indices receive distinct aliases.
pub proof fn lemma_alias_injective(i: nat, j: nat)
    requires
        alias_of(i) == alias_of(j),
    ensures
        i == j,
    decreases i,
{
    lemma_alias_len(i);
    lemma_alias_len(j);
    if i < 52 && j < 52 {
        assert(alias_of(i)[0] == alphabet_char(i as int));
        assert(alias_of(j)[0] == alphabet_char(j as int));
        lemma_alphabet_injective(i as int, j as int);
    } else if i < 52 || j < 52 {
        lemma_alias_len(i / 52);
        lemma_alias_len(j / 52);
        assert(alias_of(i).len() == alias_of(j).len());
        assert(false);
    } else {
        let a = alias_of(i / 52);
        let b = alias_of(j / 52);
        assert(alias_of(i).last() == alphabet_char((i % 52) as int));
        assert(alias_of(j).last() == alphabet_char((j % 52) as int));
        lemma_alphabet_injective((i % 52) as int, (j % 52) as int);
        assert(a =~= b) by {
            assert(a.len() == b.len());
            assert(forall|k: int| 0 <= k < a.len() ==> a[k] == alias_of(i)[k] && b[k]
                == alias_of(j)[k]);
        }
        lemma_alias_injective(i / 52, j / 52);
        vstd::arithmetic::div_mod::lemma_fundamental_div_mod(i as int, 52);
        vstd::arithmetic::div_mod::lemma_fundamental_div_mod(j as int, 52);
    }
}

/// Alias length never decreases as the index grows.
pub proof fn lemma_alias_len_monotonic(i: nat, j: nat)
    requires
        i <= j,
    ensures
        alias_of(i).len() <= alias_of(j).len(),
    decreases j,
{
    lemma_alias_len(i);
    lemma_alias_len(j);
    if i >= 52 {
        vstd::arithmetic::div_mod::lemma_div_is_ordered(i as int, j as int, 52);
        lemma_alias_len_monotonic(i / 52, j / 52);
    }
}

/// The exact length bands: indices 0..=51 receive one-symbol aliases, and
/// indices 52..=2703 receive two-symbol aliases.
pub proof fn lemma_alias_len_bands(i: nat)
    ensures
        i < 52 <==> alias_of(i).len() == 1,
        52 <= i < 2704 <==> alias_of(i).len() == 2,
{
    lemma_alias_len(i);
    if i >= 52 {
        lemma_alias_len(i / 52);
        vstd::arithmetic::div_mod::lemma_fundamental_div_mod(i as int, 52);
        if i / 52 >= 52 {
            lemma_alias_len(i / 52 / 52);
        }
    }
}

} // verus!
