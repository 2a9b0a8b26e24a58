//! Small executable helpers over strings and vectors of strings: conversion
//! between `String` and `Vec<char>`, prefix tests, membership tests and
//! duplicate-free insertion, and element-wise copies with exact contracts.

use vstd::prelude::*;

verus! {

/// Relies on `str::chars` and `Iterator::collect`: collecting the characters
/// of a string yields exactly that character sequence.
#[verifier::external_body]
pub fn str_to_chars(s: &str) -> (r: Vec<char>)
    ensures
        r@ == s@,
{
    s.chars().collect()
}

/// Relies on `Iterator::collect` for `String`: collecting characters yields
/// the string made of exactly those characters.
#[verifier::external_body]
pub fn chars_to_string(v: &Vec<char>) -> (r: String)
    ensures
        r@ == v@,
{
    v.iter().collect()
}

/// Whether a string sequence begins with the given character.
pub open spec fn spec_starts_with(s: Seq<char>, c: char) -> bool {
    s.len() > 0 && s[0] == c
}

/// Whether the string begins with the given character.
pub fn starts_with_char(s: &String, c: char) -> (r: bool)
    ensures
        r == spec_starts_with(s@, c),
{
    let n = s.as_str().unicode_len();
    n > 0 && s.as_str().get_char(0) == c
}

/// The string with every occurrence of the given character removed.
pub open spec fn spec_remove_char(s: Seq<char>, c: char) -> Seq<char> {
    s.filter(|x: char| x != c)
}

/// Removing a character distributes over appending one element.
proof fn lemma_remove_char_push(s: Seq<char>, c: char, x: char)
    ensures
        spec_remove_char(s.push(x), c) == if x != c {
            spec_remove_char(s, c).push(x)
        } else {
            spec_remove_char(s, c)
        },
{
    broadcast use Seq::lemma_filter_push;

    assert(s.push(x).drop_last() =~= s);
    assert(s.push(x).last() == x);
}

/// Builds the string with every occurrence of the given character removed.
pub fn remove_char(s: &String, c: char) -> (r: String)
    ensures
        r@ == spec_remove_char(s@, c),
{
    let n = s.as_str().unicode_len();
    let mut out: Vec<char> = Vec::new();
    let mut i: usize = 0;
    while i < n
        invariant
            i <= n,
            n == s@.len(),
            out@ == spec_remove_char(s@.take(i as int), c),
        decreases n - i,
    {
        let x = s.as_str().get_char(i);
        proof {
            assert(s@.take(i + 1) =~= s@.take(i as int).push(s@[i as int]));
            lemma_remove_char_push(s@.take(i as int), c, s@[i as int]);
        }
        if x != c {
            out.push(x);
        }
        i = i + 1;
    }
    proof {
        assert(s@.take(n as int) =~= s@);
    }
    chars_to_string(&out)
}

/// Whether the character-sequence set of the vector contains the sequence.
pub open spec fn spec_contains_str(v: Seq<Seq<char>>, s: Seq<char>) -> bool {
    exists|i: int| 0 <= i < v.len() && v[i] == s
}

/// Whether some element of the vector equals the given string.
pub fn contains_string(v: &Vec<String>, s: &String) -> (r: bool)
    ensures
        r == spec_contains_str(v.deep_view(), s@),
{
    let mut i: usize = 0;
    while i < v.len()
        invariant
            i <= v.len(),
            forall|j: int| 0 <= j < i ==> v.deep_view()[j] != s@,
        decreases v.len() - i,
    {
        if v[i].eq(s) {
            assert(v.deep_view()[i as int] == s@);
            return true;
        }
        i = i + 1;
    }
    false
}

/// Whether no two elements of the vector hold the same text.
pub open spec fn distinct_strs(v: Seq<Seq<char>>) -> bool {
    forall|i: int, j: int| 0 <= i < j < v.len() ==> v[i] != v[j]
}

/// Appends the string unless an equal element is already present, so that the
/// vector keeps exactly one occurrence of each string it holds.
pub fn push_unique(v: &mut Vec<String>, s: &String)
    ensures
        final(v).deep_view().to_set() == old(v).deep_view().to_set().insert(s@),
        distinct_strs(old(v).deep_view()) ==> distinct_strs(final(v).deep_view()),
{
    if !contains_string(v, s) {
        v.push(s.clone());
        proof {
            assert(v.deep_view() =~= old(v).deep_view().push(s@));
            assert(v.deep_view().to_set() =~= old(v).deep_view().to_set().insert(s@)) by {
                assert forall|x: Seq<char>|
                    v.deep_view().to_set().contains(x) <==> old(v).deep_view().to_set().insert(
                        s@,
                    ).contains(x) by {
                    if v.deep_view().contains(x) {
                        let i = choose|i: int|
                            0 <= i < v.deep_view().len() && v.deep_view()[i] == x;
                        if i < old(v).deep_view().len() {
                            assert(old(v).deep_view()[i] == x);
                        }
                    }
                    if old(v).deep_view().contains(x) {
                        let i = choose|i: int|
                            0 <= i < old(v).deep_view().len() && old(v).deep_view()[i] == x;
                        assert(v.deep_view()[i] == x);
                    }
                    if x == s@ {
                        assert(v.deep_view()[old(v).deep_view().len() as int] == x);
                    }
                }
            }
            if distinct_strs(old(v).deep_view()) {
                assert forall|i: int, j: int|
                    0 <= i < j < v.deep_view().len() implies v.deep_view()[i]
                    != v.deep_view()[j] by {
                    assert(v.deep_view()[i] == old(v).deep_view()[i]);
                    if j < old(v).deep_view().len() {
                        assert(v.deep_view()[j] == old(v).deep_view()[j]);
                    } else {
                        assert(v.deep_view()[j] == s@);
                    }
                }
            }
        }
    } else {
        proof {
            let i = choose|i: int|
                0 <= i < old(v).deep_view().len() && old(v).deep_view()[i] == s@;
            assert(old(v).deep_view().to_set().contains(old(v).deep_view()[i]));
            assert(v.deep_view().to_set() =~= old(v).deep_view().to_set().insert(s@));
        }
    }
}

/// Copies a vector of strings, element for element.
pub fn clone_strings(v: &Vec<String>) -> (r: Vec<String>)
    ensures
        r.deep_view() == v.deep_view(),
{
    let mut r: Vec<String> = Vec::new();
    let mut i: usize = 0;
    while i < v.len()
        invariant
            i <= v.len(),
            r@.len() == i,
            forall|k: int| 0 <= k < i ==> r@[k]@ == v@[k]@,
        decreases v.len() - i,
    {
        r.push(v[i].clone());
        i = i + 1;
    }
    proof {
        assert forall|k: int| 0 <= k < v@.len() implies r.deep_view()[k] == v.deep_view()[k] by {
            assert(r.deep_view()[k] == r@[k]@);
            assert(v.deep_view()[k] == v@[k]@);
        }
        assert(r.deep_view() =~= v.deep_view());
    }
    r
}

/// Copies a vector of string pairs, element for element.
pub fn clone_string_pairs(v: &Vec<(String, String)>) -> (r: Vec<(String, String)>)
    ensures
        r.deep_view() == v.deep_view(),
{
    let mut r: Vec<(String, String)> = Vec::new();
    let mut i: usize = 0;
    while i < v.len()
        invariant
            i <= v.len(),
            r@.len() == i,
            forall|k: int| 0 <= k < i ==> r@[k].0@ == v@[k].0@ && r@[k].1@ == v@[k].1@,
        decreases v.len() - i,
    {
        let p = (v[i].0.clone(), v[i].1.clone());
        r.push(p);
        i = i + 1;
    }
    proof {
        assert forall|k: int| 0 <= k < v@.len() implies r.deep_view()[k] == v.deep_view()[k] by {
            assert(r.deep_view()[k] == (r@[k].0@, r@[k].1@));
            assert(v.deep_view()[k] == (v@[k].0@, v@[k].1@));
        }
        assert(r.deep_view() =~= v.deep_view());
    }
    r
}

/// Copies a vector of named string lists, element for element.
pub fn clone_groups(v: &Vec<(String, Vec<String>)>) -> (r: Vec<(String, Vec<String>)>)
    ensures
        r.deep_view() == v.deep_view(),
{
    let mut r: Vec<(String, Vec<String>)> = Vec::new();
    let mut i: usize = 0;
    while i < v.len()
        invariant
            i <= v.len(),
            r@.len() == i,
            forall|k: int| 0 <= k < i ==> #[trigger] r.deep_view()[k] == v.deep_view()[k],
        decreases v.len() - i,
    {
        let members = clone_strings(&v[i].1);
        let ghost members_view = members.deep_view();
        let ghost r_before = r@;
        let ghost r_before_deep = r.deep_view();
        r.push((v[i].0.clone(), members));
        proof {
            assert forall|k: int|
                0 <= k < i + 1 implies #[trigger] r.deep_view()[k] == v.deep_view()[k] by {
                assert(r.deep_view()[k] == r@[k].deep_view());
                assert(v.deep_view()[k] == v@[k].deep_view());
                if k < i {
                    assert(r@[k] == r_before[k]);
                    assert(r_before_deep[k] == r_before[k].deep_view());
                } else {
                    assert(r@[k].deep_view() == (r@[k].0@, members_view));
                    assert(v@[k].deep_view() == (v@[k].0@, v@[k].1.deep_view()));
                }
            }
        }
        i = i + 1;
    }
    proof {
        assert(r.deep_view() =~= v.deep_view());
    }
    r
}

} // verus!
