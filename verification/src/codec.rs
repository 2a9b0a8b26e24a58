//! Text codec for the persisted stores: length-prefixed fields over
//! characters.  A number is its canonical decimal numeral and a newline; a
//! string is its length, a colon, its characters verbatim, and a newline.
//! Each parser accepts exactly the encodings: it returns the unique field
//! standing at the position, and fails precisely when no encoding stands
//! there.

use crate::numerals::{
    all_digits, dec_rep, is_digit, lemma_dec_rep_canonical, lemma_dec_rep_injective,
    lemma_digit_run_unique, parse_dec_run,
};
use crate::strutil::chars_to_string;
use vstd::prelude::*;

verus! {

/// The encoding of a number field: its canonical decimal numeral, then a
/// newline.
pub open spec fn enc_num(n: u64) -> Seq<char> {
    dec_rep(n as nat).push('\n')
}

/// The encoding of a string field: the length of the string as a numeral, a
/// colon, the characters verbatim, then a newline.
pub open spec fn enc_str(p: Seq<char>) -> Seq<char> {
    dec_rep(p.len()) + seq![':'] + p + seq!['\n']
}

/// A sequence splits at any interior position into the part before and the
/// part after.
pub proof fn lemma_split_at(s: Seq<char>, i: int, j: int)
    requires
        0 <= i <= j <= s.len(),
    ensures
        s.skip(i) == s.subrange(i, j) + s.skip(j),
{
    assert(s.skip(i) =~= s.subrange(i, j) + s.skip(j));
}

/// A number field decomposes in only one way.
pub proof fn lemma_enc_num_unique(n1: u64, n2: u64, x: Seq<char>, y: Seq<char>)
    requires
        enc_num(n1) + x == enc_num(n2) + y,
    ensures
        n1 == n2,
        x == y,
{
    lemma_dec_rep_canonical(n1 as nat);
    lemma_dec_rep_canonical(n2 as nat);
    let a = dec_rep(n1 as nat);
    let b = dec_rep(n2 as nat);
    assert(enc_num(n1) + x =~= a + (seq!['\n'] + x));
    assert(enc_num(n2) + y =~= b + (seq!['\n'] + y));
    lemma_digit_run_unique(a, seq!['\n'] + x, b, seq!['\n'] + y);
    lemma_dec_rep_injective(n1 as nat, n2 as nat);
    assert(x =~= y) by {
        assert(forall|m: int|
            0 <= m < x.len() ==> x[m] == (seq!['\n'] + x)[m + 1] && y[m] == (seq!['\n'] + y)[m
                + 1]);
    }
}

/// A string field decomposes in only one way.
pub proof fn lemma_enc_str_unique(p1: Seq<char>, p2: Seq<char>, x: Seq<char>, y: Seq<char>)
    requires
        enc_str(p1) + x == enc_str(p2) + y,
    ensures
        p1 == p2,
        x == y,
{
    lemma_dec_rep_canonical(p1.len());
    lemma_dec_rep_canonical(p2.len());
    let a = dec_rep(p1.len());
    let b = dec_rep(p2.len());
    let ta = seq![':'] + p1 + seq!['\n'] + x;
    let tb = seq![':'] + p2 + seq!['\n'] + y;
    assert(enc_str(p1) + x =~= a + ta);
    assert(enc_str(p2) + y =~= b + tb);
    lemma_digit_run_unique(a, ta, b, tb);
    lemma_dec_rep_injective(p1.len(), p2.len());
    assert(p1 =~= p2) by {
        assert(forall|m: int|
            0 <= m < p1.len() ==> p1[m] == ta[m + 1] && p2[m] == tb[m + 1]);
    }
    assert(x =~= y) by {
        assert(forall|m: int|
            0 <= m < x.len() ==> x[m] == ta[p1.len() + 2 + m] && y[m] == tb[p2.len() + 2 + m]);
    }
}

/// Matches the literal at the given position; returns the position after it.
/// Fails exactly when the remainder of the input does not start with the
/// literal.
pub fn parse_lit(s: &Vec<char>, i: usize, lit: &str) -> (r: Option<usize>)
    requires
        i <= s@.len(),
    ensures
        match r {
            Some(j) => {
                &&& i <= j <= s@.len()
                &&& j - i == lit@.len()
                &&& s@.subrange(i as int, j as int) == lit@
            },
            None => forall|rest: Seq<char>| s@.skip(i as int) != lit@ + rest,
        },
{
    let n = lit.unicode_len();
    let slen = s.len();
    if n > slen - i {
        proof {
            assert forall|rest: Seq<char>| s@.skip(i as int) != lit@ + rest by {
                assert(s@.skip(i as int).len() == s@.len() - i);
                assert((lit@ + rest).len() >= n);
            }
        }
        return None;
    }
    let mut k: usize = 0;
    while k < n
        invariant
            k <= n,
            n == lit@.len(),
            slen == s@.len(),
            i + n <= slen,
            forall|m: int| 0 <= m < k ==> s@[i + m] == lit@[m],
        decreases n - k,
    {
        if s[i + k] != lit.get_char(k) {
            proof {
                assert forall|rest: Seq<char>| s@.skip(i as int) != lit@ + rest by {
                    if s@.skip(i as int) == lit@ + rest {
                        assert(s@.skip(i as int)[k as int] == s@[i + k]);
                        assert((lit@ + rest)[k as int] == lit@[k as int]);
                    }
                }
            }
            return None;
        }
        k = k + 1;
    }
    proof {
        assert(s@.subrange(i as int, i + n) =~= lit@);
    }
    Some(i + n)
}

/// Parses a number field at the given position.  Fails exactly when no
/// number field stands there.
pub fn parse_num(s: &Vec<char>, i: usize) -> (r: Option<(u64, usize)>)
    requires
        i <= s@.len(),
    ensures
        match r {
            Some((n, j)) => {
                &&& i <= j <= s@.len()
                &&& s@.subrange(i as int, j as int) == enc_num(n)
            },
            None => forall|n: u64, rest: Seq<char>| s@.skip(i as int) != enc_num(n) + rest,
        },
{
    match parse_dec_run(s, i) {
        None => {
            proof {
                assert forall|n: u64, rest: Seq<char>| s@.skip(i as int) != enc_num(n) + rest by {
                    if s@.skip(i as int) == enc_num(n) + rest {
                        lemma_dec_rep_canonical(n as nat);
                        let d = dec_rep(n as nat);
                        let j = i + d.len();
                        assert(s@.skip(i as int).len() == s@.len() - i);
                        assert(j + 1 <= s@.len());
                        assert(s@.subrange(i as int, j as int) =~= d) by {
                            assert(forall|m: int|
                                0 <= m < d.len() ==> s@[i + m] == s@.skip(i as int)[m] && (enc_num(
                                    n,
                                ) + rest)[m] == d[m]);
                        }
                        assert(s@[j] == s@.skip(i as int)[d.len() as int]);
                        assert((enc_num(n) + rest)[d.len() as int] == '\n');
                        assert(!is_digit(s@[j]));
                    }
                }
            }
            None
        },
        Some((n, j)) => {
            if j < s.len() && s[j] == '\n' {
                proof {
                    assert(s@.subrange(i as int, j + 1) =~= s@.subrange(i as int, j as int).push(
                        s@[j as int],
                    ));
                }
                Some((n, j + 1))
            } else {
                proof {
                    let d = dec_rep(n as nat);
                    lemma_dec_rep_canonical(n as nat);
                    assert forall|n2: u64, rest: Seq<char>|
                        s@.skip(i as int) != enc_num(n2) + rest by {
                        if s@.skip(i as int) == enc_num(n2) + rest {
                            lemma_dec_rep_canonical(n2 as nat);
                            let d2 = dec_rep(n2 as nat);
                            lemma_split_at(s@, i as int, j as int);
                            assert(s@.skip(i as int) == d + s@.skip(j as int));
                            assert(enc_num(n2) + rest =~= d2 + (seq!['\n'] + rest));
                            lemma_digit_run_unique(
                                d,
                                s@.skip(j as int),
                                d2,
                                seq!['\n'] + rest,
                            );
                            assert(s@.skip(j as int)[0] == '\n');
                            assert(s@[j as int] == '\n');
                            assert(j < s@.len());
                        }
                    }
                }
                None
            }
        },
    }
}

/// Parses a string field at the given position.  Fails exactly when no
/// string field stands there.
pub fn parse_str_field(s: &Vec<char>, i: usize) -> (r: Option<(String, usize)>)
    requires
        i <= s@.len(),
    ensures
        match r {
            Some((t, j)) => {
                &&& i <= j <= s@.len()
                &&& s@.subrange(i as int, j as int) == enc_str(t@)
            },
            None => forall|p: Seq<char>, rest: Seq<char>| s@.skip(i as int) != enc_str(p) + rest,
        },
{
    let slen = s.len();
    match parse_dec_run(s, i) {
        None => {
            proof {
                assert forall|p: Seq<char>, rest: Seq<char>|
                    s@.skip(i as int) != enc_str(p) + rest by {
                    if s@.skip(i as int) == enc_str(p) + rest {
                        assert(s@.skip(i as int).len() == s@.len() - i);
                        assert(p.len() < s@.len());
                        let n: u64 = p.len() as u64;
                        lemma_dec_rep_canonical(p.len());
                        let d = dec_rep(p.len());
                        let j = i + d.len();
                        assert(j + 1 <= s@.len());
                        assert(s@.subrange(i as int, j as int) =~= d) by {
                            assert(forall|m: int|
                                0 <= m < d.len() ==> s@[i + m] == s@.skip(i as int)[m] && (enc_str(
                                    p,
                                ) + rest)[m] == d[m]);
                        }
                        assert(s@[j] == s@.skip(i as int)[d.len() as int]);
                        assert((enc_str(p) + rest)[d.len() as int] == ':');
                        assert(!is_digit(s@[j]));
                        assert(n as nat == p.len());
                    }
                }
            }
            None
        },
        Some((len64, j1)) => {
            let ghost d = dec_rep(len64 as nat);
            if j1 == slen || s[j1] != ':' {
                proof {
                    lemma_dec_rep_canonical(len64 as nat);
                    assert forall|p: Seq<char>, rest: Seq<char>|
                        s@.skip(i as int) != enc_str(p) + rest by {
                        if s@.skip(i as int) == enc_str(p) + rest {
                            lemma_dec_rep_canonical(p.len());
                            lemma_split_at(s@, i as int, j1 as int);
                            assert(enc_str(p) + rest =~= dec_rep(p.len()) + (seq![':'] + p
                                + seq!['\n'] + rest));
                            lemma_digit_run_unique(
                                d,
                                s@.skip(j1 as int),
                                dec_rep(p.len()),
                                seq![':'] + p + seq!['\n'] + rest,
                            );
                            assert(s@.skip(j1 as int)[0] == ':');
                            assert(s@[j1 as int] == ':');
                            assert(j1 < s@.len());
                        }
                    }
                }
                return None;
            }
            let j2 = j1 + 1;
            if len64 > (slen - j2) as u64 {
                proof {
                    lemma_dec_rep_canonical(len64 as nat);
                    assert forall|p: Seq<char>, rest: Seq<char>|
                        s@.skip(i as int) != enc_str(p) + rest by {
                        if s@.skip(i as int) == enc_str(p) + rest {
                            lemma_dec_rep_canonical(p.len());
                            lemma_split_at(s@, i as int, j1 as int);
                            assert(enc_str(p) + rest =~= dec_rep(p.len()) + (seq![':'] + p
                                + seq!['\n'] + rest));
                            lemma_digit_run_unique(
                                d,
                                s@.skip(j1 as int),
                                dec_rep(p.len()),
                                seq![':'] + p + seq!['\n'] + rest,
                            );
                            lemma_dec_rep_injective(len64 as nat, p.len());
                            assert(s@.skip(j1 as int).len() == s@.len() - j1);
                            assert((seq![':'] + p + seq!['\n'] + rest).len() >= 2 + p.len());
                        }
                    }
                }
                return None;
            }
            let len = len64 as usize;
            let mut sub: Vec<char> = Vec::new();
            let mut k: usize = 0;
            while k < len
                invariant
                    k <= len,
                    slen == s@.len(),
                    j2 + len <= slen,
                    sub@ =~= s@.subrange(j2 as int, j2 + k),
                decreases len - k,
            {
                sub.push(s[j2 + k]);
                proof {
                    assert(sub@ =~= s@.subrange(j2 as int, j2 + k + 1));
                }
                k = k + 1;
            }
            let j3 = j2 + len;
            if j3 == slen || s[j3] != '\n' {
                proof {
                    lemma_dec_rep_canonical(len64 as nat);
                    assert forall|p: Seq<char>, rest: Seq<char>|
                        s@.skip(i as int) != enc_str(p) + rest by {
                        if s@.skip(i as int) == enc_str(p) + rest {
                            lemma_dec_rep_canonical(p.len());
                            lemma_split_at(s@, i as int, j1 as int);
                            let tail = seq![':'] + p + seq!['\n'] + rest;
                            assert(enc_str(p) + rest =~= dec_rep(p.len()) + tail);
                            lemma_digit_run_unique(d, s@.skip(j1 as int), dec_rep(p.len()), tail);
                            lemma_dec_rep_injective(len64 as nat, p.len());
                            assert(s@.skip(j1 as int)[1 + p.len() as int] == tail[1
                                + p.len() as int]);
                            assert(tail[1 + p.len() as int] == '\n');
                            assert(s@.skip(j1 as int)[1 + p.len() as int] == s@[j1 + 1
                                + p.len() as int]);
                            assert(j3 == j1 + 1 + p.len());
                            assert(j3 < s@.len());
                        }
                    }
                }
                return None;
            }
            let t = chars_to_string(&sub);
            proof {
                assert(t@.len() == len64 as nat);
                assert(s@.subrange(i as int, j3 + 1) =~= enc_str(t@)) by {
                    assert(s@.subrange(i as int, j1 as int) == d);
                    assert(dec_rep(t@.len()) == d);
                    assert(s@[j1 as int] == ':');
                    assert(s@[j3 as int] == '\n');
                    assert(forall|m: int|
                        0 <= m < len ==> s@.subrange(i as int, j3 + 1)[d.len() + 1 + m]
                            == #[trigger] s@.subrange(j2 as int, j3 as int)[m]);
                }
            }
            Some((t, j3 + 1))
        },
    }
}

/// Appends a number field to the output.
pub fn push_enc_num(out: &mut Vec<char>, n: u64)
    ensures
        final (out)@ == old(out)@ + enc_num(n),
{
    crate::numerals::push_dec_chars(n, out);
    out.push('\n');
    proof {
        assert(out@ =~= old(out)@ + enc_num(n));
    }
}

/// Appends a string field to the output.
pub fn push_enc_str(out: &mut Vec<char>, t: &String)
    ensures
        final (out)@ == old(out)@ + enc_str(t@),
{
    let len = t.as_str().unicode_len();
    crate::numerals::push_dec_chars(len as u64, out);
    out.push(':');
    let mut k: usize = 0;
    while k < len
        invariant
            k <= len,
            len == t@.len(),
            out@ =~= old(out)@ + dec_rep(t@.len()) + seq![':'] + t@.subrange(0, k as int),
        decreases len - k,
    {
        out.push(t.as_str().get_char(k));
        proof {
            assert(out@ =~= old(out)@ + dec_rep(t@.len()) + seq![':'] + t@.subrange(0, k + 1));
        }
        k = k + 1;
    }
    out.push('\n');
    proof {
        assert(t@.subrange(0, t@.len() as int) =~= t@);
        assert(out@ =~= old(out)@ + enc_str(t@));
    }
}

/// Appends a literal to the output.
pub fn push_lit(out: &mut Vec<char>, lit: &str)
    ensures
        final (out)@ == old(out)@ + lit@,
{
    let n = lit.unicode_len();
    let mut k: usize = 0;
    while k < n
        invariant
            k <= n,
            n == lit@.len(),
            out@ =~= old(out)@ + lit@.subrange(0, k as int),
        decreases n - k,
    {
        out.push(lit.get_char(k));
        proof {
            assert(out@ =~= old(out)@ + lit@.subrange(0, k + 1));
        }
        k = k + 1;
    }
    proof {
        assert(lit@.subrange(0, n as int) =~= lit@);
        assert(out@ =~= old(out)@ + lit@);
    }
}

} // verus!
