//! Canonical decimal numerals: rendering a `u64` as its decimal string and
//! parsing it back, with the round-trip facts the store codec builds on.

use vstd::arithmetic::div_mod::lemma_fundamental_div_mod;
use vstd::prelude::*;

verus! {

/// Whether the character is a decimal digit.
pub open spec fn is_digit(c: char) -> bool {
    c == '0' || c == '1' || c == '2' || c == '3' || c == '4' || c == '5' || c == '6' || c == '7'
        || c == '8' || c == '9'
}

/// The digit character for a value below ten.
pub open spec fn digit_char(d: nat) -> char
    recommends
        d < 10,
{
    if d == 0 {
        '0'
    } else if d == 1 {
        '1'
    } else if d == 2 {
        '2'
    } else if d == 3 {
        '3'
    } else if d == 4 {
        '4'
    } else if d == 5 {
        '5'
    } else if d == 6 {
        '6'
    } else if d == 7 {
        '7'
    } else if d == 8 {
        '8'
    } else {
        '9'
    }
}

/// The value of a digit character.
pub open spec fn digit_val(c: char) -> nat
    recommends
        is_digit(c),
{
    if c == '0' {
        0
    } else if c == '1' {
        1
    } else if c == '2' {
        2
    } else if c == '3' {
        3
    } else if c == '4' {
        4
    } else if c == '5' {
        5
    } else if c == '6' {
        6
    } else if c == '7' {
        7
    } else if c == '8' {
        8
    } else {
        9
    }
}

/// The canonical decimal numeral of a value: no leading zero except for the
/// single digit of zero itself.
pub open spec fn dec_rep(n: nat) -> Seq<char>
    decreases n,
{
    if n < 10 {
        seq![digit_char(n)]
    } else {
        dec_rep(n / 10) + seq![digit_char(n % 10)]
    }
}

/// Whether every character of the sequence is a decimal digit.
pub open spec fn all_digits(s: Seq<char>) -> bool {
    forall|i: int| 0 <= i < s.len() ==> is_digit(s[i])
}

/// Whether the sequence is a canonical decimal numeral.
pub open spec fn canonical_numeral(s: Seq<char>) -> bool {
    &&& all_digits(s)
    &&& s.len() > 0
    &&& (s.len() > 1 ==> s[0] != '0')
}

/// The value of a digit sequence read as a base-ten numeral.
pub open spec fn seq_val(s: Seq<char>) -> nat
    decreases s.len(),
{
    if s.len() == 0 {
        0
    } else {
        seq_val(s.drop_last()) * 10 + digit_val(s.last())
    }
}

/// The decimal numeral of every value is canonical, and starts with a zero
/// digit only for the value zero.
pub proof fn lemma_dec_rep_canonical(n: nat)
    ensures
        canonical_numeral(dec_rep(n)),
        n > 0 ==> dec_rep(n)[0] != '0',
        n == 0 ==> dec_rep(n) == seq!['0'],
    decreases n,
{
    if n < 10 {
    } else {
        lemma_fundamental_div_mod(n as int, 10);
        lemma_dec_rep_canonical(n / 10);
        let a = dec_rep(n / 10);
        let s = dec_rep(n);
        assert(s == a + seq![digit_char(n % 10)]);
        assert forall|i: int| 0 <= i < s.len() implies is_digit(s[i]) by {
            if i < a.len() {
                assert(s[i] == a[i]);
            } else {
                assert(s[i] == digit_char(n % 10));
            }
        }
        assert(s[0] == a[0]);
    }
}

/// Reading the decimal numeral of a value back as a numeral yields the value.
pub proof fn lemma_seq_val_dec_rep(n: nat)
    ensures
        seq_val(dec_rep(n)) == n,
    decreases n,
{
    if n < 10 {
        let s = dec_rep(n);
        assert(s.drop_last() =~= Seq::<char>::empty());
        assert(seq_val(Seq::<char>::empty()) == 0);
        assert(s.last() == digit_char(n));
        assert(digit_val(digit_char(n)) == n);
    } else {
        lemma_fundamental_div_mod(n as int, 10);
        lemma_seq_val_dec_rep(n / 10);
        let a = dec_rep(n / 10);
        let s = dec_rep(n);
        assert(s.drop_last() =~= a);
        assert(s.last() == digit_char(n % 10));
        assert(n % 10 < 10);
        assert(digit_val(digit_char(n % 10)) == n % 10);
        assert(seq_val(s) == seq_val(a) * 10 + n % 10);
    }
}

/// A digit sequence whose numeral value is zero holds only zero digits.
proof fn lemma_seq_val_zero(s: Seq<char>)
    requires
        all_digits(s),
        seq_val(s) == 0,
    ensures
        forall|i: int| 0 <= i < s.len() ==> s[i] == '0',
    decreases s.len(),
{
    if s.len() > 0 {
        assert(seq_val(s.drop_last()) == 0);
        assert(all_digits(s.drop_last())) by {
            assert(forall|i: int| 0 <= i < s.len() - 1 ==> s.drop_last()[i] == s[i]);
        }
        lemma_seq_val_zero(s.drop_last());
        assert(digit_val(s.last()) == 0);
        assert(s.last() == '0');
        assert forall|i: int| 0 <= i < s.len() implies s[i] == '0' by {
            if i < s.len() - 1 {
                assert(s.drop_last()[i] == '0');
            } else {
                assert(s[i] == s.last());
            }
        }
    }
}

/// The decimal numeral of the value of a canonical numeral is that numeral.
pub proof fn lemma_dec_rep_seq_val(s: Seq<char>)
    requires
        canonical_numeral(s),
    ensures
        dec_rep(seq_val(s)) == s,
    decreases s.len(),
{
    if s.len() == 1 {
        assert(s.drop_last() =~= Seq::<char>::empty());
        assert(seq_val(Seq::<char>::empty()) == 0);
        assert(seq_val(s) == digit_val(s[0]));
        assert(digit_val(s[0]) < 10);
        assert(digit_char(digit_val(s[0])) == s[0]);
        assert(dec_rep(seq_val(s)) =~= s);
    } else {
        let a = s.drop_last();
        let c = s.last();
        assert(all_digits(a) && a[0] == s[0]) by {
            assert(forall|i: int| 0 <= i < a.len() ==> a[i] == s[i]);
        }
        assert(canonical_numeral(a));
        assert(seq_val(a) > 0) by {
            if seq_val(a) == 0 {
                lemma_seq_val_zero(a);
                assert(a[0] == '0');
            }
        }
        lemma_dec_rep_seq_val(a);
        let v = seq_val(s);
        assert(v == seq_val(a) * 10 + digit_val(c));
        assert(digit_val(c) < 10);
        assert(v >= 10);
        vstd::arithmetic::div_mod::lemma_fundamental_div_mod_converse(
            v as int,
            10,
            seq_val(a) as int,
            digit_val(c) as int,
        );
        assert(v / 10 == seq_val(a) && v % 10 == digit_val(c));
        assert(digit_char(digit_val(c)) == c);
        assert(dec_rep(v) == dec_rep(seq_val(a)) + seq![c]);
        assert(dec_rep(v) =~= s);
    }
}

/// Distinct values have distinct decimal numerals.
pub proof fn lemma_dec_rep_injective(m: nat, n: nat)
    requires
        dec_rep(m) == dec_rep(n),
    ensures
        m == n,
{
    lemma_seq_val_dec_rep(m);
    lemma_seq_val_dec_rep(n);
}

/// A digit run followed by a non-digit decomposes in only one way: equal
/// concatenations split at the first non-digit split equally.
pub proof fn lemma_digit_run_unique(a: Seq<char>, x: Seq<char>, b: Seq<char>, y: Seq<char>)
    requires
        all_digits(a),
        all_digits(b),
        a + x == b + y,
        x.len() > 0 ==> !is_digit(x[0]),
        y.len() > 0 ==> !is_digit(y[0]),
    ensures
        a == b,
        x == y,
{
    if a.len() < b.len() {
        assert(x.len() > 0);
        assert(x[0] == (a + x)[a.len() as int]);
        assert((b + y)[a.len() as int] == b[a.len() as int]);
        assert(false);
    }
    if b.len() < a.len() {
        assert(y.len() > 0);
        assert(y[0] == (b + y)[b.len() as int]);
        assert((a + x)[b.len() as int] == a[b.len() as int]);
        assert(false);
    }
    assert(a.len() == b.len());
    assert forall|i: int| 0 <= i < a.len() implies a[i] == b[i] by {
        assert((a + x)[i] == a[i]);
        assert((b + y)[i] == b[i]);
    }
    assert(a =~= b);
    assert((a + x).len() == a.len() + x.len());
    assert((b + y).len() == b.len() + y.len());
    assert(x.len() == y.len());
    assert forall|i: int| 0 <= i < x.len() implies x[i] == y[i] by {
        assert((a + x)[a.len() + i] == x[i]);
        assert((b + y)[b.len() + i] == y[i]);
    }
    assert(x =~= y);
}

/// The value of a prefix of a digit sequence never exceeds the value of the
/// whole sequence.
pub proof fn lemma_seq_val_prefix(s: Seq<char>, k: int)
    requires
        0 <= k <= s.len(),
    ensures
        seq_val(s.take(k)) <= seq_val(s),
    decreases s.len() - k,
{
    if k < s.len() {
        lemma_seq_val_prefix(s.drop_last(), k);
        assert(s.drop_last().take(k) =~= s.take(k));
        assert(seq_val(s) == seq_val(s.drop_last()) * 10 + digit_val(s.last()));
        assert(seq_val(s.drop_last()) <= seq_val(s.drop_last()) * 10);
    } else {
        assert(s.take(k) =~= s);
    }
}

/// The digit character of a value below ten.
pub fn digit_to_char(d: u8) -> (r: char)
    requires
        d < 10,
    ensures
        r == digit_char(d as nat),
{
    match d {
        0 => '0',
        1 => '1',
        2 => '2',
        3 => '3',
        4 => '4',
        5 => '5',
        6 => '6',
        7 => '7',
        8 => '8',
        _ => '9',
    }
}

/// The value of a character if it is a decimal digit.
pub fn char_to_digit(c: char) -> (r: Option<u8>)
    ensures
        match r {
            Some(d) => is_digit(c) && d < 10 && d as nat == digit_val(c),
            None => !is_digit(c),
        },
{
    match c {
        '0' => Some(0),
        '1' => Some(1),
        '2' => Some(2),
        '3' => Some(3),
        '4' => Some(4),
        '5' => Some(5),
        '6' => Some(6),
        '7' => Some(7),
        '8' => Some(8),
        '9' => Some(9),
        _ => None,
    }
}

/// Appends the decimal numeral of the value to the character vector.
pub fn push_dec_chars(n: u64, out: &mut Vec<char>)
    ensures
        final (out)@ == old(out)@ + dec_rep(n as nat),
    decreases n,
{
    proof {
        lemma_fundamental_div_mod(n as int, 10);
    }
    if n < 10 {
        out.push(digit_to_char(n as u8));
        proof {
            assert(out@ =~= old(out)@ + dec_rep(n as nat));
        }
    } else {
        push_dec_chars(n / 10, out);
        out.push(digit_to_char((n % 10) as u8));
        proof {
            assert(out@ =~= old(out)@ + dec_rep(n as nat));
        }
    }
}

/// The decimal string of a value.
pub fn u64_to_dec_string(n: u64) -> (r: String)
    ensures
        r@ == dec_rep(n as nat),
{
    let mut v: Vec<char> = Vec::new();
    push_dec_chars(n, &mut v);
    crate::strutil::chars_to_string(&v)
}

/// Parses the longest run of digits starting at the given position as a
/// canonical decimal numeral.  Returns the value and the position after the
/// run; fails exactly when no canonical numeral that fits in a `u64` stands
/// at the position with a non-digit (or the end) after it.
pub fn parse_dec_run(s: &Vec<char>, start: usize) -> (r: Option<(u64, usize)>)
    requires
        start <= s@.len(),
    ensures
        match r {
            Some((n, j)) => {
                &&& start <= j <= s@.len()
                &&& s@.subrange(start as int, j as int) == dec_rep(n as nat)
                &&& (j == s@.len() || !is_digit(s@[j as int]))
            },
            None => forall|n: u64, j: int|
                start <= j <= s@.len() ==> !(s@.subrange(start as int, j) == dec_rep(n as nat) && (
                j == s@.len() || !is_digit(s@[j]))),
        },
{
    let len = s.len();
    if start == len {
        proof {
            assert forall|n: u64, j: int|
                start <= j <= s@.len() implies !(s@.subrange(start as int, j) == dec_rep(n as nat)
                && (j == s@.len() || !is_digit(s@[j]))) by {
                lemma_dec_rep_canonical(n as nat);
            }
        }
        return None;
    }
    let first = match char_to_digit(s[start]) {
        Some(d) => d,
        None => {
            proof {
                assert forall|n: u64, j: int|
                    start <= j <= s@.len() implies !(s@.subrange(start as int, j) == dec_rep(
                    n as nat,
                ) && (j == s@.len() || !is_digit(s@[j]))) by {
                    lemma_dec_rep_canonical(n as nat);
                    if s@.subrange(start as int, j) == dec_rep(n as nat) {
                        assert(s@[start as int] == dec_rep(n as nat)[0]);
                    }
                }
            }
            return None;
        },
    };
    if first == 0 {
        // A canonical numeral starts with a zero digit only as the single
        // numeral of zero itself.
        if start + 1 == len || char_to_digit(s[start + 1]).is_none() {
            proof {
                assert(s@[start as int] == '0');
                assert(s@.subrange(start as int, start + 1) =~= seq!['0']);
                lemma_dec_rep_canonical(0);
            }
            return Some((0, start + 1));
        } else {
            proof {
                assert(s@[start as int] == '0');
                assert(is_digit(s@[start as int + 1]));
                assert forall|n: u64, j: int|
                    start <= j <= s@.len() implies !(s@.subrange(start as int, j) == dec_rep(
                    n as nat,
                ) && (j == s@.len() || !is_digit(s@[j]))) by {
                    lemma_dec_rep_canonical(n as nat);
                    if s@.subrange(start as int, j) == dec_rep(n as nat) && (j == s@.len()
                        || !is_digit(s@[j])) {
                        assert(s@[start as int] == dec_rep(n as nat)[0]);
                        assert(n == 0);
                        assert(dec_rep(n as nat).len() == 1);
                        assert(j == start + 1);
                        assert(false);
                    }
                }
            }
            return None;
        }
    }
    let mut n: u64 = first as u64;
    let mut j: usize = start + 1;
    proof {
        assert(s@.subrange(start as int, j as int) =~= seq![s@[start as int]]);
        assert(seq_val(seq![s@[start as int]]) == digit_val(s@[start as int])) by {
            assert(seq![s@[start as int]].drop_last() =~= Seq::<char>::empty());
            assert(seq_val(Seq::<char>::empty()) == 0);
        }
    }
    loop
        invariant
            start < j <= len,
            len == s@.len(),
            n as nat == seq_val(s@.subrange(start as int, j as int)),
            canonical_numeral(s@.subrange(start as int, j as int)),
            s@[start as int] != '0',
        ensures
            j == len || !is_digit(s@[j as int]),
        decreases len - j,
    {
        if j == len {
            break ;
        }
        let next = char_to_digit(s[j]);
        if next.is_none() {
            break ;
        }
        let d = next.unwrap();
        // The run continues: take the next digit unless the value leaves the
        // machine range, in which case no `u64` numeral stands here at all.
        let ghost run = s@.subrange(start as int, j as int);
        let ghost run1 = s@.subrange(start as int, j + 1);
        proof {
            assert(run1.drop_last() =~= run);
            assert(run1.last() == s@[j as int]);
            assert(seq_val(run1) == seq_val(run) * 10 + digit_val(s@[j as int]));
            assert(all_digits(run1)) by {
                assert(forall|i: int| 0 <= i < run.len() ==> run1[i] == run[i]);
            }
            assert(run1[0] == run[0]);
            lemma_fundamental_div_mod(u64::MAX - d as int, 10);
        }
        if n > (u64::MAX - d as u64) / 10 {
            proof {
                assert(seq_val(run1) > u64::MAX);
                assert forall|n2: u64, j2: int|
                    start <= j2 <= s@.len() implies !(s@.subrange(start as int, j2) == dec_rep(
                    n2 as nat,
                ) && (j2 == s@.len() || !is_digit(s@[j2]))) by {
                    if s@.subrange(start as int, j2) == dec_rep(n2 as nat) && (j2 == s@.len()
                        || !is_digit(s@[j2])) {
                        lemma_dec_rep_canonical(n2 as nat);
                        lemma_seq_val_dec_rep(n2 as nat);
                        // The candidate run must extend past the digit at j,
                        // so its value is at least the overflowing value.
                        assert(j2 > j) by {
                            if j2 <= j {
                                assert(is_digit(s@[j2])) by {
                                    assert(s@.subrange(start as int, j + 1)[j2 - start] == s@[j2]);
                                }
                            }
                        }
                        assert(s@.subrange(start as int, j2).take(j + 1 - start) =~= run1);
                        lemma_seq_val_prefix(s@.subrange(start as int, j2), j + 1 - start);
                        assert(n2 as nat >= seq_val(run1));
                    }
                }
            }
            return None;
        }
        proof {
            assert(n as nat * 10 + d as nat <= u64::MAX);
        }
        n = n * 10 + d as u64;
        j = j + 1;
    }
    proof {
        let run = s@.subrange(start as int, j as int);
        lemma_dec_rep_seq_val(run);
    }
    Some((n, j))
}

} // verus!
