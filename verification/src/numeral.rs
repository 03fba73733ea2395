//! Decimal numerals: the digit string of a number, the value of a digit
//! string, and verified rendering and parsing of `usize` values.

use vstd::prelude::*;

verus! {

/// The character for a single decimal digit value (`0 <= d <= 9`).
pub open spec fn digit_char(d: nat) -> char {
    ((48 + d) as u8) as char
}

/// Decimal digits of `n`, most significant first, without leading zeros.
pub open spec fn dec_digits(n: nat) -> Seq<char>
    decreases n,
{
    if n < 10 {
        seq![digit_char(n)]
    } else {
        dec_digits(n / 10).push(digit_char((n % 10) as nat))
    }
}

pub open spec fn is_digit(c: char) -> bool {
    48 <= c as int && c as int <= 57
}

pub open spec fn digit_val(c: char) -> nat {
    (c as int - 48) as nat
}

/// Value of a digit string, most significant first.
pub open spec fn dec_val(s: Seq<char>) -> nat
    decreases s.len(),
{
    if s.len() == 0 {
        0
    } else {
        dec_val(s.drop_last()) * 10 + digit_val(s.last())
    }
}

pub open spec fn all_digits(s: Seq<char>) -> bool {
    forall|i: int| 0 <= i < s.len() ==> is_digit(#[trigger] s[i])
}

pub proof fn lemma_dec_digits_are_digits(n: nat)
    ensures
        dec_digits(n).len() >= 1,
        all_digits(dec_digits(n)),
    decreases n,
{
    if n >= 10 {
        lemma_dec_digits_are_digits(n / 10);
    }
}

pub proof fn lemma_dec_val_of_digits(n: nat)
    ensures
        dec_val(dec_digits(n)) == n,
    decreases n,
{
    reveal_with_fuel(dec_val, 3);
    if n < 10 {
        let s = dec_digits(n);
        assert(digit_val(digit_char(n)) == n);
        assert(s.drop_last() =~= Seq::<char>::empty());
    } else {
        lemma_dec_val_of_digits(n / 10);
        let s = dec_digits(n);
        assert(digit_val(digit_char((n % 10) as nat)) == n % 10);
        assert(s.drop_last() =~= dec_digits(n / 10));
        assert(s.last() == digit_char((n % 10) as nat));
    }
}

pub proof fn lemma_dec_val_push(s: Seq<char>, c: char)
    ensures
        dec_val(s.push(c)) == dec_val(s) * 10 + digit_val(c),
{
    assert(s.push(c).drop_last() =~= s);
    assert(s.push(c).last() == c);
}

/// Extending a digit string on the right never lowers its value.
pub proof fn lemma_dec_val_extend(s: Seq<char>, t: Seq<char>)
    ensures
        dec_val(s + t) >= dec_val(s),
    decreases t.len(),
{
    if t.len() == 0 {
        assert(s + t =~= s);
    } else {
        lemma_dec_val_extend(s, t.drop_last());
        assert(s + t =~= (s + t.drop_last()).push(t.last()));
        lemma_dec_val_push(s + t.drop_last(), t.last());
    }
}

/// First index at or after `i` where the run of digit characters ends.
pub open spec fn digits_end(s: Seq<char>, i: int) -> int
    decreases s.len() - i,
{
    if i < 0 || i >= s.len() {
        i
    } else if is_digit(s[i]) {
        digits_end(s, i + 1)
    } else {
        i
    }
}

pub proof fn lemma_digits_end_bounds(s: Seq<char>, i: int)
    requires
        0 <= i <= s.len(),
    ensures
        i <= digits_end(s, i) <= s.len(),
        forall|k: int| i <= k < digits_end(s, i) ==> is_digit(#[trigger] s[k]),
        digits_end(s, i) == s.len() || !is_digit(s[digits_end(s, i)]),
    decreases s.len() - i,
{
    if i < s.len() && is_digit(s[i]) {
        lemma_digits_end_bounds(s, i + 1);
    }
}

/// A run of digits is skipped whole: the end seen from `i` is the end seen
/// from any point `k` inside the run.
pub proof fn lemma_digits_end_skip(s: Seq<char>, i: int, k: int)
    requires
        0 <= i <= k <= s.len(),
        forall|m: int| i <= m < k ==> is_digit(#[trigger] s[m]),
    ensures
        digits_end(s, i) == digits_end(s, k),
    decreases k - i,
{
    if i < k {
        lemma_digits_end_skip(s, i + 1, k);
    }
}

/// A digit run at `i` with its value: fails without a digit at `i`, or when
/// the run's value exceeds `usize::MAX`.
pub open spec fn parse_number(s: Seq<char>, i: int) -> Option<(nat, int)> {
    let j = digits_end(s, i);
    if j == i {
        None
    } else if dec_val(s.subrange(i, j)) > usize::MAX as nat {
        None
    } else {
        Some((dec_val(s.subrange(i, j)), j))
    }
}

/// The digit value of `c`, if it is one.
pub fn digit_of(c: char) -> (r: Option<u8>)
    ensures
        match r {
            Some(d) => is_digit(c) && d < 10 && d as nat == digit_val(c),
            None => !is_digit(c),
        },
{
    let u = c as u32;
    if 48 <= u && u <= 57 {
        Some((u - 48) as u8)
    } else {
        None
    }
}

/// Reads the digit run starting at `i` and its value.
pub fn scan_number(v: &Vec<char>, i: usize) -> (r: Option<(usize, usize)>)
    requires
        i <= v@.len(),
    ensures
        match r {
            Some((n, j)) => parse_number(v@, i as int) == Some((n as nat, j as int)),
            None => parse_number(v@, i as int) is None,
        },
{
    let ghost s = v@;
    let mut j: usize = i;
    let mut acc: usize = 0;
    loop
        invariant
            i <= j <= s.len(),
            s == v@,
            forall|k: int| i <= k < j ==> is_digit(#[trigger] s[k]),
            acc as nat == dec_val(s.subrange(i as int, j as int)),
        ensures
            j == s.len() || !is_digit(s[j as int]),
        decreases s.len() - j,
    {
        if j == v.len() {
            break;
        }
        let c = v[j];
        match digit_of(c) {
            None => { break; },
            Some(d) => {
                proof {
                    lemma_dec_val_push(s.subrange(i as int, j as int), s[j as int]);
                    assert(s.subrange(i as int, j as int + 1) =~= s.subrange(
                        i as int,
                        j as int,
                    ).push(s[j as int]));
                }
                if acc > (usize::MAX - d as usize) / 10 {
                    // The run's value already exceeds `usize::MAX`.
                    proof {
                        lemma_digits_end_bounds(s, j as int + 1);
                        lemma_digits_end_skip(s, i as int, j as int + 1);
                        let end = digits_end(s, i as int);
                        assert(s.subrange(i as int, end) =~= s.subrange(i as int, j as int + 1)
                            + s.subrange(j as int + 1, end));
                        lemma_dec_val_extend(
                            s.subrange(i as int, j as int + 1),
                            s.subrange(j as int + 1, end),
                        );
                        let q = (usize::MAX - d as usize) / 10;
                        assert(q * 10 <= usize::MAX - d as usize);
                        assert((usize::MAX - d as usize) < q * 10 + 10);
                        assert(acc >= q + 1);
                        assert(acc * 10 >= q * 10 + 10) by (nonlinear_arith)
                            requires acc >= q + 1;
                        assert(dec_val(s.subrange(i as int, j as int + 1)) > usize::MAX as nat);
                    }
                    return None;
                }
                proof {
                    let q = (usize::MAX - d as usize) / 10;
                    assert(q * 10 <= usize::MAX - d as usize);
                    assert(acc * 10 <= q * 10) by (nonlinear_arith)
                        requires acc <= q;
                }
                acc = acc * 10 + d as usize;
                j = j + 1;
            },
        }
    }
    proof {
        lemma_digits_end_bounds(s, j as int);
        lemma_digits_end_skip(s, i as int, j as int);
        assert(digits_end(s, i as int) == j);
    }
    if j == i {
        None
    } else {
        Some((acc, j))
    }
}

/// Appends the decimal digits of `n` to `out`.
pub fn push_dec(out: &mut Vec<char>, n: usize)
    ensures
        final(out)@ == old(out)@ + dec_digits(n as nat),
    decreases n,
{
    if n < 10 {
        let c = ((48 + n as u8) as char);
        out.push(c);
        proof {
            assert(out@ =~= old(out)@ + dec_digits(n as nat));
        }
    } else {
        push_dec(out, n / 10);
        let c = ((48 + (n % 10) as u8) as char);
        out.push(c);
        proof {
            assert(out@ =~= old(out)@ + dec_digits(n as nat));
        }
    }
}

} // verus!
