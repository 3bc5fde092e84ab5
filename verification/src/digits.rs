//! Decimal notation: how digit strings denote numbers, how numbers are
//! written back out, and the verified scanners the parsers share.

use vstd::prelude::*;

verus! {

/// Relies on `alloc::string::String::push`: appends the given character to
/// the end of the string.
pub assume_specification[ String::push ](s: &mut String, ch: char)
    ensures
        final(s)@ == old(s)@.push(ch),
;

/// An ASCII decimal digit.
pub open spec fn is_digit(c: char) -> bool {
    '0' <= c && c <= '9'
}

/// The numeric value of one digit.
pub open spec fn digit_val(c: char) -> int {
    c as int - '0' as int
}

/// Every character of the string is a digit.
pub open spec fn all_digits(s: Seq<char>) -> bool {
    forall|i: int| 0 <= i < s.len() ==> is_digit(#[trigger] s[i])
}

/// The number a digit string denotes, most significant digit first.
pub open spec fn digits_val(s: Seq<char>) -> int
    decreases s.len(),
{
    if s.len() == 0 {
        0
    } else {
        digits_val(s.drop_last()) * 10 + digit_val(s.last())
    }
}

/// The digit character for a value below ten.
pub open spec fn digit_char(d: int) -> char {
    if d == 0 {
        '0'
    } else if d == 1 {
        '1'
    } else if d == 2 {
        '2'
    } else if d == 3 {
        '3'
    } else if d == 4 {
        '4'
    } else if d == 5 {
        '5'
    } else if d == 6 {
        '6'
    } else if d == 7 {
        '7'
    } else if d == 8 {
        '8'
    } else {
        '9'
    }
}

/// The canonical decimal notation of `n`: no sign and no leading zeroes.
pub open spec fn dec_str(n: nat) -> Seq<char>
    decreases n,
{
    if n < 10 {
        seq![digit_char(n as int)]
    } else {
        dec_str(n / 10).push(digit_char((n % 10) as int))
    }
}

/// A digit string never denotes a negative number.
pub proof fn lemma_digits_val_nonneg(s: Seq<char>)
    requires
        all_digits(s),
    ensures
        digits_val(s) >= 0,
    decreases s.len(),
{
    if s.len() > 0 {
        lemma_digits_val_nonneg(s.drop_last());
    }
}

/// The decimal notation of `n` is a nonempty digit string that denotes `n`.
pub proof fn lemma_dec_str_val(n: nat)
    ensures
        all_digits(dec_str(n)),
        dec_str(n).len() >= 1,
        digits_val(dec_str(n)) == n,
    decreases n,
{
    if n < 10 {
        reveal_with_fuel(digits_val, 2);
        let s = seq![digit_char(n as int)];
        assert(s.drop_last() =~= Seq::<char>::empty());
        assert(s.last() == digit_char(n as int));
        assert(digits_val(s) == digit_val(digit_char(n as int)));
        assert(digit_val(digit_char(n as int)) == n);
    } else {
        lemma_dec_str_val(n / 10);
        let d = dec_str(n / 10);
        let c = digit_char((n % 10) as int);
        assert(d.push(c).drop_last() =~= d);
        assert(digit_val(c) == n % 10);
        assert(digits_val(d.push(c)) == (n / 10) * 10 + n % 10);
        assert((n / 10) * 10 + n % 10 == n) by (nonlinear_arith);
    }
}

/// The first position at or after `i` that does not hold a digit.
pub open spec fn digit_run_end(s: Seq<char>, i: int) -> int
    decreases s.len() - i,
{
    if i < 0 || i >= s.len() || !is_digit(s[i]) {
        i
    } else {
        digit_run_end(s, i + 1)
    }
}

/// What bounds a digit run: everything from `i` to the end is a digit, and
/// the end is the string's end or a non-digit.
pub proof fn lemma_digit_run_end(s: Seq<char>, i: int)
    requires
        0 <= i <= s.len(),
    ensures
        i <= digit_run_end(s, i) <= s.len(),
        forall|k: int| i <= k < digit_run_end(s, i) ==> is_digit(#[trigger] s[k]),
        digit_run_end(s, i) < s.len() ==> !is_digit(s[digit_run_end(s, i)]),
    decreases s.len() - i,
{
    if i < s.len() && is_digit(s[i]) {
        lemma_digit_run_end(s, i + 1);
    }
}

/// A span of digits closed off by the string's end or a non-digit is
/// exactly what the scan finds.
pub proof fn lemma_digit_run_end_is(s: Seq<char>, i: int, e: int)
    requires
        0 <= i <= e <= s.len(),
        forall|k: int| i <= k < e ==> is_digit(#[trigger] s[k]),
        e == s.len() || !is_digit(s[e]),
    ensures
        digit_run_end(s, i) == e,
    decreases e - i,
{
    if i < e {
        lemma_digit_run_end_is(s, i + 1, e);
    }
}

/// Scans forward from `i` to the end of the digit run starting there.
pub fn find_digit_run_end(s: &str, i: usize) -> (e: usize)
    requires
        i <= s@.len(),
    ensures
        e == digit_run_end(s@, i as int),
        i <= e <= s@.len(),
{
    let n = s.unicode_len();
    let mut e = i;
    while e < n
        invariant
            i <= e <= n,
            n == s@.len(),
            forall|k: int| i <= k < e ==> is_digit(#[trigger] s@[k]),
        ensures
            i <= e <= n,
            forall|k: int| i <= k < e ==> is_digit(#[trigger] s@[k]),
            e == n || !is_digit(s@[e as int]),
        decreases n - e,
    {
        let c = s.get_char(e);
        let v = c as u32;
        if 48 <= v && v <= 57 {
            e += 1;
        } else {
            break ;
        }
    }
    proof {
        lemma_digit_run_end_is(s@, i as int, e as int);
    }
    e
}

/// Reads the digit run `s[b..e]` as a number. A value that would pass `cap`
/// is clamped to just above it, so overflow is reported without wrapping.
pub fn scan_number(s: &str, b: usize, e: usize, cap: u64) -> (r: u64)
    requires
        b <= e <= s@.len(),
        forall|k: int| b <= k < e ==> is_digit(#[trigger] s@[k]),
        cap <= 0xFFFF_FFFF_FFFF_FF00u64,
    ensures
        digits_val(s@.subrange(b as int, e as int)) <= cap ==> r == digits_val(
            s@.subrange(b as int, e as int),
        ),
        digits_val(s@.subrange(b as int, e as int)) > cap ==> r > cap,
{
    let mut acc: u64 = 0;
    let mut k = b;
    while k < e
        invariant
            b <= k <= e <= s@.len(),
            forall|t: int| b <= t < e ==> is_digit(#[trigger] s@[t]),
            cap <= 0xFFFF_FFFF_FFFF_FF00u64,
            digits_val(s@.subrange(b as int, k as int)) <= cap ==> acc == digits_val(
                s@.subrange(b as int, k as int),
            ),
            digits_val(s@.subrange(b as int, k as int)) > cap ==> acc == cap + 1,
        decreases e - k,
    {
        let ghost pre = s@.subrange(b as int, k as int);
        let ghost post = s@.subrange(b as int, k as int + 1);
        proof {
            assert(post.drop_last() =~= pre);
            assert(post.last() == s@[k as int]);
            assert(forall|t: int| 0 <= t < pre.len() ==> is_digit(#[trigger] pre[t]));
            lemma_digits_val_nonneg(pre);
        }
        let c = s.get_char(k);
        let d = c as u32 as u64 - 48;
        proof {
            assert(is_digit(s@[k as int]));
            assert(d == digit_val(s@[k as int]));
            assert(d <= 9);
        }
        if acc <= cap / 10 {
            proof {
                assert((cap / 10) * 10 + 9 <= cap + 9) by (nonlinear_arith);
            }
            acc = acc * 10 + d;
            if acc > cap {
                acc = cap + 1;
            }
        } else {
            proof {
                let dv = digits_val(pre);
                assert(dv > cap / 10);
                assert(dv * 10 + d > (cap / 10) * 10 + 9 >= cap) by (nonlinear_arith)
                    requires
                        dv > cap / 10,
                        d >= 0,
                        cap >= 0,
                ;
            }
            acc = cap + 1;
        }
        k += 1;
    }
    acc
}

/// Reads the digit run `s[b..e]` as a `u32`, or reports that the value does
/// not fit an unsigned 32-bit range.
pub fn scan_u32(s: &str, b: usize, e: usize) -> (r: Option<u32>)
    requires
        b <= e <= s@.len(),
        forall|k: int| b <= k < e ==> is_digit(#[trigger] s@[k]),
    ensures
        match r {
            Some(v) => v as int == digits_val(s@.subrange(b as int, e as int)),
            None => digits_val(s@.subrange(b as int, e as int)) > u32::MAX,
        },
{
    let acc = scan_number(s, b, e, 0xFFFF_FFFFu64);
    proof {
        lemma_digits_val_nonneg(s@.subrange(b as int, e as int));
    }
    if acc <= 0xFFFF_FFFFu64 {
        Some(acc as u32)
    } else {
        None
    }
}

/// Appends the digit character for a value below ten.
fn push_digit(out: &mut String, d: u64)
    requires
        d < 10,
    ensures
        final(out)@ == old(out)@.push(digit_char(d as int)),
{
    let c = if d == 0 {
        '0'
    } else if d == 1 {
        '1'
    } else if d == 2 {
        '2'
    } else if d == 3 {
        '3'
    } else if d == 4 {
        '4'
    } else if d == 5 {
        '5'
    } else if d == 6 {
        '6'
    } else if d == 7 {
        '7'
    } else if d == 8 {
        '8'
    } else {
        '9'
    };
    out.push(c);
}

/// Appends the decimal notation of `n`.
pub fn append_dec(out: &mut String, n: u64)
    ensures
        final(out)@ == old(out)@ + dec_str(n as nat),
    decreases n,
{
    if n >= 10 {
        append_dec(out, n / 10);
    }
    push_digit(out, n % 10);
    proof {
        if n < 10 {
            assert(old(out)@.push(digit_char((n % 10) as int)) =~= old(out)@ + dec_str(n as nat));
        } else {
            assert((old(out)@ + dec_str((n / 10) as nat)).push(digit_char((n % 10) as int)) =~= old(
                out,
            )@ + dec_str(n as nat));
        }
    }
}

} // verus!
