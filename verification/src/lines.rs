//! Line parsing: reading each input line as a signed 64-bit integer, with
//! the same error distinctions and messages the solvers print.

use vstd::prelude::*;

use vstd::string::StringExecFns;

use crate::digits::digit_run_end;
use crate::digits::digits_val;
use crate::digits::find_digit_run_end;
use crate::digits::is_digit;
use crate::digits::lemma_digit_run_end;
use crate::digits::lemma_digit_run_end_is;
use crate::digits::lemma_digits_val_nonneg;
use crate::digits::scan_number;

verus! {

/// Why a line failed to parse as a signed integer.
#[derive(Debug, PartialEq, Eq)]
pub enum ParseIntError {
    /// The line was empty.
    Empty,
    /// A character other than a digit of the number was found.
    InvalidDigit,
    /// The number is too large for a signed 64-bit value.
    PosOverflow,
    /// The number is too small for a signed 64-bit value.
    NegOverflow,
}

impl ParseIntError {
    /// The human-readable description the solvers print.
    pub fn message(&self) -> (m: String)
        ensures
            match self {
                ParseIntError::Empty => m@ == "cannot parse integer from empty string"@,
                ParseIntError::InvalidDigit => m@ == "invalid digit found in string"@,
                ParseIntError::PosOverflow => m@ == "number too large to fit in target type"@,
                ParseIntError::NegOverflow => m@ == "number too small to fit in target type"@,
            },
    {
        match self {
            ParseIntError::Empty => {
                let mut m = String::new();
                m.append("cannot parse integer from empty string");
                proof {
                    assert(m@ =~= "cannot parse integer from empty string"@);
                }
                m
            },
            ParseIntError::InvalidDigit => {
                let mut m = String::new();
                m.append("invalid digit found in string");
                proof {
                    assert(m@ =~= "invalid digit found in string"@);
                }
                m
            },
            ParseIntError::PosOverflow => {
                let mut m = String::new();
                m.append("number too large to fit in target type");
                proof {
                    assert(m@ =~= "number too large to fit in target type"@);
                }
                m
            },
            ParseIntError::NegOverflow => {
                let mut m = String::new();
                m.append("number too small to fit in target type");
                proof {
                    assert(m@ =~= "number too small to fit in target type"@);
                }
                m
            },
        }
    }
}

/// The digits of a signed integer: what follows one optional leading sign.
pub open spec fn int_body(s: Seq<char>) -> Seq<char> {
    if s.len() > 0 && (s[0] == '+' || s[0] == '-') {
        s.subrange(1, s.len() as int)
    } else {
        s
    }
}

/// The sign a leading `-` gives the value.
pub open spec fn int_sign(s: Seq<char>) -> int {
    if s.len() > 0 && s[0] == '-' {
        -1
    } else {
        1
    }
}

/// The leading digit run of the body: the digits a left-to-right scan
/// accumulates before the end or the first character that is not a digit.
pub open spec fn int_digits(s: Seq<char>) -> Seq<char> {
    int_body(s).subrange(0, digit_run_end(int_body(s), 0))
}

/// What parsing a line as a signed 64-bit integer yields: its value, or the
/// first error the left-to-right scan meets. Digits accumulate until the end
/// or a non-digit; when the accumulated magnitude has already left the
/// 64-bit range by then, the overflow is the error, ahead of any invalid
/// character that follows it.
pub open spec fn spec_parse_i64(s: Seq<char>) -> Result<int, ParseIntError> {
    let body = int_body(s);
    let mag = digits_val(int_digits(s));
    if s.len() == 0 {
        Err(ParseIntError::Empty)
    } else if body.len() == 0 {
        Err(ParseIntError::InvalidDigit)
    } else if int_sign(s) == 1 && mag > i64::MAX {
        Err(ParseIntError::PosOverflow)
    } else if int_sign(s) == -1 && mag > 0x8000_0000_0000_0000 {
        Err(ParseIntError::NegOverflow)
    } else if digit_run_end(body, 0) < body.len() {
        Err(ParseIntError::InvalidDigit)
    } else {
        Ok(int_sign(s) * mag)
    }
}

/// Parses one line as a signed 64-bit integer.
pub fn parse_i64(s: &str) -> (r: Result<i64, ParseIntError>)
    ensures
        match r {
            Ok(v) => spec_parse_i64(s@) == Ok::<int, ParseIntError>(v as int),
            Err(e) => spec_parse_i64(s@) == Err::<int, ParseIntError>(e),
        },
{
    let n = s.unicode_len();
    if n == 0 {
        return Err(ParseIntError::Empty);
    }
    let c0 = s.get_char(0);
    let (b, neg): (usize, bool) = if c0 == '+' {
        (1, false)
    } else if c0 == '-' {
        (1, true)
    } else {
        (0, false)
    };
    let ghost body = int_body(s@);
    proof {
        if b == 0 {
            assert(body =~= s@);
        } else {
            assert(body =~= s@.subrange(1, n as int));
        }
    }
    if b == n {
        // a sign with nothing after it
        return Err(ParseIntError::InvalidDigit);
    }
    let e = find_digit_run_end(s, b);
    proof {
        lemma_digit_run_end(s@, b as int);
        assert forall|t: int| 0 <= t < e - b implies is_digit(#[trigger] body[t]) by {
            assert(body[t] == s@[t + b]);
        }
        if e < n {
            assert(body[e - b] == s@[e as int]);
        }
        lemma_digit_run_end_is(body, 0, e - b);
        assert(int_digits(s@) =~= s@.subrange(b as int, e as int));
        lemma_digits_val_nonneg(int_digits(s@));
    }
    let m = scan_number(s, b, e, 0x8000_0000_0000_0000u64);
    let ghost mag = digits_val(int_digits(s@));
    if neg {
        proof {
            assert(int_sign(s@) == -1);
            assert(-1 * mag == -mag);
        }
        if m > 0x8000_0000_0000_0000u64 {
            proof {
                assert(mag > 0x8000_0000_0000_0000);
            }
            Err(ParseIntError::NegOverflow)
        } else if e != n {
            proof {
                assert(mag <= 0x8000_0000_0000_0000);
                assert(digit_run_end(body, 0) < body.len());
            }
            Err(ParseIntError::InvalidDigit)
        } else if m == 0x8000_0000_0000_0000u64 {
            Ok(i64::MIN)
        } else {
            Ok(-(m as i64))
        }
    } else {
        proof {
            assert(int_sign(s@) == 1);
            assert(1 * mag == mag);
        }
        if m > 0x7FFF_FFFF_FFFF_FFFFu64 {
            proof {
                assert(mag > i64::MAX);
            }
            Err(ParseIntError::PosOverflow)
        } else if e != n {
            proof {
                assert(digit_run_end(body, 0) < body.len());
            }
            Err(ParseIntError::InvalidDigit)
        } else {
            Ok(m as i64)
        }
    }
}

/// Parses every line as a signed 64-bit integer, stopping at the first line
/// that fails and reporting its error.
pub fn parse_lines(lines: &[&str]) -> (r: Result<Vec<i64>, ParseIntError>)
    ensures
        match r {
            Ok(vs) => {
                &&& vs@.len() == lines@.len()
                &&& forall|i: int|
                    0 <= i < lines@.len() ==> spec_parse_i64(#[trigger] lines@[i]@) == Ok::<
                        int,
                        ParseIntError,
                    >(vs@[i] as int)
            },
            Err(e) => exists|i: int|
                0 <= i < lines@.len() && spec_parse_i64(#[trigger] lines@[i]@) == Err::<
                    int,
                    ParseIntError,
                >(e) && (forall|j: int| 0 <= j < i ==> spec_parse_i64(#[trigger] lines@[j]@) is Ok),
        },
{
    let n = lines.len();
    let mut parsed: Vec<i64> = Vec::new();
    let mut i: usize = 0;
    while i < n
        invariant
            n == lines@.len(),
            i <= n,
            parsed@.len() == i,
            forall|j: int|
                0 <= j < i ==> spec_parse_i64(#[trigger] lines@[j]@) == Ok::<int, ParseIntError>(
                    parsed@[j] as int,
                ),
        decreases n - i,
    {
        match parse_i64(lines[i]) {
            Ok(v) => {
                parsed.push(v);
            },
            Err(e) => {
                return Err(e);
            },
        }
        i += 1;
    }
    Ok(parsed)
}

} // verus!
