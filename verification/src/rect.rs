//! A rectangle claim: an axis-aligned rectangle with an integer id, a
//! bottom-left corner, and unsigned extents, read from and written back to
//! its textual record form `#<id> @ <x>,<y>: <width>x<height>`.

use vstd::prelude::*;

use vstd::string::StringExecFns;

use crate::digits::append_dec;
use crate::digits::dec_str;
use crate::digits::digit_run_end;
use crate::digits::digits_val;
use crate::digits::find_digit_run_end;
use crate::digits::is_digit;
use crate::digits::lemma_dec_str_val;
use crate::digits::lemma_digit_run_end;
use crate::digits::lemma_digit_run_end_is;
use crate::digits::scan_u32;

verus! {

/// One claim: rectangle `id` has its bottom-left corner at `(x, y)` and
/// stretches `width` cells to the right and `height` cells up.
#[derive(Clone, Copy, Debug, PartialEq, Eq, Structural)]
pub struct Rect {
    pub id: u32,
    pub x: u32,
    pub y: u32,
    pub width: u32,
    pub height: u32,
}

impl Rect {
    /// A rectangle with no extent covers no cells at all.
    pub open spec fn spec_is_empty(self) -> bool {
        self.width == 0 || self.height == 0
    }

    /// The inclusive top-right corner; an extent of zero collapses that
    /// coordinate back onto the corner itself.
    pub open spec fn spec_top_right(self) -> (int, int) {
        (
            if self.width == 0 {
                self.x as int
            } else {
                self.x + self.width - 1
            },
            if self.height == 0 {
                self.y as int
            } else {
                self.y + self.height - 1
            },
        )
    }

    /// The corner coordinates stay inside `u32` when the far edge does.
    pub open spec fn coords_fit(self) -> bool {
        &&& self.x + self.width - 1 <= u32::MAX
        &&& self.y + self.height - 1 <= u32::MAX
    }

    /// True exactly when the rectangle covers the unit cell at `(px, py)`.
    pub open spec fn covers(self, px: int, py: int) -> bool {
        &&& !self.spec_is_empty()
        &&& self.x <= px < self.x + self.width
        &&& self.y <= py < self.y + self.height
    }

    pub fn is_empty(&self) -> (r: bool)
        ensures
            r == self.spec_is_empty(),
    {
        self.width == 0 || self.height == 0
    }

    pub fn top_right(&self) -> (r: (u32, u32))
        requires
            self.coords_fit(),
        ensures
            (r.0 as int, r.1 as int) == self.spec_top_right(),
    {
        let top_x = if self.width == 0 {
            self.x
        } else {
            self.x + (self.width - 1)
        };
        let top_y = if self.height == 0 {
            self.y
        } else {
            self.y + (self.height - 1)
        };
        (top_x, top_y)
    }

    /// Every unit cell the rectangle covers, in row-major order: the row
    /// `y` first, each row from `x` rightward. Empty rectangles cover no
    /// cells at all.
    pub fn iter_coords(&self) -> (coords: Vec<(u32, u32)>)
        requires
            self.coords_fit(),
            self.width * self.height <= usize::MAX,
        ensures
            coords@.len() == if self.spec_is_empty() {
                0int
            } else {
                self.width * self.height
            },
            forall|k: int|
                0 <= k < coords@.len() ==> (#[trigger] coords@[k]).0 == self.x + k % (
                self.width as int) && coords@[k].1 == self.y + k / (self.width as int),
    {
        let mut coords: Vec<(u32, u32)> = Vec::new();
        if self.is_empty() {
            return coords;
        }
        let (tx, ty) = self.top_right();
        let ghost w = self.width as int;
        let mut iy: u64 = self.y as u64;
        while iy <= ty as u64
            invariant
                !self.spec_is_empty(),
                self.coords_fit(),
                self.width * self.height <= usize::MAX,
                (tx as int, ty as int) == self.spec_top_right(),
                self.y <= iy <= ty as u64 + 1,
                w == self.width as int,
                coords@.len() == (iy - self.y) * w,
                forall|k: int|
                    0 <= k < coords@.len() ==> (#[trigger] coords@[k]).0 == self.x + k % w
                        && coords@[k].1 == self.y + k / w,
            decreases ty as int + 1 - iy,
        {
            let mut ix: u64 = self.x as u64;
            while ix <= tx as u64
                invariant
                    !self.spec_is_empty(),
                    self.coords_fit(),
                    self.width * self.height <= usize::MAX,
                    (tx as int, ty as int) == self.spec_top_right(),
                    self.y <= iy <= ty as u64,
                    self.x <= ix <= tx as u64 + 1,
                    w == self.width as int,
                    coords@.len() == (iy - self.y) * w + (ix - self.x),
                    forall|k: int|
                        0 <= k < coords@.len() ==> (#[trigger] coords@[k]).0 == self.x + k % w
                            && coords@[k].1 == self.y + k / w,
                decreases tx as int + 1 - ix,
            {
                proof {
                    let q = iy - self.y;
                    let rem = ix - self.x;
                    assert(0 <= q && 0 <= rem < w);
                    assert(q * w + rem < (q + 1) * w) by (nonlinear_arith)
                        requires
                            rem < w,
                            0 <= q,
                    ;
                    assert((q + 1) * w <= (self.height as int) * w) by (nonlinear_arith)
                        requires
                            q + 1 <= self.height as int,
                            0 <= w,
                    ;
                    vstd::arithmetic::div_mod::lemma_fundamental_div_mod_converse(
                        q * w + rem,
                        w,
                        q,
                        rem,
                    );
                }
                coords.push((ix as u32, iy as u32));
                ix += 1;
            }
            proof {
                assert((iy - self.y) * w + w == (iy + 1 - self.y) * w) by (nonlinear_arith);
            }
            iy += 1;
        }
        proof {
            assert(iy == ty as u64 + 1);
            assert(iy - self.y == self.height as int);
            assert((iy - self.y) * w == (self.height as int) * w);
            assert((self.height as int) * w == (self.width as int) * (self.height as int))
                by (nonlinear_arith)
                requires
                    w == self.width as int,
            ;
        }
        coords
    }
}

/// Why a claim record failed to parse.
#[derive(Debug, PartialEq, Eq)]
pub enum ParseRectError {
    /// The text does not match the claim grammar.
    MalformedRecord(String),
    /// The text matches the grammar, but a numeric field exceeds the
    /// unsigned 32-bit range.
    IntegerOverflow,
}

impl ParseRectError {
    /// The human-readable description the solvers print.
    pub fn message(&self) -> (m: String)
        ensures
            match self {
                ParseRectError::MalformedRecord(t) => m@ == "Error parsing Rect from string: '"@
                    + t@ + "'"@,
                ParseRectError::IntegerOverflow => m@ == "Error parsing Rect: integer overflow"@,
            },
    {
        match self {
            ParseRectError::MalformedRecord(t) => {
                let mut m = String::new();
                m.append("Error parsing Rect from string: '");
                m.append(t.as_str());
                m.append("'");
                proof {
                    assert(m@ =~= "Error parsing Rect from string: '"@ + t@ + "'"@);
                }
                m
            },
            ParseRectError::IntegerOverflow => {
                let mut m = String::new();
                m.append("Error parsing Rect: integer overflow");
                proof {
                    assert(m@ =~= "Error parsing Rect: integer overflow"@);
                }
                m
            },
        }
    }
}

/// The claim-record grammar, anchored at both ends: `#`, then the id
/// digits, then ` @ `, the x digits, `,`, the y digits, `: `, the width
/// digits, `x`, and the height digits reaching the very end. Every digit
/// run is nonempty.
pub open spec fn record_shape(s: Seq<char>) -> bool {
    let e1 = digit_run_end(s, 1);
    let e2 = digit_run_end(s, e1 + 3);
    let e3 = digit_run_end(s, e2 + 1);
    let e4 = digit_run_end(s, e3 + 2);
    let e5 = digit_run_end(s, e4 + 1);
    &&& 1 <= s.len()
    &&& s[0] == '#'
    &&& 1 < e1
    &&& e1 + 3 <= s.len()
    &&& s[e1] == ' '
    &&& s[e1 + 1] == '@'
    &&& s[e1 + 2] == ' '
    &&& e1 + 3 < e2
    &&& e2 < s.len()
    &&& s[e2] == ','
    &&& e2 + 1 < e3
    &&& e3 + 2 <= s.len()
    &&& s[e3] == ':'
    &&& s[e3 + 1] == ' '
    &&& e3 + 2 < e4
    &&& e4 < s.len()
    &&& s[e4] == 'x'
    &&& e4 + 1 < e5
    &&& e5 == s.len()
}

/// The five numeric fields of a record, read off its digit runs:
/// id, x, y, width, height.
pub open spec fn record_fields(s: Seq<char>) -> (int, int, int, int, int) {
    let e1 = digit_run_end(s, 1);
    let e2 = digit_run_end(s, e1 + 3);
    let e3 = digit_run_end(s, e2 + 1);
    let e4 = digit_run_end(s, e3 + 2);
    let e5 = digit_run_end(s, e4 + 1);
    (
        digits_val(s.subrange(1, e1)),
        digits_val(s.subrange(e1 + 3, e2)),
        digits_val(s.subrange(e2 + 1, e3)),
        digits_val(s.subrange(e3 + 2, e4)),
        digits_val(s.subrange(e4 + 1, e5)),
    )
}

/// Every numeric field of the record fits an unsigned 32-bit value.
pub open spec fn record_fits(s: Seq<char>) -> bool {
    let f = record_fields(s);
    &&& f.0 <= u32::MAX
    &&& f.1 <= u32::MAX
    &&& f.2 <= u32::MAX
    &&& f.3 <= u32::MAX
    &&& f.4 <= u32::MAX
}

/// The claim record text of a rectangle.
pub open spec fn spec_display(r: Rect) -> Seq<char> {
    seq!['#'] + dec_str(r.id as nat) + seq![' ', '@', ' '] + dec_str(r.x as nat) + seq![',']
        + dec_str(r.y as nat) + seq![':', ' '] + dec_str(r.width as nat) + seq!['x'] + dec_str(
        r.height as nat,
    )
}

impl Rect {
    /// Parses a claim record. Text that does not match the grammar is a
    /// `MalformedRecord`; text that matches it with a field beyond the
    /// unsigned 32-bit range is an `IntegerOverflow`.
    pub fn parse(s: &str) -> (r: Result<Rect, ParseRectError>)
        ensures
            match r {
                Ok(rect) => {
                    &&& record_shape(s@)
                    &&& record_fits(s@)
                    &&& rect.id as int == record_fields(s@).0
                    &&& rect.x as int == record_fields(s@).1
                    &&& rect.y as int == record_fields(s@).2
                    &&& rect.width as int == record_fields(s@).3
                    &&& rect.height as int == record_fields(s@).4
                },
                Err(ParseRectError::MalformedRecord(t)) => !record_shape(s@) && t@ == s@,
                Err(ParseRectError::IntegerOverflow) => record_shape(s@) && !record_fits(s@),
            },
    {
        let n = s.unicode_len();
        if n < 1 || s.get_char(0) != '#' {
            return Err(ParseRectError::MalformedRecord(s.to_owned()));
        }
        let e1 = find_digit_run_end(s, 1);
        if e1 <= 1 || n - e1 < 3 {
            return Err(ParseRectError::MalformedRecord(s.to_owned()));
        }
        if s.get_char(e1) != ' ' || s.get_char(e1 + 1) != '@' || s.get_char(e1 + 2) != ' ' {
            return Err(ParseRectError::MalformedRecord(s.to_owned()));
        }
        let b2 = e1 + 3;
        let e2 = find_digit_run_end(s, b2);
        if e2 <= b2 || e2 >= n {
            return Err(ParseRectError::MalformedRecord(s.to_owned()));
        }
        if s.get_char(e2) != ',' {
            return Err(ParseRectError::MalformedRecord(s.to_owned()));
        }
        let b3 = e2 + 1;
        let e3 = find_digit_run_end(s, b3);
        if e3 <= b3 || n - e3 < 2 {
            return Err(ParseRectError::MalformedRecord(s.to_owned()));
        }
        if s.get_char(e3) != ':' || s.get_char(e3 + 1) != ' ' {
            return Err(ParseRectError::MalformedRecord(s.to_owned()));
        }
        let b4 = e3 + 2;
        let e4 = find_digit_run_end(s, b4);
        if e4 <= b4 || e4 >= n {
            return Err(ParseRectError::MalformedRecord(s.to_owned()));
        }
        if s.get_char(e4) != 'x' {
            return Err(ParseRectError::MalformedRecord(s.to_owned()));
        }
        let b5 = e4 + 1;
        let e5 = find_digit_run_end(s, b5);
        if e5 <= b5 || e5 != n {
            return Err(ParseRectError::MalformedRecord(s.to_owned()));
        }
        proof {
            assert(record_shape(s@));
            lemma_digit_run_end(s@, 1);
            lemma_digit_run_end(s@, b2 as int);
            lemma_digit_run_end(s@, b3 as int);
            lemma_digit_run_end(s@, b4 as int);
            lemma_digit_run_end(s@, b5 as int);
        }
        let id = scan_u32(s, 1, e1);
        let x = scan_u32(s, b2, e2);
        let y = scan_u32(s, b3, e3);
        let width = scan_u32(s, b4, e4);
        let height = scan_u32(s, b5, e5);
        match (id, x, y, width, height) {
            (Some(id), Some(x), Some(y), Some(width), Some(height)) => Ok(
                Rect { id, x, y, width, height },
            ),
            _ => Err(ParseRectError::IntegerOverflow),
        }
    }

    /// Writes the rectangle's claim record, the exact text [`Rect::parse`]
    /// reads back.
    pub fn display(&self) -> (out: String)
        ensures
            out@ == spec_display(*self),
    {
        let mut out = String::new();
        out.push('#');
        append_dec(&mut out, self.id as u64);
        out.push(' ');
        out.push('@');
        out.push(' ');
        append_dec(&mut out, self.x as u64);
        out.push(',');
        append_dec(&mut out, self.y as u64);
        out.push(':');
        out.push(' ');
        append_dec(&mut out, self.width as u64);
        out.push('x');
        append_dec(&mut out, self.height as u64);
        proof {
            assert(out@ =~= spec_display(*self));
        }
        out
    }
}

impl core::str::FromStr for Rect {
    type Err = ParseRectError;

    fn from_str(s: &str) -> Result<Rect, ParseRectError> {
        Rect::parse(s)
    }
}

/// Law: a rectangle's claim record parses back to the very same rectangle.
/// The record is well shaped, every field fits, and the fields read off the
/// record are the rectangle's own, so `Rect::parse` of `Rect::display`
/// returns the rectangle unchanged.
pub proof fn lemma_display_round_trip(r: Rect)
    ensures
        record_shape(spec_display(r)),
        record_fits(spec_display(r)),
        record_fields(spec_display(r)) == (
            r.id as int,
            r.x as int,
            r.y as int,
            r.width as int,
            r.height as int,
        ),
{
    let s = spec_display(r);
    let d1 = dec_str(r.id as nat);
    let d2 = dec_str(r.x as nat);
    let d3 = dec_str(r.y as nat);
    let d4 = dec_str(r.width as nat);
    let d5 = dec_str(r.height as nat);
    lemma_dec_str_val(r.id as nat);
    lemma_dec_str_val(r.x as nat);
    lemma_dec_str_val(r.y as nat);
    lemma_dec_str_val(r.width as nat);
    lemma_dec_str_val(r.height as nat);
    let n1 = d1.len() as int;
    let n2 = d2.len() as int;
    let n3 = d3.len() as int;
    let n4 = d4.len() as int;
    let n5 = d5.len() as int;
    let e1 = 1 + n1;
    let b2 = e1 + 3;
    let e2 = b2 + n2;
    let b3 = e2 + 1;
    let e3 = b3 + n3;
    let b4 = e3 + 2;
    let e4 = b4 + n4;
    let b5 = e4 + 1;
    let e5 = b5 + n5;
    assert(s.len() == e5);
    assert(s.subrange(1, e1) =~= d1);
    assert(s.subrange(b2, e2) =~= d2);
    assert(s.subrange(b3, e3) =~= d3);
    assert(s.subrange(b4, e4) =~= d4);
    assert(s.subrange(b5, e5) =~= d5);
    assert(s[0] == '#');
    assert(s[e1] == ' ');
    assert(s[e1 + 1] == '@');
    assert(s[e1 + 2] == ' ');
    assert(s[e2] == ',');
    assert(s[e3] == ':');
    assert(s[e3 + 1] == ' ');
    assert(s[e4] == 'x');
    assert forall|k: int| 1 <= k < e1 implies is_digit(#[trigger] s[k]) by {
        assert(s[k] == d1[k - 1]);
    }
    assert forall|k: int| b2 <= k < e2 implies is_digit(#[trigger] s[k]) by {
        assert(s[k] == d2[k - b2]);
    }
    assert forall|k: int| b3 <= k < e3 implies is_digit(#[trigger] s[k]) by {
        assert(s[k] == d3[k - b3]);
    }
    assert forall|k: int| b4 <= k < e4 implies is_digit(#[trigger] s[k]) by {
        assert(s[k] == d4[k - b4]);
    }
    assert forall|k: int| b5 <= k < e5 implies is_digit(#[trigger] s[k]) by {
        assert(s[k] == d5[k - b5]);
    }
    lemma_digit_run_end_is(s, 1, e1);
    lemma_digit_run_end_is(s, b2, e2);
    lemma_digit_run_end_is(s, b3, e3);
    lemma_digit_run_end_is(s, b4, e4);
    lemma_digit_run_end_is(s, b5, e5);
}

} // verus!
