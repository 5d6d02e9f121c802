//! Wrapping paper and ribbon needed for presents given as `LxWxH` dimension
//! lines.

use vstd::prelude::*;

use crate::util::{all_digits, num_val, parse_decimal, split_bounds, split_char};

verus! {

/// Smallest of three values.
pub open spec fn min3(a: int, b: int, c: int) -> int {
    if a <= b && a <= c {
        a
    } else if b <= c {
        b
    } else {
        c
    }
}

/// Largest of three values.
pub open spec fn max3(a: int, b: int, c: int) -> int {
    if a >= b && a >= c {
        a
    } else if b >= c {
        b
    } else {
        c
    }
}

/// Paper needed: the surface area of the box plus the area of its smallest
/// side.
pub open spec fn paper_spec(l: int, w: int, h: int) -> int {
    2 * (l * w + w * h + h * l) + min3(l * w, w * h, h * l)
}

/// Ribbon needed: the smallest face perimeter plus the volume for the bow.
pub open spec fn ribbon_spec(l: int, w: int, h: int) -> int {
    2 * (l + w + h - max3(l, w, h)) + l * w * h
}

/// The dimensions a `LxWxH` line stands for, before any size check: three
/// `x`-separated decimal numbers.
pub open spec fn dimensions_of(s: Seq<char>) -> Option<(int, int, int)> {
    let toks = split_char(s, 'x');
    if toks.len() == 3 && toks[0].len() > 0 && all_digits(toks[0]) && toks[1].len() > 0
        && all_digits(toks[1]) && toks[2].len() > 0 && all_digits(toks[2]) {
        Some((num_val(toks[0]), num_val(toks[1]), num_val(toks[2])))
    } else {
        None
    }
}

/// Dimensions of a present in feet.
pub struct Present {
    pub length: u32,
    pub width: u32,
    pub height: u32,
}

impl Present {
    /// Square feet of wrapping paper needed for this present.
    pub fn wrapping_paper_needed(&self) -> (r: u32)
        requires
            paper_spec(self.length as int, self.width as int, self.height as int) <= u32::MAX,
        ensures
            r == paper_spec(self.length as int, self.width as int, self.height as int),
    {
        proof {
            assert(self.length * self.width >= 0) by (nonlinear_arith);
            assert(self.width * self.height >= 0) by (nonlinear_arith);
            assert(self.height * self.length >= 0) by (nonlinear_arith);
        }
        let area_1 = self.length as u64 * self.width as u64;
        let area_2 = self.width as u64 * self.height as u64;
        let area_3 = self.height as u64 * self.length as u64;
        let min_area = if area_1 <= area_2 && area_1 <= area_3 {
            area_1
        } else if area_2 <= area_3 {
            area_2
        } else {
            area_3
        };
        (2 * (area_1 + area_2 + area_3) + min_area) as u32
    }

    /// Feet of ribbon needed for this present: the smallest perimeter around
    /// it, plus its volume for the bow.
    pub fn ribbon_needed(&self) -> (r: u32)
        requires
            ribbon_spec(self.length as int, self.width as int, self.height as int) <= u32::MAX,
            self.length * self.width * self.height <= u32::MAX,
        ensures
            r == ribbon_spec(self.length as int, self.width as int, self.height as int),
    {
        proof {
            assert(self.length * self.width >= 0) by (nonlinear_arith);
            assert(self.length * self.width * self.height >= 0) by (nonlinear_arith);
            assert(self.length as u64 * self.width as u64 <= 0xffff_fffe_0000_0001u64)
                by (nonlinear_arith)
                requires
                    self.length <= u32::MAX,
                    self.width <= u32::MAX,
            ;
        }
        let needed_for_bow = self.length as u64 * self.width as u64 * self.height as u64;
        let max = if self.length >= self.width && self.length >= self.height {
            self.length
        } else if self.width >= self.height {
            self.width
        } else {
            self.height
        };
        let smallest_perimeter = 2 * (self.length as u64 + self.width as u64 + self.height as u64
            - max as u64);
        (smallest_perimeter + needed_for_bow) as u32
    }

    /// Parses a `LxWxH` line. `Ok` exactly when the line is three
    /// `x`-separated decimal numbers; a dimension too large for 32 bits is
    /// ruled out by the precondition, as the original sizes always fit.
    pub fn from_str(s: &str) -> (r: Result<Present, ParsePresentError>)
        requires
            dimensions_of(s@) matches Some((l, w, h)) ==> l <= u32::MAX && w <= u32::MAX && h
                <= u32::MAX,
        ensures
            match r {
                Ok(p) => dimensions_of(s@) == Some(
                    (p.length as int, p.width as int, p.height as int),
                ),
                Err(_) => dimensions_of(s@) is None,
            },
    {
        let bounds = split_bounds(s, 'x');
        if bounds.len() != 3 {
            return Err(ParsePresentError {  });
        }
        let t0 = s.substring_char(bounds[0].0, bounds[0].1);
        let t1 = s.substring_char(bounds[1].0, bounds[1].1);
        let t2 = s.substring_char(bounds[2].0, bounds[2].1);
        let l = match parse_decimal(t0) {
            Some(v) => v,
            None => {
                return Err(ParsePresentError {  });
            },
        };
        let w = match parse_decimal(t1) {
            Some(v) => v,
            None => {
                return Err(ParsePresentError {  });
            },
        };
        let h = match parse_decimal(t2) {
            Some(v) => v,
            None => {
                return Err(ParsePresentError {  });
            },
        };
        proof {
            if l > u32::MAX || w > u32::MAX || h > u32::MAX {
                assert(false);
            }
        }
        Ok(Present { length: l as u32, width: w as u32, height: h as u32 })
    }
}

/// Error returned when a line is not a well-formed `LxWxH` triple.
#[derive(Clone, Copy, Debug, PartialEq, Eq, Structural)]
pub struct ParsePresentError {}

} // verus!
