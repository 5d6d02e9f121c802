//! Parsing cookie ingredients: each line lists an ingredient's five signed
//! properties.

use vstd::prelude::*;

use crate::util::{all_digits, is_word, is_word_str, num_val, parse_decimal, split_bounds, split_char, str_eq};

verus! {

/// The signed integer a token stands for: an optional leading minus sign
/// followed by decimal digits.
pub open spec fn signed_of(t: Seq<char>) -> Option<int> {
    if t.len() > 0 && t[0] == '-' {
        if t.len() > 1 && all_digits(t.skip(1)) {
            Some(-num_val(t.skip(1)))
        } else {
            None
        }
    } else if t.len() > 0 && all_digits(t) {
        Some(num_val(t))
    } else {
        None
    }
}

/// A signed integer token with a trailing comma.
pub open spec fn signed_comma_of(t: Seq<char>) -> Option<int> {
    if t.len() > 0 && t.last() == ',' {
        signed_of(t.drop_last())
    } else {
        None
    }
}

/// A name token with a trailing colon.
pub open spec fn name_colon_of(t: Seq<char>) -> Option<Seq<char>> {
    if t.len() > 0 && t.last() == ':' && is_word(t.drop_last()) {
        Some(t.drop_last())
    } else {
        None
    }
}

pub open spec fn capacity_word() -> Seq<char> {
    seq!['c', 'a', 'p', 'a', 'c', 'i', 't', 'y']
}

pub open spec fn durability_word() -> Seq<char> {
    seq!['d', 'u', 'r', 'a', 'b', 'i', 'l', 'i', 't', 'y']
}

pub open spec fn flavor_word() -> Seq<char> {
    seq!['f', 'l', 'a', 'v', 'o', 'r']
}

pub open spec fn texture_word() -> Seq<char> {
    seq!['t', 'e', 'x', 't', 'u', 'r', 'e']
}

pub open spec fn calories_word() -> Seq<char> {
    seq!['c', 'a', 'l', 'o', 'r', 'i', 'e', 's']
}

/// The ingredient a line stands for, before any size check:
/// `<name>: capacity C, durability D, flavor F, texture T, calories K` with
/// signed decimal properties.
pub open spec fn ingredient_of(s: Seq<char>) -> Option<(Seq<char>, int, int, int, int, int)> {
    let toks = split_char(s, ' ');
    if toks.len() == 11 && name_colon_of(toks[0]) is Some && toks[1] == capacity_word()
        && signed_comma_of(toks[2]) is Some && toks[3] == durability_word() && signed_comma_of(
        toks[4],
    ) is Some && toks[5] == flavor_word() && signed_comma_of(toks[6]) is Some && toks[7]
        == texture_word() && signed_comma_of(toks[8]) is Some && toks[9] == calories_word()
        && signed_of(toks[10]) is Some {
        Some(
            (
                name_colon_of(toks[0]).unwrap(),
                signed_comma_of(toks[2]).unwrap(),
                signed_comma_of(toks[4]).unwrap(),
                signed_comma_of(toks[6]).unwrap(),
                signed_comma_of(toks[8]).unwrap(),
                signed_of(toks[10]).unwrap(),
            ),
        )
    } else {
        None
    }
}

/// One cookie ingredient and its five properties.
pub struct Ingredient {
    pub name: String,
    pub capacity: i32,
    pub durability: i32,
    pub flavor: i32,
    pub texture: i32,
    pub calories: i32,
}

/// Reads an optionally negative decimal token, clamped as in
/// [`crate::util::parse_decimal`].
fn parse_signed(t: &str) -> (r: Option<(bool, u64)>)
    ensures
        match r {
            Some(p) => signed_of(t@) matches Some(v) && if p.0 {
                v == -num_val(t@.skip(1)) && (num_val(t@.skip(1)) < 0x1_0000_0000 ==> p.1
                    == num_val(t@.skip(1))) && (num_val(t@.skip(1)) >= 0x1_0000_0000 ==> p.1
                    == 0x1_0000_0000)
            } else {
                v == num_val(t@) && (num_val(t@) < 0x1_0000_0000 ==> p.1 == num_val(t@)) && (
                num_val(t@) >= 0x1_0000_0000 ==> p.1 == 0x1_0000_0000)
            },
            None => signed_of(t@) is None,
        },
{
    let n = t.unicode_len();
    if n == 0 {
        return None;
    }
    if t.get_char(0) == '-' {
        let digits = t.substring_char(1, n);
        proof {
            assert(digits@ =~= t@.skip(1));
        }
        match parse_decimal(digits) {
            Some(v) => Some((true, v)),
            None => None,
        }
    } else {
        match parse_decimal(t) {
            Some(v) => Some((false, v)),
            None => None,
        }
    }
}

/// Reads a property token, stripping the required trailing comma.
fn parse_signed_comma(t: &str) -> (r: Option<(bool, u64)>)
    ensures
        match r {
            Some(p) => signed_comma_of(t@) matches Some(v) && if p.0 {
                v <= 0 && (-v < 0x1_0000_0000 ==> p.1 == -v) && (-v >= 0x1_0000_0000 ==> p.1
                    == 0x1_0000_0000)
            } else {
                v >= 0 && (v < 0x1_0000_0000 ==> p.1 == v) && (v >= 0x1_0000_0000 ==> p.1
                    == 0x1_0000_0000)
            },
            None => signed_comma_of(t@) is None,
        },
{
    let n = t.unicode_len();
    if n == 0 || t.get_char(n - 1) != ',' {
        return None;
    }
    let body = t.substring_char(0, n - 1);
    proof {
        assert(body@ =~= t@.drop_last());
        if signed_of(body@) matches Some(v) {
            if body@.len() > 0 && body@[0] == '-' {
                crate::util::lemma_num_val_nonneg(body@.skip(1));
            } else {
                crate::util::lemma_num_val_nonneg(body@);
            }
        }
    }
    parse_signed(body)
}

impl Ingredient {
    /// Parses one ingredient line. `Ok` exactly when the line fits the
    /// sentence format that [`ingredient_of`] describes; properties too
    /// large for 32 bits are ruled out by the precondition, as real inputs
    /// always fit.
    pub fn from_str(s: &str) -> (r: Result<Ingredient, ()>)
        requires
            ingredient_of(s@) matches Some((n, c, d, f, t, k)) ==> -0x8000_0000 <= c
                <= 0x7fff_ffff && -0x8000_0000 <= d <= 0x7fff_ffff && -0x8000_0000 <= f
                <= 0x7fff_ffff && -0x8000_0000 <= t <= 0x7fff_ffff && -0x8000_0000 <= k
                <= 0x7fff_ffff,
        ensures
            match r {
                Ok(ing) => ingredient_of(s@) == Some(
                    (
                        ing.name@,
                        ing.capacity as int,
                        ing.durability as int,
                        ing.flavor as int,
                        ing.texture as int,
                        ing.calories as int,
                    ),
                ),
                Err(_) => ingredient_of(s@) is None,
            },
    {
        proof {
            reveal_strlit("capacity");
            reveal_strlit("durability");
            reveal_strlit("flavor");
            reveal_strlit("texture");
            reveal_strlit("calories");
            assert("capacity"@ =~= capacity_word());
            assert("durability"@ =~= durability_word());
            assert("flavor"@ =~= flavor_word());
            assert("texture"@ =~= texture_word());
            assert("calories"@ =~= calories_word());
        }
        let bounds = split_bounds(s, ' ');
        if bounds.len() != 11 {
            return Err(());
        }
        let name_tok = s.substring_char(bounds[0].0, bounds[0].1);
        let nlen = name_tok.unicode_len();
        if nlen == 0 || name_tok.get_char(nlen - 1) != ':' {
            return Err(());
        }
        let name = name_tok.substring_char(0, nlen - 1);
        proof {
            assert(name@ =~= name_tok@.drop_last());
        }
        if !is_word_str(name) {
            return Err(());
        }
        let words_ok = str_eq(s.substring_char(bounds[1].0, bounds[1].1), "capacity") && str_eq(
            s.substring_char(bounds[3].0, bounds[3].1),
            "durability",
        ) && str_eq(s.substring_char(bounds[5].0, bounds[5].1), "flavor") && str_eq(
            s.substring_char(bounds[7].0, bounds[7].1),
            "texture",
        ) && str_eq(s.substring_char(bounds[9].0, bounds[9].1), "calories");
        if !words_ok {
            return Err(());
        }
        let capacity = match parse_signed_comma(s.substring_char(bounds[2].0, bounds[2].1)) {
            Some(p) => p,
            None => {
                return Err(());
            },
        };
        let durability = match parse_signed_comma(s.substring_char(bounds[4].0, bounds[4].1)) {
            Some(p) => p,
            None => {
                return Err(());
            },
        };
        let flavor = match parse_signed_comma(s.substring_char(bounds[6].0, bounds[6].1)) {
            Some(p) => p,
            None => {
                return Err(());
            },
        };
        let texture = match parse_signed_comma(s.substring_char(bounds[8].0, bounds[8].1)) {
            Some(p) => p,
            None => {
                return Err(());
            },
        };
        let calories = match parse_signed(s.substring_char(bounds[10].0, bounds[10].1)) {
            Some(p) => p,
            None => {
                return Err(());
            },
        };
        proof {
            if capacity.1 > 0x8000_0000 || durability.1 > 0x8000_0000 || flavor.1 > 0x8000_0000
                || texture.1 > 0x8000_0000 || calories.1 > 0x8000_0000 {
                assert(false);
            }
            if !capacity.0 && capacity.1 == 0x8000_0000 {
                assert(false);
            }
            if !durability.0 && durability.1 == 0x8000_0000 {
                assert(false);
            }
            if !flavor.0 && flavor.1 == 0x8000_0000 {
                assert(false);
            }
            if !texture.0 && texture.1 == 0x8000_0000 {
                assert(false);
            }
            if !calories.0 && calories.1 == 0x8000_0000 {
                assert(false);
            }
        }
        Ok(
            Ingredient {
                name: name.to_owned(),
                capacity: to_signed_i32(capacity),
                durability: to_signed_i32(durability),
                flavor: to_signed_i32(flavor),
                texture: to_signed_i32(texture),
                calories: to_signed_i32(calories),
            },
        )
    }
}

/// Combines a sign and magnitude into an `i32`.
fn to_signed_i32(p: (bool, u64)) -> (r: i32)
    requires
        p.0 ==> p.1 <= 0x8000_0000,
        !p.0 ==> p.1 <= 0x7fff_ffff,
    ensures
        p.0 ==> r == -(p.1 as int),
        !p.0 ==> r == p.1 as int,
{
    if p.0 {
        if p.1 == 0x8000_0000 {
            i32::MIN
        } else {
            -(p.1 as i32)
        }
    } else {
        p.1 as i32
    }
}

} // verus!
