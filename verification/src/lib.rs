//! Verified solutions to a collection of small text-puzzle programs.
//!
//! Each module is self-contained: it parses a line-oriented text format into
//! plain data and computes one or two answers from it. The centrepiece is the
//! logic-circuit signal resolver in [`year_2015::day_07`].

pub mod util;
pub mod year_2015;
pub mod year_2015_day_1;
