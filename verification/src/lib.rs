//! A scanline fill-rule engine for rasterizing vector outlines: directed
//! x-axis crossings ("intersections") of a horizontal scan row, winding-number
//! bookkeeping via prefix sums, fill rules, cursor-accelerated point queries,
//! and a two-scanline agreement-length sweep.

pub mod arithmetics;
pub mod fill_rule;
pub mod scanline;
pub mod vector2;
pub mod winding;
