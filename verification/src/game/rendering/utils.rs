use vstd::prelude::*;

use crate::game::components::minefield::FieldOptions;

verus! {

/// Maps a pixel position inside the minefield area to the logical cell
/// under it: the field starts at pixel (12, 55) and each cell is 16 pixels.
pub fn get_cell_pos(x: i32, y: i32) -> (r: (usize, usize))
    requires
        12 <= x,
        55 <= y,
    ensures
        r.0 as int == (x - 12) as int / 16,
        r.1 as int == (y - 55) as int / 16,
{
    let cx = ((x - 12) / 16) as usize;
    let cy = ((y - 55) / 16) as usize;
    (cx, cy)
}

/// The three digit slots of the flags counter: the display value is clamped
/// to [-99, 999]; a negative value shows the minus glyph (digit index 10) in
/// the first slot and the magnitude in the last two.
pub fn split_flags_by_digits(flags: i32) -> (r: [i32; 3])
    ensures
        ({
            let f = FieldOptions::clamp_spec(flags as int, -99, 999);
            let a = if f < 0 {
                -f
            } else {
                f
            };
            &&& r@[0] == if f < 0 {
                10int
            } else {
                f / 100
            }
            &&& r@[1] == (a % 100) / 10
            &&& r@[2] == a % 10
        }),
{
    let f = if flags < -99 {
        -99
    } else if flags > 999 {
        999
    } else {
        flags
    };
    let a = if f < 0 {
        0 - f
    } else {
        f
    };
    let d0 = if f < 0 {
        10
    } else {
        f / 100
    };
    let d1 = (a % 100) / 10;
    let d2 = a % 10;
    [d0, d1, d2]
}

/// The three digit slots of the seconds counter, clamped to [0, 999].
pub fn split_secs_by_digits(secs: u64) -> (r: [i32; 3])
    ensures
        ({
            let s = FieldOptions::clamp_spec(secs as int, 0, 999);
            &&& r@[0] == s / 100
            &&& r@[1] == (s % 100) / 10
            &&& r@[2] == s % 10
        }),
{
    let s: i32 = if secs > 999 {
        999
    } else {
        secs as i32
    };
    [s / 100, (s % 100) / 10, s % 10]
}

} // verus!
