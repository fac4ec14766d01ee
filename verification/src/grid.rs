//! Maidenhead grid squares.
use crate::number::Number;
use crate::text::{chars_of, upper_text, uppercase};
use vstd::prelude::*;

verus! {

/// Where a grid square lies: its south-west corner in whole degrees and, for a square of six
/// characters, how many twenty-fourths of the square the part of it lies further east and north.
#[derive(Clone, Copy)]
pub struct GridCell {
    pub lat: i32,
    pub lon: i32,
    /// East, then north.
    pub part: Option<(i32, i32)>,
}

pub open spec fn is_letter(c: char) -> bool {
    ('a' <= c && c <= 'z') || ('A' <= c && c <= 'Z')
}

/// The square that a text in uppercase names: two letters up to `R`, then two characters that stand
/// for digits; two letters more name a part of it.
pub open spec fn cell_in(g: Seq<char>) -> Option<GridCell> {
    if g.len() < 4 || g[0] < 'A' || g[0] > 'R' || g[1] < 'A' || g[1] > 'R' {
        None
    } else {
        let lon = (g[0] as int - 65) * 20 - 180 + (g[2] as int - 48) * 2;
        let lat = (g[1] as int - 65) * 10 - 90 + (g[3] as int - 48);
        let part = if g.len() >= 6 && is_letter(g[4]) && is_letter(g[5]) {
            Some(((g[4] as int - 65) as i32, (g[5] as int - 65) as i32))
        } else {
            None
        };
        Some(GridCell { lat: lat as i32, lon: lon as i32, part })
    }
}

/// The square that a text names.
pub open spec fn cell_of(grid: Seq<char>) -> Option<GridCell> {
    cell_in(uppercase(grid))
}

/// The square that a text names, if it names one.
pub fn grid_cell(grid: &str) -> (r: Option<GridCell>)
    ensures
        r == cell_of(grid@),
{
    let upper = upper_text(grid);
    upper_cell(upper.as_str())
}

/// The square that a text in uppercase names, if it names one.
pub fn upper_cell(upper: &str) -> (r: Option<GridCell>)
    ensures
        r == cell_in(upper@),
{
    let g = chars_of(upper);
    if g.len() < 4 {
        return None;
    }
    if g[0] < 'A' || g[0] > 'R' || g[1] < 'A' || g[1] > 'R' {
        return None;
    }
    let lon: i32 = (code(g[0]) - 65) * 20 - 180 + (code(g[2]) - 48) * 2;
    let lat: i32 = (code(g[1]) - 65) * 10 - 90 + (code(g[3]) - 48);
    let part = if g.len() >= 6 && letter(g[4]) && letter(g[5]) {
        Some((code(g[4]) - 65, code(g[5]) - 65))
    } else {
        None
    };
    Some(GridCell { lat, lon, part })
}

/// The number of a character.
fn code(c: char) -> (r: i32)
    ensures
        r as int == c as int,
        0 <= r <= 0x10ffff,
{
    c as u32 as i32
}

fn letter(c: char) -> (r: bool)
    ensures
        r == is_letter(c),
{
    (c >= 'a' && c <= 'z') || (c >= 'A' && c <= 'Z')
}

/// How a distance and a bearing are shown.
pub open spec fn distance_text(miles: Number, degrees: Number) -> Seq<char> {
    miles.fixed(0) + "mi "@ + degrees.fixed(0) + "°"@
}

/// The distance and the bearing from one square to another, which are given, as they are shown;
/// `None` where one of the squares is none.
pub fn distance_bearing(my_grid: &str, spot_grid: &str, miles: Number, degrees: Number) -> (r: Option<String>)
    requires
        miles.wf(),
        degrees.wf(),
    ensures
        r is Some <==> cell_of(my_grid@) is Some && cell_of(spot_grid@) is Some,
        r matches Some(s) ==> s@ == distance_text(miles, degrees),
{
    if grid_cell(my_grid).is_none() || grid_cell(spot_grid).is_none() {
        return None;
    }
    let mut s = miles.fixed_text(0);
    s.append("mi ");
    let d = degrees.fixed_text(0);
    s.append(d.as_str());
    s.append("°");
    Some(s)
}

} // verus!
