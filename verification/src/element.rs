use vstd::prelude::*;

use crate::vec_2::{Axis, Vec2};

verus! {

/// Which end of an axis a gate's active terminal sits on.
#[derive(Debug, Clone, Copy, PartialEq, Eq, Structural)]
pub enum Direction1 {
    Start,
    End,
}

/// Which way a gate faces: an axis and one of its two ends.
#[derive(Debug, Clone, Copy, PartialEq, Eq, Structural)]
pub struct Direction2 {
    pub axis: Axis,
    pub direction_1: Direction1,
}

/// A piece of content placed on the grid, stored under its footprint's
/// minimum corner.
///
/// A `Gate` occupies a 2-by-2 block of cells; `calc` is an opaque payload that
/// this core never interprets. A `Wire` occupies a 1-by-`length` strip of
/// cells along `axis` (a length of zero still occupies its anchor cell).
#[derive(Debug, Clone, Copy, PartialEq, Eq, Structural)]
pub enum Element {
    Gate { calc: u16, rotation: Direction2 },
    Wire { length: u16, axis: Axis },
}

/// The number of cells an element spans along the given axis.
pub open spec fn span(e: Element, axis: Axis) -> int {
    match e {
        Element::Gate { .. } => 2,
        Element::Wire { length, axis: wire_axis } => if wire_axis == axis {
            if length == 0 {
                1
            } else {
                length as int
            }
        } else {
            1
        },
    }
}

/// Whether the footprint of element `e`, anchored at `anchor`, occupies the
/// cell `c`.
pub open spec fn covers(anchor: (int, int), e: Element, c: (int, int)) -> bool {
    anchor.0 <= c.0 < anchor.0 + span(e, Axis::X) && anchor.1 <= c.1 < anchor.1 + span(
        e,
        Axis::Y,
    )
}

/// Decides footprint membership: whether element `e` anchored at `anchor`
/// occupies the cell `c`.
pub fn covers_cell(anchor: Vec2<i16>, e: &Element, c: Vec2<i16>) -> (r: bool)
    ensures
        r == covers(anchor@, *e, c@),
{
    let ax: i32 = anchor.0 as i32;
    let ay: i32 = anchor.1 as i32;
    let cx: i32 = c.0 as i32;
    let cy: i32 = c.1 as i32;
    let (sx, sy): (i32, i32) = match e {
        Element::Gate { .. } => (2, 2),
        Element::Wire { length, axis } => {
            let n: i32 = if *length == 0 {
                1
            } else {
                *length as i32
            };
            match axis {
                Axis::X => (n, 1),
                Axis::Y => (1, n),
            }
        },
    };
    ax <= cx && cx < ax + sx && ay <= cy && cy < ay + sy
}

} // verus!
