//! Symbol geometry as the placer reads it.
//!
//! Lengths are integer micrometres. Symbol coordinates have Y growing up, as
//! in the symbol libraries; sheet coordinates have Y growing down, so a pin at
//! symbol `(x, y)` sits at sheet `(origin.x + x, origin.y - y)`.

use vstd::prelude::*;

use crate::names::str_eq;

verus! {

/// Farthest that a pin or a body corner may lie from the symbol's origin
/// along either axis, in micrometres. Every sheet coordinate that the placer
/// derives then fits in 32 bits of grid steps.
pub const MAX_REACH: i32 = 1_000_000;

/// Most pins a symbol may have.
pub const MAX_PINS: usize = 100_000;

/// Counter-clockwise turn of a symbol.
#[derive(Debug, Clone, Copy, PartialEq, Eq, Structural)]
pub enum Rotation {
    R0,
    R90,
    R180,
    R270,
}

/// A symbol pose: a mirror about the vertical axis followed by a turn.
#[derive(Debug, Clone, Copy, PartialEq, Eq, Structural)]
pub struct Orientation {
    pub rotation: Rotation,
    pub mirror_y: bool,
}

/// Number of poses.
pub const ORIENTATION_COUNT: usize = 8;

/// The pose with index `i`: the four turns, then the four mirrored turns.
pub open spec fn orientation_at(i: int) -> Orientation {
    let rotation = if i % 4 == 0 {
        Rotation::R0
    } else if i % 4 == 1 {
        Rotation::R90
    } else if i % 4 == 2 {
        Rotation::R180
    } else {
        Rotation::R270
    };
    Orientation { rotation, mirror_y: i >= 4 }
}

/// The index of a pose.
pub open spec fn orientation_index(o: Orientation) -> int {
    let r: int = match o.rotation {
        Rotation::R0 => 0,
        Rotation::R90 => 1,
        Rotation::R180 => 2,
        Rotation::R270 => 3,
    };
    if o.mirror_y {
        r + 4
    } else {
        r
    }
}

/// [`orientation_at`] and [`orientation_index`] undo each other.
pub proof fn orientation_index_inverse()
    ensures
        forall|o: Orientation|
            0 <= #[trigger] orientation_index(o) < 8 && orientation_at(orientation_index(o)) == o,
        forall|i: int|
            0 <= i < 8 ==> orientation_index(#[trigger] orientation_at(i)) == i,
{
}

impl Orientation {
    /// The upright, unmirrored pose.
    pub fn identity() -> (r: Orientation)
        ensures
            r == orientation_at(0),
    {
        Orientation { rotation: Rotation::R0, mirror_y: false }
    }

    /// The pose with the given index.
    pub fn nth(i: usize) -> (r: Orientation)
        requires
            i < 8,
        ensures
            r == orientation_at(i as int),
    {
        let rotation = if i % 4 == 0 {
            Rotation::R0
        } else if i % 4 == 1 {
            Rotation::R90
        } else if i % 4 == 2 {
            Rotation::R180
        } else {
            Rotation::R270
        };
        Orientation { rotation, mirror_y: i >= 4 }
    }

    /// The index of the pose.
    pub fn index(self) -> (r: usize)
        ensures
            r == orientation_index(self),
            r < 8,
    {
        let r: usize = match self.rotation {
            Rotation::R0 => 0,
            Rotation::R90 => 1,
            Rotation::R180 => 2,
            Rotation::R270 => 3,
        };
        if self.mirror_y {
            r + 4
        } else {
            r
        }
    }
}

/// Electrical type of a pin.
#[derive(Debug, Clone, Copy, PartialEq, Eq, Structural)]
pub enum PinElectrical {
    Input,
    Output,
    Bidirectional,
    Passive,
    PowerIn,
    PowerOut,
    Other,
}

/// A pin of a symbol in one pose. `angle` is the direction in which the pin
/// points away from the body, in degrees: `270` is up on the sheet, `90` is
/// down, `0` is right and `180` is left.
#[derive(Debug)]
pub struct Pin {
    pub number: String,
    pub x: i32,
    pub y: i32,
    pub angle: u16,
    pub electrical: PinElectrical,
}

/// A rectangle given by two opposite corners.
#[derive(Debug, Clone, Copy, PartialEq, Eq, Structural)]
pub struct Rect {
    pub x0: i32,
    pub y0: i32,
    pub x1: i32,
    pub y1: i32,
}

/// A symbol as drawn in one pose: its pins in declaration order and the box
/// around its body.
#[derive(Debug)]
pub struct Pose {
    pub pins: Vec<Pin>,
    pub body: Option<Rect>,
}

/// A symbol: how it is drawn in each of its poses, in pose order.
#[derive(Debug)]
pub struct Symbol {
    pub poses: Vec<Pose>,
}

/// A coordinate of a symbol in reach of its origin.
pub open spec fn in_reach(c: int) -> bool {
    -MAX_REACH <= c <= MAX_REACH
}

impl Pose {
    /// Every pin and body corner is in reach of the origin.
    pub open spec fn wf(&self) -> bool {
        &&& self.pins@.len() <= MAX_PINS
        &&& forall|k: int|
            0 <= k < self.pins@.len() ==> in_reach((#[trigger] self.pins@[k]).x as int)
                && in_reach(self.pins@[k].y as int)
        &&& self.body matches Some(b) ==> in_reach(b.x0 as int) && in_reach(b.y0 as int)
            && in_reach(b.x1 as int) && in_reach(b.y1 as int)
    }
}

impl Symbol {
    /// There is one drawing per pose, and all of it is in reach.
    pub open spec fn wf(&self) -> bool {
        &&& self.poses@.len() == 8
        &&& forall|i: int| 0 <= i < 8 ==> (#[trigger] self.poses@[i]).wf()
    }

    /// The drawing in one pose.
    pub open spec fn posed(&self, o: Orientation) -> Pose {
        self.poses@[orientation_index(o)]
    }

    /// The symbol as drawn in one pose.
    pub fn pose(&self, o: Orientation) -> (r: &Pose)
        requires
            self.wf(),
        ensures
            *r == self.posed(o),
            r.wf(),
    {
        let i: usize = o.index();
        assert(self.poses@[i as int].wf());
        &self.poses[i]
    }

    /// The pins as drawn in one pose.
    pub fn pins_in(&self, o: Orientation) -> (r: &Vec<Pin>)
        requires
            self.wf(),
        ensures
            *r == self.posed(o).pins,
    {
        &self.pose(o).pins
    }
}

/// The first pin from `k` on that carries the number.
pub open spec fn pin_from(pins: Seq<Pin>, number: Seq<char>, k: int) -> Option<int>
    decreases pins.len() - k,
{
    if k < 0 || k >= pins.len() {
        None
    } else if pins[k].number@ == number {
        Some(k)
    } else {
        pin_from(pins, number, k + 1)
    }
}

/// The first pin that carries the number.
pub open spec fn pin_numbered(pins: Seq<Pin>, number: Seq<char>) -> Option<int> {
    pin_from(pins, number, 0)
}

/// [`pin_from`] is an occurrence, and nothing before it is one.
pub proof fn pin_from_is_first(pins: Seq<Pin>, number: Seq<char>, k: int)
    requires
        0 <= k,
    ensures
        match pin_from(pins, number, k) {
            Some(i) => {
                &&& k <= i < pins.len()
                &&& pins[i].number@ == number
                &&& forall|j: int| k <= j < i ==> (#[trigger] pins[j]).number@ != number
            },
            None => forall|j: int| k <= j < pins.len() ==> (#[trigger] pins[j]).number@ != number,
        },
    decreases pins.len() - k,
{
    if k < pins.len() {
        pin_from_is_first(pins, number, k + 1);
    }
}

/// The index of the first pin that carries the number.
pub fn find_pin(pins: &Vec<Pin>, number: &str) -> (r: Option<usize>)
    ensures
        match r {
            Some(i) => i < pins@.len() && pin_numbered(pins@, number@) == Some(i as int),
            None => pin_numbered(pins@, number@) is None,
        },
{
    let mut i: usize = 0;
    while i < pins.len()
        invariant
            i <= pins@.len(),
            pin_numbered(pins@, number@) == pin_from(pins@, number@, i as int),
        decreases pins@.len() - i,
    {
        if str_eq(pins[i].number.as_str(), number) {
            return Some(i);
        }
        i = i + 1;
    }
    None
}

} // verus!
