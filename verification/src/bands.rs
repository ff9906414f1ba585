//! Vertical bands: which row of the sheet an element leans towards, from the
//! classes of the nets it touches.

use vstd::prelude::*;

use crate::net_class::{NetClass, NetClassMap};
use crate::netlist::{CheckedNetlist, ResolvedElement};
#[allow(unused_imports)]
use crate::netlist::nets_in_range;

verus! {

/// Vertical band for an element.
#[derive(Debug, Clone, Copy, PartialEq, Eq, Structural)]
pub enum Band {
    /// Power rail row at the top of the sheet.
    Top,
    /// Signal rows in the middle.
    Mid,
    /// Ground rail row at the bottom of the sheet.
    Bot,
}

/// Band assignment for a single element.
#[derive(Debug, Clone, Copy, PartialEq, Eq, Structural)]
pub struct BandAssignment {
    pub band: Band,
    /// Vertical target within the sheet in sixths of its height, from `0` at
    /// the top to `6` at the bottom.
    pub soft_y_target_sixths: u32,
}

/// Some terminal of the element is on a net of the given class.
pub open spec fn has_class(e: ResolvedElement, classes: Seq<Option<NetClass>>, class: NetClass) -> bool {
    exists|k: int|
        0 <= k < e.nodes@.len() && classes[#[trigger] e.nodes@[k] as int] == Some(class)
}

/// The band of an element that touches nets of the given classes:
///
/// | classes                  | band | target |
/// |--------------------------|------|--------|
/// | power only               | top  | 0      |
/// | ground only              | bot  | 1      |
/// | power and signal         | mid  | 1/3    |
/// | ground and signal        | mid  | 2/3    |
/// | anything else, or none   | mid  | 1/2    |
pub open spec fn band_for(power: bool, ground: bool, signal: bool) -> BandAssignment {
    if power && !ground && !signal {
        BandAssignment { band: Band::Top, soft_y_target_sixths: 0 }
    } else if !power && ground && !signal {
        BandAssignment { band: Band::Bot, soft_y_target_sixths: 6 }
    } else if power && !ground && signal {
        BandAssignment { band: Band::Mid, soft_y_target_sixths: 2 }
    } else if !power && ground && signal {
        BandAssignment { band: Band::Mid, soft_y_target_sixths: 4 }
    } else {
        BandAssignment { band: Band::Mid, soft_y_target_sixths: 3 }
    }
}

/// The band of an element.
pub open spec fn band_of(e: ResolvedElement, classes: Seq<Option<NetClass>>) -> BandAssignment {
    band_for(
        has_class(e, classes, NetClass::Power),
        has_class(e, classes, NetClass::Ground),
        has_class(e, classes, NetClass::Signal),
    )
}

/// Whether a terminal of the element is on a net of the class.
pub fn touches_class(e: &ResolvedElement, classes: &NetClassMap, class: NetClass) -> (r: bool)
    requires
        nets_in_range(e.nodes@, classes.class@.len()),
    ensures
        r == has_class(*e, classes.class@, class),
{
    let mut k: usize = 0;
    while k < e.nodes.len()
        invariant
            k <= e.nodes@.len(),
            nets_in_range(e.nodes@, classes.class@.len()),
            forall|j: int|
                0 <= j < k ==> classes.class@[#[trigger] e.nodes@[j] as int] != Some(class),
        decreases e.nodes@.len() - k,
    {
        let net: usize = e.nodes[k];
        match classes.class[net] {
            Some(c) => {
                if c == class {
                    assert(classes.class@[e.nodes@[k as int] as int] == Some(class));
                    return true;
                }
            },
            None => {},
        }
        k = k + 1;
    }
    false
}

/// Assigns a band to every element, in element order.
pub fn assign_y_bands(checked: &CheckedNetlist, classes: &NetClassMap) -> (r: Vec<BandAssignment>)
    requires
        checked.wf(),
        classes.class@.len() == checked.nets@.len(),
    ensures
        r@.len() == checked.elements@.len(),
        forall|i: int|
            0 <= i < r@.len() ==> #[trigger] r@[i] == band_of(
                checked.elements@[i],
                classes.class@,
            ),
{
    let mut out: Vec<BandAssignment> = Vec::new();
    let mut i: usize = 0;
    while i < checked.elements.len()
        invariant
            checked.wf(),
            classes.class@.len() == checked.nets@.len(),
            i <= checked.elements@.len(),
            out@.len() == i,
            forall|j: int|
                0 <= j < i ==> #[trigger] out@[j] == band_of(
                    checked.elements@[j],
                    classes.class@,
                ),
        decreases checked.elements@.len() - i,
    {
        let e = &checked.elements[i];
        assert(nets_in_range(checked.elements@[i as int].nodes@, checked.nets@.len()));
        let power = touches_class(e, classes, NetClass::Power);
        let ground = touches_class(e, classes, NetClass::Ground);
        let signal = touches_class(e, classes, NetClass::Signal);
        let assignment = if power && !ground && !signal {
            BandAssignment { band: Band::Top, soft_y_target_sixths: 0 }
        } else if !power && ground && !signal {
            BandAssignment { band: Band::Bot, soft_y_target_sixths: 6 }
        } else if power && !ground && signal {
            BandAssignment { band: Band::Mid, soft_y_target_sixths: 2 }
        } else if !power && ground && signal {
            BandAssignment { band: Band::Mid, soft_y_target_sixths: 4 }
        } else {
            BandAssignment { band: Band::Mid, soft_y_target_sixths: 3 }
        };
        out.push(assignment);
        i = i + 1;
    }
    out
}

/// The rails own the ends of the sheet: an element is at the top or the
/// bottom exactly when all its classed nets are of the one rail class, and
/// every other element aims strictly between them.
pub proof fn rail_bands_are_pure(e: ResolvedElement, classes: Seq<Option<NetClass>>)
    ensures
        ({
            let b = band_of(e, classes);
            let p = has_class(e, classes, NetClass::Power);
            let g = has_class(e, classes, NetClass::Ground);
            let s = has_class(e, classes, NetClass::Signal);
            &&& b.band == Band::Top <==> p && !g && !s
            &&& b.band == Band::Bot <==> g && !p && !s
            &&& b.band == Band::Top <==> b.soft_y_target_sixths == 0
            &&& b.band == Band::Bot <==> b.soft_y_target_sixths == 6
            &&& b.band == Band::Mid ==> 2 <= b.soft_y_target_sixths <= 4
        }),
{
}

/// The rails pull elements apart. What touches supplies only belongs to the top
/// row and what touches ground only to the bottom row. Of the rest, what joins
/// a supply to a signal aims for a third of the height from the top, what joins
/// ground to a signal for two thirds, and everything else for the middle.
pub proof fn bands_follow_the_rails(e: ResolvedElement, classes: Seq<Option<NetClass>>)
    ensures
        ({
            let b = band_of(e, classes);
            let n = e.nodes@;
            let supply = exists|t: int|
                0 <= t < n.len() && classes[#[trigger] n[t] as int] == Some(NetClass::Power);
            let ground = exists|t: int|
                0 <= t < n.len() && classes[#[trigger] n[t] as int] == Some(NetClass::Ground);
            let signal = exists|t: int|
                0 <= t < n.len() && classes[#[trigger] n[t] as int] == Some(NetClass::Signal);
            &&& supply && !ground && !signal ==> b.band == Band::Top && b.soft_y_target_sixths == 0
            &&& ground && !supply && !signal ==> b.band == Band::Bot && b.soft_y_target_sixths == 6
            &&& supply && !ground && signal ==> b.band == Band::Mid && b.soft_y_target_sixths == 2
            &&& ground && !supply && signal ==> b.band == Band::Mid && b.soft_y_target_sixths == 4
            &&& supply == ground ==> b.band == Band::Mid && b.soft_y_target_sixths == 3
        }),
{
    assert(has_class(e, classes, NetClass::Power) || !has_class(e, classes, NetClass::Power));
    assert(has_class(e, classes, NetClass::Ground) || !has_class(e, classes, NetClass::Ground));
    assert(has_class(e, classes, NetClass::Signal) || !has_class(e, classes, NetClass::Signal));
}

} // verus!
