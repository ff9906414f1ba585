//! What the placer asks of its input, checked at run time.
//!
//! The passes state these conditions as preconditions. A caller that cannot
//! prove them asks here first.
//!
//! Grid coordinates are 32-bit. Under these limits no layout leaves that range,
//! however unfavourable: as many elements as there may be, each as wide as it
//! may be, all in one row and moved the same way by every pass. Beyond them an
//! overflow can no longer be ruled out, and the netlist is refused.

use vstd::prelude::*;

use crate::constraints::{UnresolvedPlace, MAX_CLUSTERS};
#[allow(unused_imports)]
use crate::constraints::{align_members, has_pins, lists_unresolved, pins_to_place_by, unresolved};
use crate::extent::MAX_VALUE_CHARS;
#[allow(unused_imports)]
use crate::extent::value_fits;
use crate::names::str_lt;
#[allow(unused_imports)]
use crate::names::{lex_lt, lex_transitive};
use crate::netlist::{CheckedNetlist, PlaceSpec};
#[allow(unused_imports)]
use crate::netlist::{last_named_is_last, nets_in_range, sorted_names};
use crate::place::{place_with_hint, LayoutOptions, SHEET_LIMIT};
#[allow(unused_imports)]
use crate::place::{final_spots, found_in, saved_on_sheet, Findings};
use crate::placement::{Hint, Placement, MAX_ELEMENTS};
#[allow(unused_imports)]
use crate::placement::places;
use crate::symbol::{Pose, Symbol, MAX_PINS, MAX_REACH};
#[allow(unused_imports)]
use crate::symbol::{in_reach, orientation_at, orientation_index_inverse};

verus! {

fn reachable(c: i32) -> (r: bool)
    ensures
        r == in_reach(c as int),
{
    -MAX_REACH <= c && c <= MAX_REACH
}

impl Pose {
    /// Whether every pin and body corner is in reach of the origin.
    pub fn in_limits(&self) -> (r: bool)
        ensures
            r == self.wf(),
    {
        if self.pins.len() > MAX_PINS {
            return false;
        }
        let mut k: usize = 0;
        while k < self.pins.len()
            invariant
                k <= self.pins@.len(),
                forall|j: int|
                    0 <= j < k ==> in_reach((#[trigger] self.pins@[j]).x as int) && in_reach(
                        self.pins@[j].y as int,
                    ),
            decreases self.pins@.len() - k,
        {
            if !reachable(self.pins[k].x) || !reachable(self.pins[k].y) {
                return false;
            }
            k = k + 1;
        }
        match self.body {
            Some(b) => reachable(b.x0) && reachable(b.y0) && reachable(b.x1) && reachable(b.y1),
            None => true,
        }
    }
}

impl Symbol {
    /// Whether there is one drawing per pose, all of it in reach.
    pub fn in_limits(&self) -> (r: bool)
        ensures
            r == self.wf(),
    {
        if self.poses.len() != 8 {
            return false;
        }
        let mut i: usize = 0;
        while i < 8
            invariant
                i <= 8,
                self.poses@.len() == 8,
                forall|j: int| 0 <= j < i ==> (#[trigger] self.poses@[j]).wf(),
            decreases 8 - i,
        {
            if !self.poses[i].in_limits() {
                return false;
            }
            i = i + 1;
        }
        true
    }

    /// Whether the symbol has a pin in every pose.
    pub fn pinned_in_every_pose(&self) -> (r: bool)
        requires
            self.wf(),
        ensures
            r == has_pins(*self),
    {
        let mut i: usize = 0;
        while i < 8
            invariant
                i <= 8,
                self.poses@.len() == 8,
                forall|j: int| 0 <= j < i ==> (#[trigger] self.poses@[j]).pins@.len() > 0,
            decreases 8 - i,
        {
            if self.poses[i].pins.len() == 0 {
                proof {
                    orientation_index_inverse();
                    assert(self.posed(orientation_at(i as int)).pins@.len() == 0);
                }
                return false;
            }
            i = i + 1;
        }
        proof {
            orientation_index_inverse();
        }
        true
    }
}

fn known_nets(nodes: &Vec<usize>, n: usize) -> (r: bool)
    ensures
        r == nets_in_range(nodes@, n as nat),
{
    let mut k: usize = 0;
    while k < nodes.len()
        invariant
            k <= nodes@.len(),
            forall|j: int| 0 <= j < k ==> #[trigger] nodes@[j] < n,
        decreases nodes@.len() - k,
    {
        if nodes[k] >= n {
            return false;
        }
        k = k + 1;
    }
    true
}

fn in_order(nets: &Vec<String>) -> (r: bool)
    ensures
        r == sorted_names(nets@),
{
    let mut k: usize = 0;
    while k < nets.len()
        invariant
            k <= nets@.len(),
            forall|i: int, j: int|
                0 <= i < j < k ==> lex_lt(#[trigger] nets@[i]@, #[trigger] nets@[j]@),
        decreases nets@.len() - k,
    {
        if k > 0 && !str_lt(nets[k - 1].as_str(), nets[k].as_str()) {
            return false;
        }
        proof {
            assert forall|i: int| 0 <= i < k implies lex_lt(
                #[trigger] nets@[i]@,
                nets@[k as int]@,
            ) by {
                if i < k - 1 {
                    lex_transitive(nets@[i]@, nets@[k - 1]@, nets@[k as int]@);
                }
            }
        }
        k = k + 1;
    }
    true
}

fn value_in_limits(value: &Option<String>) -> (r: bool)
    ensures
        r == value_fits(*value),
{
    match value {
        Some(v) => v.as_str().unicode_len() <= MAX_VALUE_CHARS,
        None => true,
    }
}

impl CheckedNetlist {
    fn elements_in_limits(&self) -> (r: bool)
        ensures
            r == forall|i: int|
                0 <= i < self.elements@.len() ==> nets_in_range(
                    (#[trigger] self.elements@[i]).nodes@,
                    self.nets@.len(),
                ) && self.elements@[i].symbol.wf() && self.elements@[i].nodes@.len() <= MAX_PINS
                    && value_fits(self.elements@[i].value),
    {
        let mut i: usize = 0;
        while i < self.elements.len()
            invariant
                i <= self.elements@.len(),
                forall|j: int|
                    0 <= j < i ==> nets_in_range(
                        (#[trigger] self.elements@[j]).nodes@,
                        self.nets@.len(),
                    ) && self.elements@[j].symbol.wf() && self.elements@[j].nodes@.len()
                        <= MAX_PINS && value_fits(self.elements@[j].value),
            decreases self.elements@.len() - i,
        {
            let e = &self.elements[i];
            if !known_nets(&e.nodes, self.nets.len()) || !e.symbol.in_limits() || e.nodes.len()
                > MAX_PINS || !value_in_limits(&e.value) {
                return false;
            }
            i = i + 1;
        }
        true
    }

    fn ports_known(&self) -> (r: bool)
        ensures
            r == forall|i: int|
                0 <= i < self.ports@.len() ==> (#[trigger] self.ports@[i]).net < self.nets@.len(),
    {
        let mut i: usize = 0;
        while i < self.ports.len()
            invariant
                i <= self.ports@.len(),
                forall|j: int|
                    0 <= j < i ==> (#[trigger] self.ports@[j]).net < self.nets@.len(),
            decreases self.ports@.len() - i,
        {
            if self.ports[i].net >= self.nets.len() {
                return false;
            }
            i = i + 1;
        }
        true
    }

    fn sheets_known(&self) -> (r: bool)
        ensures
            r == forall|i: int|
                0 <= i < self.sheet_instances@.len() ==> nets_in_range(
                    (#[trigger] self.sheet_instances@[i]).nodes@,
                    self.nets@.len(),
                ),
    {
        let mut i: usize = 0;
        while i < self.sheet_instances.len()
            invariant
                i <= self.sheet_instances@.len(),
                forall|j: int|
                    0 <= j < i ==> nets_in_range(
                        (#[trigger] self.sheet_instances@[j]).nodes@,
                        self.nets@.len(),
                    ),
            decreases self.sheet_instances@.len() - i,
        {
            if !known_nets(&self.sheet_instances[i].nodes, self.nets.len()) {
                return false;
            }
            i = i + 1;
        }
        true
    }

    fn subckts_known(&self) -> (r: bool)
        ensures
            r == forall|i: int|
                0 <= i < self.subckts@.len() ==> nets_in_range(
                    (#[trigger] self.subckts@[i]).ports@,
                    self.nets@.len(),
                ),
    {
        let mut i: usize = 0;
        while i < self.subckts.len()
            invariant
                i <= self.subckts@.len(),
                forall|j: int|
                    0 <= j < i ==> nets_in_range(
                        (#[trigger] self.subckts@[j]).ports@,
                        self.nets@.len(),
                    ),
            decreases self.subckts@.len() - i,
        {
            if !known_nets(&self.subckts[i].ports, self.nets.len()) {
                return false;
            }
            i = i + 1;
        }
        true
    }

    /// Whether the netlist is well formed and the sheet can hold it.
    pub fn is_drawable(&self) -> (r: bool)
        ensures
            r == self.drawable(),
    {
        if self.elements.len() > MAX_ELEMENTS || self.nets.len() > i32::MAX as usize {
            return false;
        }
        let names = in_order(&self.nets);
        let elements = self.elements_in_limits();
        let ports = self.ports_known();
        let sheets = self.sheets_known();
        let subckts = self.subckts_known();
        names && elements && ports && sheets && subckts
    }

    fn target_has_pins(&self, spec: &PlaceSpec) -> (r: bool)
        requires
            self.drawable(),
        ensures
            r == pins_to_place_by(self, *spec),
    {
        proof {
            let n = self.elements@.len() as int;
            last_named_is_last(self.elements@, spec.refdes@, n);
            last_named_is_last(self.elements@, spec.anchor@, n);
        }
        match (
            self.element_index(spec.refdes.as_str()),
            self.element_index(spec.anchor.as_str()),
        ) {
            (Some(b), Some(a)) => {
                assert(self.elements@[a as int].symbol.wf());
                assert(self.elements@[b as int].symbol.wf());
                self.elements[a].symbol.pinned_in_every_pose()
                    && self.elements[b].symbol.pinned_in_every_pose()
            },
            _ => true,
        }
    }

    /// Whether the sheet has room for the directives, and elements that are
    /// placed have pins.
    pub fn directives_in_limits(&self) -> (r: bool)
        requires
            self.drawable(),
        ensures
            r == self.directives_fit(),
    {
        if self.align.len() > MAX_CLUSTERS || self.place.len() > MAX_ELEMENTS {
            return false;
        }
        let mut room: usize = MAX_ELEMENTS;
        let mut k: usize = 0;
        while k < self.align.len()
            invariant
                k <= self.align@.len(),
                room == MAX_ELEMENTS - align_members(self.align@, k as int),
                room <= MAX_ELEMENTS,
            decreases self.align@.len() - k,
        {
            if self.align[k].refdes.len() > room {
                proof {
                    members_grow(self, k + 1, self.align@.len() as int);
                }
                return false;
            }
            room = room - self.align[k].refdes.len();
            k = k + 1;
        }
        let mut i: usize = 0;
        while i < self.place.len()
            invariant
                self.drawable(),
                i <= self.place@.len(),
                forall|j: int| 0 <= j < i ==> pins_to_place_by(self, #[trigger] self.place@[j]),
            decreases self.place@.len() - i,
        {
            if !self.target_has_pins(&self.place[i]) {
                assert(!pins_to_place_by(self, self.place@[i as int]));
                return false;
            }
            i = i + 1;
        }
        true
    }
}

proof fn members_grow(checked: &CheckedNetlist, m: int, n: int)
    requires
        m <= n,
    ensures
        align_members(checked.align@, m) <= align_members(checked.align@, n),
    decreases n - m,
{
    if m < n {
        members_grow(checked, m, n - 1);
    }
}

impl Hint {
    /// Whether all saved positions are on the sheet.
    pub fn is_on_sheet(&self) -> (r: bool)
        ensures
            r == saved_on_sheet(self.pins@),
    {
        let mut k: usize = 0;
        while k < self.pins.len()
            invariant
                k <= self.pins@.len(),
                forall|j: int|
                    0 <= j < k ==> (#[trigger] self.pins@[j]).origin.within(SHEET_LIMIT as int),
            decreases self.pins@.len() - k,
        {
            let at = self.pins[k].origin;
            if at.x < -SHEET_LIMIT || at.x > SHEET_LIMIT || at.y < -SHEET_LIMIT || at.y
                > SHEET_LIMIT {
                assert(!self.pins@[k as int].origin.within(SHEET_LIMIT as int));
                return false;
            }
            k = k + 1;
        }
        true
    }
}

/// Why a netlist was not placed.
#[derive(Debug)]
pub enum PlaceError {
    /// The netlist, its directives or the saved positions may not fit on a
    /// sheet with 32-bit coordinates.
    OutsideLimits,
    /// These `place` directives never found their anchor placed.
    Unresolved(Vec<UnresolvedPlace>),
}

/// Everything that the placer asks of its input.
pub open spec fn placeable(checked: &CheckedNetlist, hint: Hint) -> bool {
    checked.drawable() && checked.directives_fit() && saved_on_sheet(hint.pins@)
}

/// Places any netlist, with saved positions, or says why it cannot be placed.
pub fn try_place(checked: &CheckedNetlist, opts: &LayoutOptions, hint: &Hint) -> (r: Result<
    Placement,
    PlaceError,
>)
    ensures
        match r {
            Ok(p) => {
                &&& placeable(checked, *hint)
                &&& unresolved(checked).len() == 0
                &&& places(&p, checked)
                &&& exists|f: Findings| #[trigger]
                    found_in(checked, opts.placer, f) && p.spots() == final_spots(
                        checked,
                        opts.placer,
                        hint.pins@,
                        f,
                    )
            },
            Err(PlaceError::OutsideLimits) => !placeable(checked, *hint),
            Err(PlaceError::Unresolved(list)) => {
                &&& placeable(checked, *hint)
                &&& unresolved(checked).len() > 0
                &&& lists_unresolved(checked, unresolved(checked), list@)
            },
        },
{
    if !checked.is_drawable() {
        return Err(PlaceError::OutsideLimits);
    }
    if !checked.directives_in_limits() || !hint.is_on_sheet() {
        return Err(PlaceError::OutsideLimits);
    }
    match place_with_hint(checked, opts, hint) {
        Ok(p) => Ok(p),
        Err(list) => Err(PlaceError::Unresolved(list)),
    }
}

} // verus!
