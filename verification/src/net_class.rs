//! Net classification: which nets are supplies, which are ground, and on
//! which side of the sheet a rail runs.

use vstd::prelude::*;

use crate::names::str_eq;
#[allow(unused_imports)]
use crate::names::ascii_lower;
use crate::netlist::CheckedNetlist;

verus! {

/// Functional class of a net for layout purposes.
#[derive(Debug, Clone, Copy, PartialEq, Eq, Structural)]
pub enum NetClass {
    Power,
    Ground,
    Signal,
}

/// The class of every net in the table; `None` for a net no element touches.
#[derive(Debug)]
pub struct NetClassMap {
    pub class: Vec<Option<NetClass>>,
}

/// Preferred vertical side for a rail net: a positive supply runs along the
/// top of the sheet, ground and negative supplies along the bottom.
#[derive(Debug, Clone, Copy, PartialEq, Eq, Structural)]
pub enum VertPref {
    /// A pin on this net should face up.
    Up,
    /// A pin on this net should face down.
    Down,
}

/// The canonical names of positive supplies.
pub open spec fn is_power_name(lower: Seq<char>) -> bool {
    lower == "vcc"@ || lower == "vdd"@ || lower == "v+"@ || lower == "vplus"@
}

/// The canonical names of ground and negative supplies.
pub open spec fn is_ground_name(lower: Seq<char>) -> bool {
    lower == "gnd"@ || lower == "vee"@ || lower == "vss"@ || lower == "v-"@ || lower == "vminus"@
}

/// The canonical names of negative supplies.
pub open spec fn is_negative_rail_name(lower: Seq<char>) -> bool {
    lower == "vee"@ || lower == "v-"@ || lower == "vminus"@
}

/// True when a lower-case net name is a canonical positive-supply name.
pub fn matches_power_name(lower: &str) -> (r: bool)
    ensures
        r == is_power_name(lower@),
{
    str_eq(lower, "vcc") || str_eq(lower, "vdd") || str_eq(lower, "v+") || str_eq(lower, "vplus")
}

/// True when a lower-case net name is a canonical ground or negative-supply
/// name.
pub fn matches_ground_name(lower: &str) -> (r: bool)
    ensures
        r == is_ground_name(lower@),
{
    str_eq(lower, "gnd") || str_eq(lower, "vee") || str_eq(lower, "vss") || str_eq(lower, "v-")
        || str_eq(lower, "vminus")
}

/// True when a lower-case net name is a canonical negative-rail name. `gnd`
/// is true ground and `vss` is commonly a digital ground, so neither counts.
#[must_use]
pub fn matches_negative_rail_name(lower: &str) -> (r: bool)
    ensures
        r == is_negative_rail_name(lower@),
{
    str_eq(lower, "vee") || str_eq(lower, "v-") || str_eq(lower, "vminus")
}

/// Every negative-rail name is a ground name, and `gnd` and `vss` are the
/// ground names that are not negative rails.
pub proof fn negative_rail_names_are_ground_names(lower: Seq<char>)
    ensures
        is_negative_rail_name(lower) ==> is_ground_name(lower),
        is_ground_name(lower) && !is_negative_rail_name(lower) <==> lower == "gnd"@ || lower
            == "vss"@,
{
    reveal_strlit("gnd");
    reveal_strlit("vss");
    reveal_strlit("vee");
    reveal_strlit("v-");
    reveal_strlit("vminus");
    assert("gnd"@[0] != "vee"@[0]);
    assert("vss"@[1] != "vee"@[1]);
}

/// No name is both a positive-supply and a ground name.
pub proof fn supply_names_are_disjoint(lower: Seq<char>)
    ensures
        !(is_power_name(lower) && is_ground_name(lower)),
{
    reveal_strlit("vcc");
    reveal_strlit("vdd");
    reveal_strlit("v+");
    reveal_strlit("vplus");
    reveal_strlit("gnd");
    reveal_strlit("vee");
    reveal_strlit("vss");
    reveal_strlit("v-");
    reveal_strlit("vminus");
    assert("gnd"@[0] == 'g');
    assert("vcc"@[1] == 'c' && "vdd"@[1] == 'd' && "v+"@[1] == '+' && "vplus"@[1] == 'p');
    assert("vee"@[1] == 'e' && "vss"@[1] == 's' && "v-"@[1] == '-' && "vminus"@[1] == 'm');
    assert("vcc"@[0] == 'v' && "vdd"@[0] == 'v' && "v+"@[0] == 'v' && "vplus"@[0] == 'v');
}

impl CheckedNetlist {
    /// The net is the reference node `0`.
    pub open spec fn is_reference(&self, net: int) -> bool {
        self.nets@[net]@ == "0"@
    }

    /// Some element touches the net.
    pub open spec fn touched(&self, net: int) -> bool {
        exists|i: int| 0 <= i < self.elements@.len() && #[trigger] self.touches(i, net)
    }

    /// Some supply element touches the net.
    pub open spec fn touched_by_power(&self, net: int) -> bool {
        exists|i: int|
            0 <= i < self.elements@.len() && #[trigger] self.touches(i, net)
                && self.elements@[i].role.is_power()
    }

    /// Some supply element with a negative rail string touches the net.
    pub open spec fn touched_by_negative_power(&self, net: int) -> bool {
        exists|i: int|
            0 <= i < self.elements@.len() && #[trigger] self.touches(i, net)
                && self.elements@[i].role.is_negative_power()
    }

    /// The net is the positive terminal of a supply element.
    pub open spec fn is_supply_terminal(&self, net: int) -> bool {
        exists|i: int|
            0 <= i < self.elements@.len() && (#[trigger] self.elements@[i]).role.is_power()
                && self.elements@[i].nodes@.len() > 0 && self.elements@[i].nodes@[0] == net
    }

    /// The class of a net, by the first rule that applies:
    ///
    /// 1. `0` is ground;
    /// 2. the positive terminal of a supply is power;
    /// 3. a canonical supply or ground name decides;
    /// 4. a net that a supply touches is power;
    /// 5. every other net that an element touches is signal.
    pub open spec fn class_of(&self, net: int) -> Option<NetClass> {
        let lower = ascii_lower(self.nets@[net]@);
        if self.is_reference(net) {
            Some(NetClass::Ground)
        } else if !self.touched(net) {
            None
        } else if self.is_supply_terminal(net) {
            Some(NetClass::Power)
        } else if is_power_name(lower) {
            Some(NetClass::Power)
        } else if is_ground_name(lower) {
            Some(NetClass::Ground)
        } else if self.touched_by_power(net) {
            Some(NetClass::Power)
        } else {
            Some(NetClass::Signal)
        }
    }

    /// The net is a supply or ground.
    pub open spec fn is_rail(&self, net: int) -> bool {
        self.class_of(net) == Some(NetClass::Power) || self.class_of(net) == Some(NetClass::Ground)
    }

    /// The preferred side of a rail net: down for ground, for a supply whose
    /// name is that of a ground or of a negative supply, and for a negative
    /// supply by rail string; up for every other supply. The names are all
    /// those of [`is_ground_name`], so that a net that a supply feeds goes down
    /// when it is named `gnd`, just as when it is named `vee`.
    pub open spec fn vert_pref_of(&self, net: int) -> Option<VertPref> {
        match self.class_of(net) {
            Some(NetClass::Ground) => Some(VertPref::Down),
            Some(NetClass::Power) => if is_ground_name(ascii_lower(self.nets@[net]@))
                || self.touched_by_negative_power(net) {
                Some(VertPref::Down)
            } else {
                Some(VertPref::Up)
            },
            _ => None,
        }
    }
}

/// The map gives every net of the table its class.
pub open spec fn classes_of(checked: &CheckedNetlist, classes: &NetClassMap) -> bool {
    &&& classes.class@.len() == checked.nets@.len()
    &&& forall|net: int|
        0 <= net < checked.nets@.len() ==> #[trigger] classes.class@[net] == checked.class_of(net)
}

impl NetClassMap {
    /// Whether the net is a supply or ground.
    pub fn is_rail_net(&self, net: usize) -> (r: bool)
        requires
            net < self.class@.len(),
        ensures
            r == (self.class@[net as int] == Some(NetClass::Power) || self.class@[net as int]
                == Some(NetClass::Ground)),
    {
        match self.class[net] {
            Some(NetClass::Power) => true,
            Some(NetClass::Ground) => true,
            _ => false,
        }
    }
}

/// Whether an element has a terminal on the net.
pub fn element_touches(checked: &CheckedNetlist, i: usize, net: usize) -> (r: bool)
    requires
        i < checked.elements@.len(),
    ensures
        r == checked.touches(i as int, net as int),
{
    let nodes = &checked.elements[i].nodes;
    let mut k: usize = 0;
    while k < nodes.len()
        invariant
            i < checked.elements@.len(),
            nodes@ == checked.elements@[i as int].nodes@,
            k <= nodes@.len(),
            forall|j: int| 0 <= j < k ==> #[trigger] nodes@[j] != net,
        decreases nodes@.len() - k,
    {
        if nodes[k] == net {
            assert(checked.elements@[i as int].nodes@[k as int] == net);
            return true;
        }
        k = k + 1;
    }
    false
}

fn supply_terminal(checked: &CheckedNetlist, net: usize) -> (r: bool)
    ensures
        r == checked.is_supply_terminal(net as int),
{
    let mut i: usize = 0;
    while i < checked.elements.len()
        invariant
            i <= checked.elements@.len(),
            forall|j: int|
                0 <= j < i ==> !((#[trigger] checked.elements@[j]).role.is_power()
                    && checked.elements@[j].nodes@.len() > 0 && checked.elements@[j].nodes@[0]
                    == net),
        decreases checked.elements@.len() - i,
    {
        let e = &checked.elements[i];
        if e.role.power() && e.nodes.len() > 0 && e.nodes[0] == net {
            return true;
        }
        i = i + 1;
    }
    false
}

/// Whether the net is touched, touched by a supply, and touched by a negative
/// supply.
fn touch_flags(checked: &CheckedNetlist, net: usize) -> (r: (bool, bool, bool))
    ensures
        r.0 == checked.touched(net as int),
        r.1 == checked.touched_by_power(net as int),
        r.2 == checked.touched_by_negative_power(net as int),
{
    let mut any = false;
    let mut power = false;
    let mut negative = false;
    let mut i: usize = 0;
    while i < checked.elements.len()
        invariant
            i <= checked.elements@.len(),
            any == exists|j: int| 0 <= j < i && #[trigger] checked.touches(j, net as int),
            power == exists|j: int|
                0 <= j < i && #[trigger] checked.touches(j, net as int)
                    && checked.elements@[j].role.is_power(),
            negative == exists|j: int|
                0 <= j < i && #[trigger] checked.touches(j, net as int)
                    && checked.elements@[j].role.is_negative_power(),
        decreases checked.elements@.len() - i,
    {
        if element_touches(checked, i, net) {
            any = true;
            if checked.elements[i].role.power() {
                power = true;
            }
            if checked.elements[i].role.negative_power() {
                negative = true;
            }
        }
        i = i + 1;
    }
    (any, power, negative)
}

fn classify_net(checked: &CheckedNetlist, net: usize) -> (r: Option<NetClass>)
    requires
        net < checked.nets@.len(),
    ensures
        r == checked.class_of(net as int),
{
    if str_eq(checked.nets[net].as_str(), "0") {
        return Some(NetClass::Ground);
    }
    let (touched, by_power, _) = touch_flags(checked, net);
    if !touched {
        return None;
    }
    if supply_terminal(checked, net) {
        return Some(NetClass::Power);
    }
    let lower = checked.nets[net].as_str().to_ascii_lowercase();
    if matches_power_name(lower.as_str()) {
        Some(NetClass::Power)
    } else if matches_ground_name(lower.as_str()) {
        Some(NetClass::Ground)
    } else if by_power {
        Some(NetClass::Power)
    } else {
        Some(NetClass::Signal)
    }
}

/// Classifies every net of the table.
pub fn classify_nets(checked: &CheckedNetlist) -> (r: NetClassMap)
    ensures
        classes_of(checked, &r),
{
    let mut class: Vec<Option<NetClass>> = Vec::new();
    let mut net: usize = 0;
    while net < checked.nets.len()
        invariant
            net <= checked.nets@.len(),
            class@.len() == net,
            forall|j: int| 0 <= j < net ==> #[trigger] class@[j] == checked.class_of(j),
        decreases checked.nets@.len() - net,
    {
        class.push(classify_net(checked, net));
        net = net + 1;
    }
    NetClassMap { class }
}

/// The preferred side of every net of the table; `None` for signal nets.
#[must_use]
pub fn vertical_prefs(checked: &CheckedNetlist) -> (r: Vec<Option<VertPref>>)
    ensures
        r@.len() == checked.nets@.len(),
        forall|net: int|
            0 <= net < r@.len() ==> #[trigger] r@[net] == checked.vert_pref_of(net),
{
    let mut out: Vec<Option<VertPref>> = Vec::new();
    let mut net: usize = 0;
    while net < checked.nets.len()
        invariant
            net <= checked.nets@.len(),
            out@.len() == net,
            forall|j: int| 0 <= j < net ==> #[trigger] out@[j] == checked.vert_pref_of(j),
        decreases checked.nets@.len() - net,
    {
        let pref = match classify_net(checked, net) {
            Some(NetClass::Ground) => Some(VertPref::Down),
            Some(NetClass::Power) => {
                let lower = checked.nets[net].as_str().to_ascii_lowercase();
                let (_, _, negative) = touch_flags(checked, net);
                if matches_ground_name(lower.as_str()) || negative {
                    Some(VertPref::Down)
                } else {
                    Some(VertPref::Up)
                }
            },
            _ => None,
        };
        out.push(pref);
        net = net + 1;
    }
    out
}

/// Every net an element touches has a class, and the nets without one are the
/// untouched nets other than `0`.
pub proof fn every_touched_net_is_classified(checked: &CheckedNetlist, net: int)
    ensures
        checked.class_of(net) is None <==> !checked.touched(net) && !checked.is_reference(net),
{
}

/// Exactly the rail nets have a preferred side.
pub proof fn only_rails_have_a_preference(checked: &CheckedNetlist, net: int)
    ensures
        checked.vert_pref_of(net) is Some <==> checked.is_rail(net),
{
}

/// Ground and every net that a negative supply touches runs along the bottom,
/// whatever class the net has by name.
pub proof fn negative_rails_face_down(checked: &CheckedNetlist, net: int)
    ensures
        checked.class_of(net) == Some(NetClass::Ground) ==> checked.vert_pref_of(net) == Some(
            VertPref::Down,
        ),
        checked.touched_by_negative_power(net) ==> checked.vert_pref_of(net) == Some(
            VertPref::Down,
        ),
{
    if checked.touched_by_negative_power(net) {
        let i = choose|i: int|
            0 <= i < checked.elements@.len() && #[trigger] checked.touches(i, net)
                && checked.elements@[i].role.is_negative_power();
        assert(checked.touches(i, net) && checked.elements@[i].role.is_power());
    }
}

/// How a net is classed. Node `0` is ground. Of the nets that some element
/// touches, the first terminal of a supply is power; so is a net with one of
/// the names of a positive supply, while one with a name of ground or of a
/// negative supply is ground; so is, for want of a name, any other net that a
/// supply touches; and all the rest are signals. Letter case does not matter.
pub proof fn nets_are_classed_by_supply_and_name(checked: &CheckedNetlist, net: int)
    requires
        0 <= net < checked.nets@.len(),
    ensures
        ({
            let name = ascii_lower(checked.nets@[net]@);
            let touched = exists|i: int, t: int|
                0 <= i < checked.elements@.len() && 0 <= t < checked.elements@[i].nodes@.len()
                    && #[trigger] checked.elements@[i].nodes@[t] == net;
            let fed = exists|i: int|
                0 <= i < checked.elements@.len() && (#[trigger] checked.elements@[i]).role is Power
                    && checked.elements@[i].nodes@.len() > 0 && checked.elements@[i].nodes@[0]
                    == net;
            let supplied = exists|i: int, t: int|
                0 <= i < checked.elements@.len() && 0 <= t < checked.elements@[i].nodes@.len()
                    && #[trigger] checked.elements@[i].nodes@[t] == net
                    && checked.elements@[i].role is Power;
            let positive = name == "vcc"@ || name == "vdd"@ || name == "v+"@ || name == "vplus"@;
            let grounded = name == "gnd"@ || name == "vee"@ || name == "vss"@ || name == "v-"@
                || name == "vminus"@;
            if checked.nets@[net]@ == "0"@ {
                checked.class_of(net) == Some(NetClass::Ground)
            } else if !touched {
                checked.class_of(net) is None
            } else if fed || positive {
                checked.class_of(net) == Some(NetClass::Power)
            } else if grounded {
                checked.class_of(net) == Some(NetClass::Ground)
            } else if supplied {
                checked.class_of(net) == Some(NetClass::Power)
            } else {
                checked.class_of(net) == Some(NetClass::Signal)
            }
        }),
{
    if checked.touched(net) {
        let i = choose|i: int|
            0 <= i < checked.elements@.len() && #[trigger] checked.touches(i, net);
        let t = choose|t: int|
            0 <= t < checked.elements@[i].nodes@.len() && #[trigger] checked.elements@[i].nodes@[t]
                == net;
        assert(checked.elements@[i].nodes@[t] == net);
    }
    if checked.touched_by_power(net) {
        let i = choose|i: int|
            0 <= i < checked.elements@.len() && #[trigger] checked.touches(i, net)
                && checked.elements@[i].role.is_power();
        let t = choose|t: int|
            0 <= t < checked.elements@[i].nodes@.len() && #[trigger] checked.elements@[i].nodes@[t]
                == net;
        assert(checked.elements@[i].nodes@[t] == net);
    }
    assert forall|i: int, t: int|
        0 <= i < checked.elements@.len() && 0 <= t < checked.elements@[i].nodes@.len()
            && #[trigger] checked.elements@[i].nodes@[t] == net implies checked.touches(i, net) by {}
}

/// Which way a rail runs. Ground runs along the bottom; so does a supply with a
/// name of ground or of a negative supply, and one that a supply element of
/// negative voltage touches. Every other supply runs along the top, and no
/// other net has a side.
pub proof fn rails_run_above_and_below(checked: &CheckedNetlist, net: int)
    ensures
        ({
            let name = ascii_lower(checked.nets@[net]@);
            let grounded = name == "gnd"@ || name == "vee"@ || name == "vss"@ || name == "v-"@
                || name == "vminus"@;
            let negative = exists|i: int, t: int|
                0 <= i < checked.elements@.len() && 0 <= t < checked.elements@[i].nodes@.len()
                    && #[trigger] checked.elements@[i].nodes@[t] == net && (
                checked.elements@[i].role matches crate::netlist::ElementRole::Power(rail)
                    && crate::names::begins_negative(rail@));
            &&& checked.class_of(net) == Some(NetClass::Ground) ==> checked.vert_pref_of(net)
                == Some(VertPref::Down)
            &&& checked.class_of(net) == Some(NetClass::Power) && (grounded || negative)
                ==> checked.vert_pref_of(net) == Some(VertPref::Down)
            &&& checked.class_of(net) == Some(NetClass::Power) && !grounded && !negative
                ==> checked.vert_pref_of(net) == Some(VertPref::Up)
            &&& checked.class_of(net) == Some(NetClass::Signal) || checked.class_of(net) is None
                ==> checked.vert_pref_of(net) is None
        }),
{
    if checked.touched_by_negative_power(net) {
        let i = choose|i: int|
            0 <= i < checked.elements@.len() && #[trigger] checked.touches(i, net)
                && checked.elements@[i].role.is_negative_power();
        let t = choose|t: int|
            0 <= t < checked.elements@[i].nodes@.len() && #[trigger] checked.elements@[i].nodes@[t]
                == net;
        assert(checked.elements@[i].nodes@[t] == net);
    }
    assert forall|i: int, t: int|
        0 <= i < checked.elements@.len() && 0 <= t < checked.elements@[i].nodes@.len()
            && #[trigger] checked.elements@[i].nodes@[t] == net implies checked.touches(i, net) by {}
}

} // verus!
