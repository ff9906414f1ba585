//! The checked netlist the placer works on.
//!
//! Nets are named by strings in a source netlist. Here every net is an index
//! into one table of names that is strictly sorted, so that comparing two
//! indices orders the nets by name.

use vstd::prelude::*;

use crate::names::{lex_lt, str_eq, str_lt};
use crate::symbol::{find_pin, Orientation, Symbol};
#[allow(unused_imports)]
use crate::names::{lex_total, lex_transitive};
#[allow(unused_imports)]
use crate::symbol::pin_numbered;

verus! {

/// What an element is.
#[derive(Debug, Clone, Copy, PartialEq, Eq, Structural)]
pub enum ElementKind {
    Resistor,
    Capacitor,
    Inductor,
    Diode,
    Bjt,
    Mosfet,
    Jfet,
    Vcvs,
    Vccs,
    VoltageSrc,
    CurrentSrc,
    Other,
}

/// Whether an element is drawn as a component or stands for a supply rail,
/// given by its rail string (`"5V"`, `"-12V"`).
#[derive(Debug)]
pub enum ElementRole {
    Normal,
    Power(String),
}

impl ElementRole {
    /// The element is a supply rail.
    pub open spec fn is_power(self) -> bool {
        self is Power
    }

    /// The element is a supply rail whose rail string is negative.
    pub open spec fn is_negative_power(self) -> bool {
        self matches ElementRole::Power(rail) && crate::names::begins_negative(rail@)
    }

    /// Whether the element is a supply rail.
    pub fn power(&self) -> (r: bool)
        ensures
            r == self.is_power(),
    {
        match self {
            ElementRole::Power(_) => true,
            ElementRole::Normal => false,
        }
    }

    /// Whether the element is a supply rail with a negative rail string.
    pub fn negative_power(&self) -> (r: bool)
        ensures
            r == self.is_negative_power(),
    {
        match self {
            ElementRole::Power(rail) => crate::names::rail_is_negative(rail.as_str()),
            ElementRole::Normal => false,
        }
    }
}

/// Direction of a declared port.
#[derive(Debug, Clone, Copy, PartialEq, Eq, Structural)]
pub enum PortDir {
    Input,
    Output,
    Bidir,
}

/// Direction along which an alignment group runs.
#[derive(Debug, Clone, Copy, PartialEq, Eq, Structural)]
pub enum Axis {
    Horizontal,
    Vertical,
}

/// Where a placed element sits relative to its anchor.
#[derive(Debug, Clone, Copy, PartialEq, Eq, Structural)]
pub enum Relation {
    RightOf,
    LeftOf,
    Above,
    Below,
}

/// A declared port: a net and the direction of the signal on it.
#[derive(Debug, Clone, Copy, PartialEq, Eq, Structural)]
pub struct Port {
    pub net: usize,
    pub dir: PortDir,
}

/// One element of the netlist. `nodes` are net indices in terminal order and
/// `pin_mapping[i]` is the pin number that terminal `i` connects to.
#[derive(Debug)]
pub struct ResolvedElement {
    pub refdes: String,
    pub lib_id: String,
    pub kind: ElementKind,
    pub role: ElementRole,
    pub nodes: Vec<usize>,
    pub pin_mapping: Vec<String>,
    pub value: Option<String>,
    pub symbol: Symbol,
}

/// The first terminal from `k` on that is on the net.
pub open spec fn terminal_from(nodes: Seq<usize>, net: int, k: int) -> Option<int>
    decreases nodes.len() - k,
{
    if k < 0 || k >= nodes.len() {
        None
    } else if nodes[k] == net {
        Some(k)
    } else {
        terminal_from(nodes, net, k + 1)
    }
}

/// [`terminal_from`] is on the net, and no terminal before it is.
pub proof fn terminal_from_is_first(nodes: Seq<usize>, net: int, k: int)
    requires
        0 <= k,
    ensures
        match terminal_from(nodes, net, k) {
            Some(i) => {
                &&& k <= i < nodes.len()
                &&& nodes[i] == net
                &&& forall|j: int| k <= j < i ==> #[trigger] nodes[j] != net
            },
            None => forall|j: int| k <= j < nodes.len() ==> #[trigger] nodes[j] != net,
        },
    decreases nodes.len() - k,
{
    if k < nodes.len() {
        terminal_from_is_first(nodes, net, k + 1);
    }
}

/// The first terminal on the net.
pub fn first_terminal(nodes: &Vec<usize>, net: usize) -> (r: Option<usize>)
    ensures
        match r {
            Some(k) => k < nodes@.len() && nodes@[k as int] == net && terminal_from(
                nodes@,
                net as int,
                0,
            ) == Some(k as int),
            None => terminal_from(nodes@, net as int, 0) is None,
        },
{
    let mut k: usize = 0;
    while k < nodes.len()
        invariant
            k <= nodes@.len(),
            terminal_from(nodes@, net as int, 0) == terminal_from(nodes@, net as int, k as int),
        decreases nodes@.len() - k,
    {
        if nodes[k] == net {
            return Some(k);
        }
        k = k + 1;
    }
    None
}

impl ResolvedElement {
    /// The pin that terminal `t` connects to, as an index into the pins as
    /// drawn in pose `o`. There is none when the terminal has no mapped pin
    /// number or the symbol has no pin of that number.
    pub open spec fn pin_of(&self, o: Orientation, t: int) -> Option<int> {
        if 0 <= t < self.pin_mapping@.len() {
            pin_numbered(self.symbol.posed(o).pins@, self.pin_mapping@[t]@)
        } else {
            None
        }
    }

    /// The pin of the first terminal on the net.
    pub open spec fn pin_on(&self, o: Orientation, net: int) -> Option<int> {
        match terminal_from(self.nodes@, net, 0) {
            Some(t) => self.pin_of(o, t),
            None => None,
        }
    }

    /// The pin that terminal `t` connects to.
    pub fn terminal_pin(&self, o: Orientation, t: usize) -> (r: Option<usize>)
        requires
            self.symbol.wf(),
        ensures
            match r {
                Some(k) => k < self.symbol.posed(o).pins@.len() && self.pin_of(o, t as int) == Some(
                    k as int,
                ),
                None => self.pin_of(o, t as int) is None,
            },
    {
        if t < self.pin_mapping.len() {
            find_pin(self.symbol.pins_in(o), self.pin_mapping[t].as_str())
        } else {
            None
        }
    }

    /// The pin of the first terminal on the net.
    pub fn net_pin(&self, o: Orientation, net: usize) -> (r: Option<usize>)
        requires
            self.symbol.wf(),
        ensures
            match r {
                Some(k) => k < self.symbol.posed(o).pins@.len() && self.pin_on(o, net as int)
                    == Some(k as int),
                None => self.pin_on(o, net as int) is None,
            },
    {
        match first_terminal(&self.nodes, net) {
            Some(t) => self.terminal_pin(o, t),
            None => None,
        }
    }
}

/// The members of `refdes` share a row (`Horizontal`) or a column
/// (`Vertical`).
#[derive(Debug)]
pub struct AlignSpec {
    pub axis: Axis,
    pub refdes: Vec<String>,
}

/// `refdes` sits in the given relation to `anchor`.
#[derive(Debug)]
pub struct PlaceSpec {
    pub refdes: String,
    pub anchor: String,
    pub relation: Relation,
}

/// A hierarchical-sheet instance: the nets on its ports.
#[derive(Debug)]
pub struct SheetInstance {
    pub nodes: Vec<usize>,
}

/// The port nets of a sub-circuit definition, in declaration order.
#[derive(Debug)]
pub struct SubcktPorts {
    pub ports: Vec<usize>,
}

/// A netlist whose references have been resolved and checked.
#[derive(Debug)]
pub struct CheckedNetlist {
    /// Net names, strictly increasing.
    pub nets: Vec<String>,
    pub elements: Vec<ResolvedElement>,
    pub align: Vec<AlignSpec>,
    pub place: Vec<PlaceSpec>,
    pub ports: Vec<Port>,
    pub sheet_instances: Vec<SheetInstance>,
    pub subckts: Vec<SubcktPorts>,
}

/// The names are strictly increasing.
pub open spec fn sorted_names(nets: Seq<String>) -> bool {
    forall|i: int, j: int| 0 <= i < j < nets.len() ==> lex_lt(#[trigger] nets[i]@, #[trigger] nets[j]@)
}

/// Every entry is an index into a table of `n` nets.
pub open spec fn nets_in_range(nodes: Seq<usize>, n: nat) -> bool {
    forall|k: int| 0 <= k < nodes.len() ==> #[trigger] nodes[k] < n
}

impl CheckedNetlist {
    /// Names are sorted and every net index is in the table.
    pub open spec fn wf(&self) -> bool {
        &&& sorted_names(self.nets@)
        &&& forall|i: int|
            0 <= i < self.elements@.len() ==> nets_in_range(
                #[trigger] self.elements@[i].nodes@,
                self.nets@.len(),
            )
        &&& forall|i: int|
            0 <= i < self.ports@.len() ==> #[trigger] self.ports@[i].net < self.nets@.len()
        &&& forall|i: int|
            0 <= i < self.sheet_instances@.len() ==> nets_in_range(
                #[trigger] self.sheet_instances@[i].nodes@,
                self.nets@.len(),
            )
        &&& forall|i: int|
            0 <= i < self.subckts@.len() ==> nets_in_range(
                #[trigger] self.subckts@[i].ports@,
                self.nets@.len(),
            )
    }

    /// Some element has a terminal on the net.
    pub open spec fn touches(&self, i: int, net: int) -> bool {
        exists|k: int|
            0 <= k < self.elements@[i].nodes@.len() && #[trigger] self.elements@[i].nodes@[k] == net
    }

    /// The index of a net name, if the table holds it.
    pub fn net_id(&self, name: &str) -> (r: Option<usize>)
        ensures
            match r {
                Some(i) => i < self.nets@.len() && self.nets@[i as int]@ == name@,
                None => forall|i: int|
                    0 <= i < self.nets@.len() ==> #[trigger] self.nets@[i]@ != name@,
            },
    {
        find_name(&self.nets, name)
    }

    /// The last element with the given reference designator.
    pub open spec fn element_named(&self, refdes: Seq<char>) -> Option<int> {
        last_named(self.elements@, refdes, self.elements@.len() as int)
    }

    /// The index of the last element with the given reference designator.
    pub fn element_index(&self, refdes: &str) -> (r: Option<usize>)
        ensures
            match r {
                Some(i) => self.element_named(refdes@) == Some(i as int) && i
                    < self.elements@.len(),
                None => self.element_named(refdes@) is None,
            },
    {
        let mut i: usize = self.elements.len();
        while i > 0
            invariant
                i <= self.elements@.len(),
                self.element_named(refdes@) == last_named(self.elements@, refdes@, i as int),
            decreases i,
        {
            if str_eq(self.elements[i - 1].refdes.as_str(), refdes) {
                return Some(i - 1);
            }
            i = i - 1;
        }
        None
    }
}

/// The largest index below `n` whose element carries the designator.
pub open spec fn last_named(elements: Seq<ResolvedElement>, refdes: Seq<char>, n: int) -> Option<int>
    decreases n,
{
    if n <= 0 {
        None
    } else if elements[n - 1].refdes@ == refdes {
        Some(n - 1)
    } else {
        last_named(elements, refdes, n - 1)
    }
}

/// [`last_named`] is an occurrence, and nothing after it is one.
pub proof fn last_named_is_last(elements: Seq<ResolvedElement>, refdes: Seq<char>, n: int)
    requires
        n <= elements.len(),
    ensures
        match last_named(elements, refdes, n) {
            Some(i) => {
                &&& 0 <= i < n
                &&& elements[i].refdes@ == refdes
                &&& forall|j: int| i < j < n ==> #[trigger] elements[j].refdes@ != refdes
            },
            None => forall|j: int| 0 <= j < n ==> #[trigger] elements[j].refdes@ != refdes,
        },
    decreases n,
{
    if n > 0 {
        last_named_is_last(elements, refdes, n - 1);
    }
}

/// The position of a name in a list of names.
fn find_name(nets: &Vec<String>, name: &str) -> (r: Option<usize>)
    ensures
        match r {
            Some(i) => i < nets@.len() && nets@[i as int]@ == name@,
            None => forall|i: int| 0 <= i < nets@.len() ==> #[trigger] nets@[i]@ != name@,
        },
{
    let mut i: usize = 0;
    while i < nets.len()
        invariant
            i <= nets@.len(),
            forall|j: int| 0 <= j < i ==> #[trigger] nets@[j]@ != name@,
        decreases nets@.len() - i,
    {
        if str_eq(nets[i].as_str(), name) {
            return Some(i);
        }
        i = i + 1;
    }
    None
}

/// The list holds the name.
pub open spec fn has_name(nets: Seq<String>, name: Seq<char>) -> bool {
    exists|i: int| 0 <= i < nets.len() && #[trigger] nets[i]@ == name
}

/// Adds a name to a strictly sorted table, unless it is there already.
fn insert_name(nets: &mut Vec<String>, name: &String)
    requires
        sorted_names(old(nets)@),
    ensures
        sorted_names(final(nets)@),
        has_name(final(nets)@, name@),
        forall|s: Seq<char>|
            #[trigger] has_name(final(nets)@, s) <==> has_name(old(nets)@, s) || s == name@,
{
    let mut i: usize = 0;
    while i < nets.len() && str_lt(nets[i].as_str(), name.as_str())
        invariant
            i <= nets@.len(),
            nets@ == old(nets)@,
            forall|j: int| 0 <= j < i ==> lex_lt(#[trigger] nets@[j]@, name@),
        decreases nets@.len() - i,
    {
        i = i + 1;
    }
    if i < nets.len() && str_eq(nets[i].as_str(), name.as_str()) {
        assert(nets@[i as int]@ == name@);
        return ;
    }
    let copy: String = name.clone();
    let ghost before = nets@;
    proof {
        assert forall|j: int| i <= j < before.len() implies lex_lt(
            name@,
            #[trigger] before[j]@,
        ) by {
            lex_total(before[i as int]@, name@);
            if j > i {
                lex_transitive(name@, before[i as int]@, before[j]@);
            }
        }
    }
    nets.insert(i, copy);
    proof {
        let after = nets@;
        assert(after[i as int]@ == name@);
        assert forall|a: int, b: int| 0 <= a < b < after.len() implies lex_lt(
            #[trigger] after[a]@,
            #[trigger] after[b]@,
        ) by {
            if a < i {
                assert(after[a] == before[a]);
            } else if a > i {
                assert(after[a] == before[a - 1]);
            }
            if b < i {
                assert(after[b] == before[b]);
            } else if b > i {
                assert(after[b] == before[b - 1]);
            }
        }
        assert forall|s: Seq<char>| #[trigger] has_name(after, s) <==> has_name(before, s) || s
            == name@ by {
            if has_name(before, s) {
                let k = choose|k: int| 0 <= k < before.len() && #[trigger] before[k]@ == s;
                if k < i {
                    assert(after[k]@ == s);
                } else {
                    assert(after[k + 1]@ == s);
                }
            }
            if has_name(after, s) {
                let k = choose|k: int| 0 <= k < after.len() && #[trigger] after[k]@ == s;
                if k < i {
                    assert(before[k]@ == s);
                } else if k > i {
                    assert(before[k - 1]@ == s);
                }
            }
        }
    }
}

/// An element as a source netlist writes it, with nets by name.
#[derive(Debug)]
pub struct ElementDecl {
    pub refdes: String,
    pub lib_id: String,
    pub kind: ElementKind,
    pub role: ElementRole,
    pub nodes: Vec<String>,
    pub pin_mapping: Vec<String>,
    pub value: Option<String>,
    pub symbol: Symbol,
}

/// A port as a source netlist writes it.
#[derive(Debug)]
pub struct PortDecl {
    pub net: String,
    pub dir: PortDir,
}

/// A netlist as a source writes it, with nets by name.
#[derive(Debug)]
pub struct NetlistDecl {
    pub elements: Vec<ElementDecl>,
    pub align: Vec<AlignSpec>,
    pub place: Vec<PlaceSpec>,
    pub ports: Vec<PortDecl>,
    pub sheet_instances: Vec<Vec<String>>,
    pub subckts: Vec<Vec<String>>,
}

/// The declaration uses the net name: for a terminal, a port, a sheet pin or a
/// port of a subcircuit.
pub open spec fn uses_net(decl: NetlistDecl, s: Seq<char>) -> bool {
    ||| exists|i: int|
        0 <= i < decl.elements@.len() && has_name((#[trigger] decl.elements@[i]).nodes@, s)
    ||| exists|i: int| 0 <= i < decl.ports@.len() && (#[trigger] decl.ports@[i]).net@ == s
    ||| exists|i: int|
        0 <= i < decl.sheet_instances@.len() && has_name(
            (#[trigger] decl.sheet_instances@[i])@,
            s,
        )
    ||| exists|i: int|
        0 <= i < decl.subckts@.len() && has_name((#[trigger] decl.subckts@[i])@, s)
}

/// `ids` are the positions in the table of the names in `names`.
pub open spec fn names_resolved(nets: Seq<String>, names: Seq<String>, ids: Seq<usize>) -> bool {
    &&& ids.len() == names.len()
    &&& forall|k: int|
        0 <= k < ids.len() ==> (#[trigger] ids[k]) < nets.len() && nets[ids[k] as int]@
            == names[k]@
}

/// The element is the declaration with its net names resolved.
pub open spec fn element_resolved(
    nets: Seq<String>,
    decl: ElementDecl,
    e: ResolvedElement,
) -> bool {
    &&& e.refdes == decl.refdes
    &&& e.lib_id == decl.lib_id
    &&& e.kind == decl.kind
    &&& e.role == decl.role
    &&& e.pin_mapping == decl.pin_mapping
    &&& e.value == decl.value
    &&& e.symbol == decl.symbol
    &&& names_resolved(nets, decl.nodes@, e.nodes@)
}

fn insert_names(nets: &mut Vec<String>, names: &Vec<String>)
    requires
        sorted_names(old(nets)@),
    ensures
        sorted_names(final(nets)@),
        forall|s: Seq<char>|
            #[trigger] has_name(old(nets)@, s) ==> has_name(final(nets)@, s),
        forall|k: int|
            0 <= k < names@.len() ==> has_name(final(nets)@, #[trigger] names@[k]@),
        forall|s: Seq<char>| #[trigger]
            has_name(final(nets)@, s) ==> has_name(old(nets)@, s) || has_name(names@, s),
{
    let mut k: usize = 0;
    while k < names.len()
        invariant
            k <= names@.len(),
            sorted_names(nets@),
            forall|s: Seq<char>| #[trigger] has_name(old(nets)@, s) ==> has_name(nets@, s),
            forall|j: int| 0 <= j < k ==> has_name(nets@, #[trigger] names@[j]@),
            forall|s: Seq<char>| #[trigger]
                has_name(nets@, s) ==> has_name(old(nets)@, s) || has_name(names@, s),
        decreases names@.len() - k,
    {
        assert(has_name(names@, names@[k as int]@));
        insert_name(nets, &names[k]);
        k = k + 1;
    }
}

fn resolve_names(nets: &Vec<String>, names: &Vec<String>) -> (ids: Vec<usize>)
    requires
        forall|k: int| 0 <= k < names@.len() ==> has_name(nets@, #[trigger] names@[k]@),
    ensures
        names_resolved(nets@, names@, ids@),
{
    let mut ids: Vec<usize> = Vec::new();
    let mut k: usize = 0;
    while k < names.len()
        invariant
            k <= names@.len(),
            k == ids@.len(),
            forall|k: int| 0 <= k < names@.len() ==> has_name(nets@, #[trigger] names@[k]@),
            forall|j: int|
                0 <= j < k ==> (#[trigger] ids@[j]) < nets@.len() && nets@[ids@[j] as int]@
                    == names@[j]@,
        decreases names@.len() - k,
    {
        assert(has_name(nets@, names@[k as int]@));
        match find_name(nets, names[k].as_str()) {
            Some(i) => {
                ids.push(i);
            },
            None => {
                assert(false);
            },
        }
        k = k + 1;
    }
    ids
}

/// Interns every net name of a declaration: the table is sorted, holds no name
/// that the declaration does not use, and each terminal, port and sheet pin is
/// the index of the name it had.
pub fn resolve_netlist(decl: NetlistDecl) -> (r: CheckedNetlist)
    ensures
        r.wf(),
        forall|net: int|
            0 <= net < r.nets@.len() ==> uses_net(decl, (#[trigger] r.nets@[net])@),
        r.elements@.len() == decl.elements@.len(),
        forall|i: int|
            0 <= i < r.elements@.len() ==> element_resolved(
                r.nets@,
                decl.elements@[i],
                #[trigger] r.elements@[i],
            ),
        r.align == decl.align,
        r.place == decl.place,
        r.ports@.len() == decl.ports@.len(),
        forall|i: int|
            0 <= i < r.ports@.len() ==> (#[trigger] r.ports@[i]).dir == decl.ports@[i].dir
                && r.nets@[r.ports@[i].net as int]@ == decl.ports@[i].net@,
        r.sheet_instances@.len() == decl.sheet_instances@.len(),
        forall|i: int|
            0 <= i < r.sheet_instances@.len() ==> names_resolved(
                r.nets@,
                decl.sheet_instances@[i]@,
                (#[trigger] r.sheet_instances@[i]).nodes@,
            ),
        r.subckts@.len() == decl.subckts@.len(),
        forall|i: int|
            0 <= i < r.subckts@.len() ==> names_resolved(
                r.nets@,
                decl.subckts@[i]@,
                (#[trigger] r.subckts@[i]).ports@,
            ),
{
    let nets: Vec<String> = collect_names(&decl);
    let mut sheet_instances: Vec<SheetInstance> = Vec::new();
    let mut i: usize = 0;
    while i < decl.sheet_instances.len()
        invariant
            i <= decl.sheet_instances@.len(),
            i == sheet_instances@.len(),
            all_names_known(nets@, decl),
            forall|j: int|
                0 <= j < i ==> names_resolved(
                    nets@,
                    decl.sheet_instances@[j]@,
                    (#[trigger] sheet_instances@[j]).nodes@,
                ),
        decreases decl.sheet_instances@.len() - i,
    {
        sheet_instances.push(SheetInstance { nodes: resolve_names(&nets, &decl.sheet_instances[i]) });
        i = i + 1;
    }
    let mut subckts: Vec<SubcktPorts> = Vec::new();
    let mut i: usize = 0;
    while i < decl.subckts.len()
        invariant
            i <= decl.subckts@.len(),
            i == subckts@.len(),
            all_names_known(nets@, decl),
            forall|j: int|
                0 <= j < i ==> names_resolved(
                    nets@,
                    decl.subckts@[j]@,
                    (#[trigger] subckts@[j]).ports@,
                ),
        decreases decl.subckts@.len() - i,
    {
        subckts.push(SubcktPorts { ports: resolve_names(&nets, &decl.subckts[i]) });
        i = i + 1;
    }
    let mut ports: Vec<Port> = Vec::new();
    let mut i: usize = 0;
    while i < decl.ports.len()
        invariant
            i <= decl.ports@.len(),
            i == ports@.len(),
            all_names_known(nets@, decl),
            forall|j: int|
                0 <= j < i ==> (#[trigger] ports@[j]).dir == decl.ports@[j].dir && ports@[j].net
                    < nets@.len() && nets@[ports@[j].net as int]@ == decl.ports@[j].net@,
        decreases decl.ports@.len() - i,
    {
        match find_name(&nets, decl.ports[i].net.as_str()) {
            Some(net) => {
                ports.push(Port { net, dir: decl.ports[i].dir });
            },
            None => {
                assert(has_name(nets@, decl.ports@[i as int].net@));
            },
        }
        i = i + 1;
    }
    let ghost source = decl;
    let NetlistDecl { elements: mut declared, align, place, .. } = decl;
    let mut reversed: Vec<ResolvedElement> = Vec::new();
    let ghost total = declared@.len();
    while declared.len() > 0
        invariant
            declared@.len() + reversed@.len() == total,
            total == source.elements@.len(),
            all_names_known(nets@, source),
            forall|j: int| 0 <= j < declared@.len() ==> #[trigger] declared@[j] == source.elements@[j],
            forall|j: int|
                0 <= j < reversed@.len() ==> element_resolved(
                    nets@,
                    source.elements@[total - 1 - j],
                    #[trigger] reversed@[j],
                ),
        decreases declared@.len(),
    {
        match declared.pop() {
            Some(d) => {
                assert(d == source.elements@[declared@.len() as int]);
                let nodes: Vec<usize> = resolve_names(&nets, &d.nodes);
                reversed.push(
                    ResolvedElement {
                        refdes: d.refdes,
                        lib_id: d.lib_id,
                        kind: d.kind,
                        role: d.role,
                        nodes,
                        pin_mapping: d.pin_mapping,
                        value: d.value,
                        symbol: d.symbol,
                    },
                );
            },
            None => {},
        }
    }
    let mut elements: Vec<ResolvedElement> = Vec::new();
    while reversed.len() > 0
        invariant
            elements@.len() + reversed@.len() == total,
            total == source.elements@.len(),
            all_names_known(nets@, source),
            forall|j: int|
                0 <= j < reversed@.len() ==> element_resolved(
                    nets@,
                    source.elements@[total - 1 - j],
                    #[trigger] reversed@[j],
                ),
            forall|j: int|
                0 <= j < elements@.len() ==> element_resolved(
                    nets@,
                    source.elements@[j],
                    #[trigger] elements@[j],
                ),
        decreases reversed@.len(),
    {
        match reversed.pop() {
            Some(e) => {
                elements.push(e);
            },
            None => {},
        }
    }
    assert forall|net: int| 0 <= net < nets@.len() implies uses_net(
        source,
        (#[trigger] nets@[net])@,
    ) by {
        assert(has_name(nets@, nets@[net]@));
    }
    CheckedNetlist { nets, elements, align, place, ports, sheet_instances, subckts }
}

/// The table holds the net names that the declaration uses.
spec fn all_names_known(nets: Seq<String>, decl: NetlistDecl) -> bool {
    &&& sorted_names(nets)
    &&& forall|s: Seq<char>| #[trigger] has_name(nets, s) ==> uses_net(decl, s)
    &&& forall|i: int, k: int|
        0 <= i < decl.elements@.len() && 0 <= k < decl.elements@[i].nodes@.len() ==> has_name(
            nets,
            #[trigger] decl.elements@[i].nodes@[k]@,
        )
    &&& forall|i: int| 0 <= i < decl.ports@.len() ==> has_name(nets, #[trigger] decl.ports@[i].net@)
    &&& forall|i: int, k: int|
        0 <= i < decl.sheet_instances@.len() && 0 <= k < decl.sheet_instances@[i]@.len()
            ==> has_name(nets, #[trigger] decl.sheet_instances@[i]@[k]@)
    &&& forall|i: int, k: int|
        0 <= i < decl.subckts@.len() && 0 <= k < decl.subckts@[i]@.len() ==> has_name(
            nets,
            #[trigger] decl.subckts@[i]@[k]@,
        )
}

fn collect_names(decl: &NetlistDecl) -> (nets: Vec<String>)
    ensures
        all_names_known(nets@, *decl),
{
    let mut nets: Vec<String> = Vec::new();
    let mut i: usize = 0;
    while i < decl.elements.len()
        invariant
            i <= decl.elements@.len(),
            sorted_names(nets@),
            forall|s: Seq<char>| #[trigger] has_name(nets@, s) ==> uses_net(*decl, s),
            forall|j: int, k: int|
                0 <= j < i && 0 <= k < decl.elements@[j].nodes@.len() ==> has_name(
                    nets@,
                    #[trigger] decl.elements@[j].nodes@[k]@,
                ),
        decreases decl.elements@.len() - i,
    {
        insert_names(&mut nets, &decl.elements[i].nodes);
        i = i + 1;
    }
    let mut i: usize = 0;
    while i < decl.ports.len()
        invariant
            i <= decl.ports@.len(),
            sorted_names(nets@),
            forall|s: Seq<char>| #[trigger] has_name(nets@, s) ==> uses_net(*decl, s),
            forall|j: int, k: int|
                0 <= j < decl.elements@.len() && 0 <= k < decl.elements@[j].nodes@.len()
                    ==> has_name(nets@, #[trigger] decl.elements@[j].nodes@[k]@),
            forall|j: int| 0 <= j < i ==> has_name(nets@, #[trigger] decl.ports@[j].net@),
        decreases decl.ports@.len() - i,
    {
        insert_name(&mut nets, &decl.ports[i].net);
        i = i + 1;
    }
    let mut i: usize = 0;
    while i < decl.sheet_instances.len()
        invariant
            i <= decl.sheet_instances@.len(),
            sorted_names(nets@),
            forall|s: Seq<char>| #[trigger] has_name(nets@, s) ==> uses_net(*decl, s),
            forall|j: int, k: int|
                0 <= j < decl.elements@.len() && 0 <= k < decl.elements@[j].nodes@.len()
                    ==> has_name(nets@, #[trigger] decl.elements@[j].nodes@[k]@),
            forall|j: int|
                0 <= j < decl.ports@.len() ==> has_name(nets@, #[trigger] decl.ports@[j].net@),
            forall|j: int, k: int|
                0 <= j < i && 0 <= k < decl.sheet_instances@[j]@.len() ==> has_name(
                    nets@,
                    #[trigger] decl.sheet_instances@[j]@[k]@,
                ),
        decreases decl.sheet_instances@.len() - i,
    {
        insert_names(&mut nets, &decl.sheet_instances[i]);
        i = i + 1;
    }
    let mut i: usize = 0;
    while i < decl.subckts.len()
        invariant
            i <= decl.subckts@.len(),
            sorted_names(nets@),
            forall|s: Seq<char>| #[trigger] has_name(nets@, s) ==> uses_net(*decl, s),
            forall|j: int, k: int|
                0 <= j < decl.elements@.len() && 0 <= k < decl.elements@[j].nodes@.len()
                    ==> has_name(nets@, #[trigger] decl.elements@[j].nodes@[k]@),
            forall|j: int|
                0 <= j < decl.ports@.len() ==> has_name(nets@, #[trigger] decl.ports@[j].net@),
            forall|j: int, k: int|
                0 <= j < decl.sheet_instances@.len() && 0 <= k < decl.sheet_instances@[j]@.len()
                    ==> has_name(nets@, #[trigger] decl.sheet_instances@[j]@[k]@),
            forall|j: int, k: int|
                0 <= j < i && 0 <= k < decl.subckts@[j]@.len() ==> has_name(
                    nets@,
                    #[trigger] decl.subckts@[j]@[k]@,
                ),
        decreases decl.subckts@.len() - i,
    {
        insert_names(&mut nets, &decl.subckts[i]);
        i = i + 1;
    }
    nets
}

} // verus!
