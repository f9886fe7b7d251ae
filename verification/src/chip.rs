//! Chip model and evaluation engine.
//!
//! A chip is a named entity with three disjoint named pinline sets (`input`,
//! `internal`, `output`) and a list of child instances with wiring.  A chip is
//! either builtin (semantics by identity) or composite (semantics from its
//! children).  Pin values are the only mutable state; the shape of a chip is
//! frozen once constructed.

use vstd::prelude::*;

verus! {

broadcast use vstd::std_specs::vec::axiom_vec_index_decreases, vstd::seq::axiom_seq_index_decreases;

pub type Pin = bool;

pub type Pinlines = Vec<Pinline>;

/// A named fixed-width bus of boolean pins.
#[derive(Debug, PartialEq)]
pub struct Pinline {
    pub name: String,
    pub pins: Vec<Pin>,
}

/// The three pinline sets of a chip.
#[derive(Debug)]
pub struct ChipPinlines {
    pub input: Pinlines,
    pub internal: Pinlines,
    pub output: Pinlines,
}

/// One endpoint of a connection: a pinline name plus selected pin indices.
#[derive(Debug)]
pub struct PinlineConnection {
    pub name: String,
    pub indices: Vec<usize>,
}

/// A single child-pinline-to-parent-pinline mapping.  `own` addresses a
/// pinline of the child, `foreign` a pinline of the parent.
#[derive(Debug)]
pub struct ChildConnection {
    pub own: PinlineConnection,
    pub foreign: PinlineConnection,
}

/// A child instance: an inner chip plus its wiring, partitioned into
/// connections that feed the child's inputs and connections that carry its
/// outputs back to the parent.
#[derive(Debug)]
pub struct Child {
    pub chip: Chip,
    pub input_connections: Vec<ChildConnection>,
    pub output_connections: Vec<ChildConnection>,
}

/// The builtin chips, whose semantics are primitive.
#[derive(Debug, Clone, Copy, PartialEq, Eq, Structural)]
pub enum BuiltinChips {
    Nand,
    Not,
    DFF,
    Mux,
    Bit,
}

/// A chip: named pinline sets, children, a clocked flag, and an optional
/// builtin identity.  Builtin chips have no children; composite chips have at
/// least one.
#[derive(Debug)]
pub struct Chip {
    pub name: String,
    pub pinlines: ChipPinlines,
    pub parts: Vec<Child>,
    pub clocked: bool,
    pub builtin_id: Option<BuiltinChips>,
}

// ============================================================================
// Mathematical views
// ============================================================================

#[verifier::ext_equal]
pub ghost struct PinlineV {
    pub name: Seq<char>,
    pub pins: Seq<bool>,
}

#[verifier::ext_equal]
pub ghost struct PinlineConnectionV {
    pub name: Seq<char>,
    pub indices: Seq<usize>,
}

#[verifier::ext_equal]
pub ghost struct ConnectionV {
    pub own: PinlineConnectionV,
    pub foreign: PinlineConnectionV,
}

#[verifier::ext_equal]
pub ghost struct ChildV {
    pub chip: ChipV,
    pub input_connections: Seq<ConnectionV>,
    pub output_connections: Seq<ConnectionV>,
}

#[verifier::ext_equal]
pub ghost struct ChipV {
    pub name: Seq<char>,
    pub input: Seq<PinlineV>,
    pub internal: Seq<PinlineV>,
    pub output: Seq<PinlineV>,
    pub parts: Seq<ChildV>,
    pub clocked: bool,
    pub builtin_id: Option<BuiltinChips>,
}

impl View for Pinline {
    type V = PinlineV;

    open spec fn view(&self) -> PinlineV {
        PinlineV { name: self.name@, pins: self.pins@ }
    }
}

impl View for PinlineConnection {
    type V = PinlineConnectionV;

    open spec fn view(&self) -> PinlineConnectionV {
        PinlineConnectionV { name: self.name@, indices: self.indices@ }
    }
}

impl View for ChildConnection {
    type V = ConnectionV;

    open spec fn view(&self) -> ConnectionV {
        ConnectionV { own: self.own@, foreign: self.foreign@ }
    }
}

pub open spec fn pls_view(v: Vec<Pinline>) -> Seq<PinlineV> {
    Seq::new(v@.len(), |i: int| v@[i]@)
}

pub open spec fn conns_view(v: Vec<ChildConnection>) -> Seq<ConnectionV> {
    Seq::new(v@.len(), |i: int| v@[i]@)
}

pub open spec fn chip_view(c: Chip) -> ChipV
    decreases c,
{
    ChipV {
        name: c.name@,
        input: pls_view(c.pinlines.input),
        internal: pls_view(c.pinlines.internal),
        output: pls_view(c.pinlines.output),
        parts: parts_view(c.parts@, c.parts@.len() as int),
        clocked: c.clocked,
        builtin_id: c.builtin_id,
    }
}

pub open spec fn parts_view(v: Seq<Child>, n: int) -> Seq<ChildV>
    decreases v, n,
{
    if n <= 0 || n > v.len() {
        Seq::empty()
    } else {
        parts_view(v, n - 1).push(child_view(v[n - 1]))
    }
}

pub open spec fn child_view(c: Child) -> ChildV
    decreases c,
{
    ChildV {
        chip: chip_view(c.chip),
        input_connections: conns_view(c.input_connections),
        output_connections: conns_view(c.output_connections),
    }
}

impl View for Chip {
    type V = ChipV;

    open spec fn view(&self) -> ChipV {
        chip_view(*self)
    }
}

impl View for Child {
    type V = ChildV;

    open spec fn view(&self) -> ChildV {
        child_view(*self)
    }
}

impl View for ChipPinlines {
    type V = (Seq<PinlineV>, Seq<PinlineV>, Seq<PinlineV>);

    open spec fn view(&self) -> (Seq<PinlineV>, Seq<PinlineV>, Seq<PinlineV>) {
        (pls_view(self.input), pls_view(self.internal), pls_view(self.output))
    }
}

// ============================================================================
// Name lookup
// ============================================================================

/// Index of the first pinline at or after `i` whose name is `name`, or -1.
pub open spec fn find_pl_from(pls: Seq<PinlineV>, name: Seq<char>, i: int) -> int
    decreases pls.len() - i,
{
    if i < 0 || i >= pls.len() {
        -1
    } else if pls[i].name == name {
        i
    } else {
        find_pl_from(pls, name, i + 1)
    }
}

/// Index of the first pinline named `name`, or -1 when there is none.
pub open spec fn find_pl(pls: Seq<PinlineV>, name: Seq<char>) -> int {
    find_pl_from(pls, name, 0)
}

pub open spec fn has_pl(pls: Seq<PinlineV>, name: Seq<char>) -> bool {
    find_pl(pls, name) >= 0
}

pub proof fn lemma_find_pl_from(pls: Seq<PinlineV>, name: Seq<char>, i: int)
    requires
        0 <= i <= pls.len(),
    ensures
        ({
            let r = find_pl_from(pls, name, i);
            &&& -1 <= r < pls.len()
            &&& r >= 0 ==> i <= r && pls[r].name == name && (forall|j: int|
                i <= j < r ==> pls[j].name != name)
            &&& r < 0 ==> forall|j: int| i <= j < pls.len() ==> pls[j].name != name
        }),
    decreases pls.len() - i,
{
    if i < pls.len() && pls[i].name != name {
        lemma_find_pl_from(pls, name, i + 1);
    }
}

/// The characterisation of `find_pl`: it returns the least index holding the
/// name, or -1 exactly when the name is absent.
pub proof fn lemma_find_pl(pls: Seq<PinlineV>, name: Seq<char>)
    ensures
        ({
            let r = find_pl(pls, name);
            &&& -1 <= r < pls.len()
            &&& r >= 0 ==> pls[r].name == name && (forall|j: int|
                0 <= j < r ==> pls[j].name != name)
            &&& r < 0 ==> forall|j: int| 0 <= j < pls.len() ==> pls[j].name != name
        }),
{
    lemma_find_pl_from(pls, name, 0);
}

// ============================================================================
// Well-formedness
// ============================================================================

pub open spec fn names_unique(pls: Seq<PinlineV>) -> bool {
    forall|i: int, j: int| 0 <= i < j < pls.len() ==> pls[i].name != pls[j].name
}

/// Every selected pin index of `ep` addresses a pin of a bus of width `w`.
pub open spec fn indices_in_range(ep: PinlineConnectionV, w: int) -> bool {
    forall|k: int| 0 <= k < ep.indices.len() ==> (ep.indices[k] as int) < w
}

/// The conditions under which driving one connection into a child input
/// pinline set `cin` is well defined: the own endpoint names a pinline of
/// `cin` whose declared width equals the endpoint's fan-out, the foreign
/// endpoint names a pinline of `pin + pint`, both endpoints select the same
/// number of pins, and every index is in range.  A foreign name that falls in
/// the internal set names a derived pinline, whose width the connection's
/// fan-out must agree with.
pub open spec fn send_conn_ok(
    pin: Seq<PinlineV>,
    pint: Seq<PinlineV>,
    cin: Seq<PinlineV>,
    conn: ConnectionV,
) -> bool {
    let oi = find_pl(cin, conn.own.name);
    let all = pin + pint;
    let fi = find_pl(all, conn.foreign.name);
    &&& conn.own.indices.len() == conn.foreign.indices.len()
    &&& 0 <= oi
    &&& cin[oi].pins.len() == conn.own.indices.len()
    &&& indices_in_range(conn.own, conn.own.indices.len() as int)
    &&& 0 <= fi
    &&& indices_in_range(conn.foreign, all[fi].pins.len() as int)
    &&& fi >= pin.len() ==> all[fi].pins.len() == conn.foreign.indices.len()
}

/// The conditions under which receiving one connection from a child output
/// pinline set `cout` is well defined: the own endpoint names a pinline of
/// `cout`, the foreign endpoint names a pinline of `pint + pout` whose
/// declared width equals the endpoint's fan-out, both endpoints select the
/// same number of pins, and every index is in range.
pub open spec fn recv_conn_ok(
    pint: Seq<PinlineV>,
    pout: Seq<PinlineV>,
    cout: Seq<PinlineV>,
    conn: ConnectionV,
) -> bool {
    let oi = find_pl(cout, conn.own.name);
    let all = pint + pout;
    let fi = find_pl(all, conn.foreign.name);
    &&& conn.own.indices.len() == conn.foreign.indices.len()
    &&& 0 <= oi
    &&& indices_in_range(conn.own, cout[oi].pins.len() as int)
    &&& 0 <= fi
    &&& all[fi].pins.len() == conn.foreign.indices.len()
    &&& indices_in_range(conn.foreign, conn.foreign.indices.len() as int)
}

/// A connection that feeds a child input pinline is well formed with respect
/// to the child and the parent's input and internal pinlines.
pub open spec fn input_conn_wf(
    conn: ConnectionV,
    child: ChipV,
    pin: Seq<PinlineV>,
    pint: Seq<PinlineV>,
) -> bool {
    send_conn_ok(pin, pint, child.input, conn)
}

/// A connection that carries a child output pinline back to the parent is
/// well formed with respect to the child and the parent's internal and output
/// pinlines.
pub open spec fn output_conn_wf(
    conn: ConnectionV,
    child: ChipV,
    pint: Seq<PinlineV>,
    pout: Seq<PinlineV>,
) -> bool {
    recv_conn_ok(pint, pout, child.output, conn)
}

pub open spec fn child_wf(
    pin: Seq<PinlineV>,
    pint: Seq<PinlineV>,
    pout: Seq<PinlineV>,
    child: ChildV,
) -> bool
    decreases child,
{
    &&& chip_wf(child.chip)
    &&& forall|i: int|
        0 <= i < child.input_connections.len() ==> input_conn_wf(
            #[trigger] child.input_connections[i],
            child.chip,
            pin,
            pint,
        )
    &&& forall|i: int|
        0 <= i < child.output_connections.len() ==> output_conn_wf(
            #[trigger] child.output_connections[i],
            child.chip,
            pint,
            pout,
        )
}

pub open spec fn builtin_clocked(id: BuiltinChips) -> bool {
    id == BuiltinChips::DFF || id == BuiltinChips::Bit
}

pub open spec fn one_pl(name: Seq<char>) -> PinlineV {
    PinlineV { name, pins: seq![false] }
}

/// The fixed pinline layout each builtin chip is constructed with: the names
/// and the widths are part of the builtin's identity.  All pins start false.
pub open spec fn builtin_layout(id: BuiltinChips) -> ChipV {
    match id {
        BuiltinChips::Nand => ChipV {
            name: "Nand"@,
            input: seq![one_pl("a"@), one_pl("b"@)],
            internal: Seq::empty(),
            output: seq![one_pl("out"@)],
            parts: Seq::empty(),
            clocked: false,
            builtin_id: Some(BuiltinChips::Nand),
        },
        BuiltinChips::Not => ChipV {
            name: "Not"@,
            input: seq![one_pl("in"@)],
            internal: Seq::empty(),
            output: seq![one_pl("out"@)],
            parts: Seq::empty(),
            clocked: false,
            builtin_id: Some(BuiltinChips::Not),
        },
        BuiltinChips::DFF => ChipV {
            name: "DFF"@,
            input: seq![one_pl("in"@)],
            internal: seq![one_pl("buf0"@), one_pl("buf1"@)],
            output: seq![one_pl("out"@)],
            parts: Seq::empty(),
            clocked: true,
            builtin_id: Some(BuiltinChips::DFF),
        },
        BuiltinChips::Mux => ChipV {
            name: "Mux"@,
            input: seq![one_pl("a"@), one_pl("b"@), one_pl("sel"@)],
            internal: Seq::empty(),
            output: seq![one_pl("out"@)],
            parts: Seq::empty(),
            clocked: false,
            builtin_id: Some(BuiltinChips::Mux),
        },
        BuiltinChips::Bit => ChipV {
            name: "Bit"@,
            input: seq![one_pl("in"@), one_pl("load"@)],
            internal: seq![one_pl("buf0"@), one_pl("buf1"@)],
            output: seq![one_pl("out"@)],
            parts: Seq::empty(),
            clocked: true,
            builtin_id: Some(BuiltinChips::Bit),
        },
    }
}

pub open spec fn pls_shape_eq(a: Seq<PinlineV>, b: Seq<PinlineV>) -> bool {
    &&& a.len() == b.len()
    &&& forall|i: int|
        0 <= i < a.len() ==> (#[trigger] a[i]).name == b[i].name && a[i].pins.len()
            == b[i].pins.len()
}

/// A builtin chip has the names and widths of its fixed layout (its pin
/// values are free to differ).
pub open spec fn builtin_shape(c: ChipV, id: BuiltinChips) -> bool {
    let l = builtin_layout(id);
    &&& pls_shape_eq(c.input, l.input)
    &&& pls_shape_eq(c.internal, l.internal)
    &&& pls_shape_eq(c.output, l.output)
}

/// Well-formedness of a chip: pinline names are unique across the three sets;
/// a builtin chip has no children, its fixed layout and its fixed clockedness;
/// a composite chip has children, is clocked exactly when some child is, and
/// all its connections are well formed.
pub open spec fn chip_wf(c: ChipV) -> bool
    decreases c,
{
    &&& names_unique(c.input + c.internal + c.output)
    &&& match c.builtin_id {
        Some(id) => {
            &&& c.parts.len() == 0
            &&& builtin_shape(c, id)
            &&& c.clocked == builtin_clocked(id)
        },
        None => {
            &&& c.parts.len() > 0
            &&& (c.clocked <==> exists|i: int|
                0 <= i < c.parts.len() && (#[trigger] c.parts[i]).chip.clocked)
            &&& forall|i: int|
                0 <= i < c.parts.len() ==> child_wf(
                    c.input,
                    c.internal,
                    c.output,
                    #[trigger] c.parts[i],
                )
        },
    }
}

// ============================================================================
// Projection and wiring, as spec functions
// ============================================================================

pub open spec fn blank_pins(n: nat) -> Seq<bool> {
    Seq::new(n, |i: int| false)
}

/// Apply the first `k` index pairs of a connection: pin `di[t]` of the result
/// receives pin `si[t]` of `src`, later pairs overriding earlier ones.
pub open spec fn apply_indices(
    dst: Seq<bool>,
    src: Seq<bool>,
    di: Seq<usize>,
    si: Seq<usize>,
    k: int,
) -> Seq<bool>
    decreases k,
{
    if k <= 0 {
        dst
    } else {
        apply_indices(dst, src, di, si, k - 1).update(
            di[k - 1] as int,
            src[si[k - 1] as int],
        )
    }
}

/// Project a parent pinline onto a child input pinline: the result carries the
/// own endpoint's name, has one pin per selected own index, receives the
/// selected foreign pins, and holds false at unaddressed positions.
pub open spec fn project_to_own(src: PinlineV, conn: ConnectionV) -> PinlineV {
    PinlineV {
        name: conn.own.name,
        pins: apply_indices(
            blank_pins(conn.own.indices.len()),
            src.pins,
            conn.own.indices,
            conn.foreign.indices,
            conn.own.indices.len() as int,
        ),
    }
}

/// The mirror of `project_to_own`: project a child output pinline onto a
/// parent pinline named by the foreign endpoint.
pub open spec fn project_to_foreign(src: PinlineV, conn: ConnectionV) -> PinlineV {
    PinlineV {
        name: conn.foreign.name,
        pins: apply_indices(
            blank_pins(conn.foreign.indices.len()),
            src.pins,
            conn.foreign.indices,
            conn.own.indices,
            conn.foreign.indices.len() as int,
        ),
    }
}

/// Replace the pins of the pinline named `name`, when present.
pub open spec fn set_pins_spec(
    pls: Seq<PinlineV>,
    name: Seq<char>,
    pins: Seq<bool>,
) -> Seq<PinlineV> {
    let i = find_pl(pls, name);
    if i >= 0 {
        pls.update(i, PinlineV { name: pls[i].name, pins })
    } else {
        pls
    }
}

/// The child chip after one input connection has been driven from the
/// parent's input and internal pinlines.
pub open spec fn send_conn(
    pin: Seq<PinlineV>,
    pint: Seq<PinlineV>,
    chip: ChipV,
    conn: ConnectionV,
) -> ChipV {
    let all = pin + pint;
    let fi = find_pl(all, conn.foreign.name);
    let pl = project_to_own(all[fi], conn);
    ChipV { input: set_pins_spec(chip.input, pl.name, pl.pins), ..chip }
}

/// The child chip after its first `k` input connections have been driven.
pub open spec fn send_all(
    pin: Seq<PinlineV>,
    pint: Seq<PinlineV>,
    chip: ChipV,
    conns: Seq<ConnectionV>,
    k: int,
) -> ChipV
    decreases k,
{
    if k <= 0 {
        chip
    } else {
        send_conn(pin, pint, send_all(pin, pint, chip, conns, k - 1), conns[k - 1])
    }
}

pub open spec fn child_after_send(
    pin: Seq<PinlineV>,
    pint: Seq<PinlineV>,
    child: ChildV,
) -> ChipV {
    send_all(pin, pint, child.chip, child.input_connections, child.input_connections.len() as int)
}

/// The parent's internal and output pinlines after one output connection has
/// been received from the child's output pinlines.
pub open spec fn recv_conn(
    pint: Seq<PinlineV>,
    pout: Seq<PinlineV>,
    child_out: Seq<PinlineV>,
    conn: ConnectionV,
) -> (Seq<PinlineV>, Seq<PinlineV>) {
    let oi = find_pl(child_out, conn.own.name);
    let pl = project_to_foreign(child_out[oi], conn);
    let all = pint + pout;
    let fi = find_pl(all, conn.foreign.name);
    if fi < pint.len() {
        (pint.update(fi, pl), pout)
    } else {
        (pint, pout.update(fi - pint.len(), pl))
    }
}

/// The parent's internal and output pinlines after the first `k` output
/// connections of a child have been received.
pub open spec fn recv_all(
    pint: Seq<PinlineV>,
    pout: Seq<PinlineV>,
    child_out: Seq<PinlineV>,
    conns: Seq<ConnectionV>,
    k: int,
) -> (Seq<PinlineV>, Seq<PinlineV>)
    decreases k,
{
    if k <= 0 {
        (pint, pout)
    } else {
        let prev = recv_all(pint, pout, child_out, conns, k - 1);
        recv_conn(prev.0, prev.1, child_out, conns[k - 1])
    }
}

// ============================================================================
// Builtin semantics, as spec functions
// ============================================================================

pub open spec fn pin0(pls: Seq<PinlineV>, i: int) -> bool {
    pls[i].pins[0]
}

pub open spec fn set_pin0(pls: Seq<PinlineV>, i: int, b: bool) -> Seq<PinlineV> {
    pls.update(i, PinlineV { name: pls[i].name, pins: pls[i].pins.update(0, b) })
}

/// Combinational semantics of the unclocked builtins; clocked builtins are
/// left unchanged (evaluating them is ruled out by precondition).
pub open spec fn builtin_eval(c: ChipV) -> ChipV {
    match c.builtin_id {
        Some(BuiltinChips::Nand) => ChipV {
            output: set_pin0(c.output, 0, !(pin0(c.input, 0) && pin0(c.input, 1))),
            ..c
        },
        Some(BuiltinChips::Not) => ChipV {
            output: set_pin0(c.output, 0, !pin0(c.input, 0)),
            ..c
        },
        Some(BuiltinChips::Mux) => ChipV {
            output: set_pin0(
                c.output,
                0,
                if pin0(c.input, 2) {
                    pin0(c.input, 1)
                } else {
                    pin0(c.input, 0)
                },
            ),
            ..c
        },
        _ => c,
    }
}

/// Tick semantics of the clocked builtins: the second buffer latches the
/// first, and the first captures the input (for Bit, only under load).
pub open spec fn builtin_tick(c: ChipV) -> ChipV {
    match c.builtin_id {
        Some(BuiltinChips::DFF) => {
            let shifted = set_pin0(c.internal, 1, pin0(c.internal, 0));
            ChipV { internal: set_pin0(shifted, 0, pin0(c.input, 0)), ..c }
        },
        Some(BuiltinChips::Bit) => {
            let shifted = set_pin0(c.internal, 1, pin0(c.internal, 0));
            if pin0(c.input, 1) {
                ChipV { internal: set_pin0(shifted, 0, pin0(c.input, 0)), ..c }
            } else {
                ChipV { internal: shifted, ..c }
            }
        },
        _ => c,
    }
}

/// Tock semantics of the clocked builtins: the output exposes the second
/// buffer, the value captured before the most recent tick.
pub open spec fn builtin_tock(c: ChipV) -> ChipV {
    match c.builtin_id {
        Some(BuiltinChips::DFF) | Some(BuiltinChips::Bit) => ChipV {
            output: set_pin0(c.output, 0, pin0(c.internal, 1)),
            ..c
        },
        _ => c,
    }
}

// ============================================================================
// Structure: what evaluation never changes
// ============================================================================

/// Two chips share a structure when they differ at most in pin values.
pub open spec fn same_structure(a: ChipV, b: ChipV) -> bool
    decreases a,
{
    &&& a.name == b.name
    &&& a.clocked == b.clocked
    &&& a.builtin_id == b.builtin_id
    &&& pls_shape_eq(a.input, b.input)
    &&& pls_shape_eq(a.internal, b.internal)
    &&& pls_shape_eq(a.output, b.output)
    &&& a.parts.len() == b.parts.len()
    &&& forall|i: int|
        0 <= i < a.parts.len() ==> child_same_structure(#[trigger] a.parts[i], b.parts[i])
}

pub open spec fn child_same_structure(a: ChildV, b: ChildV) -> bool
    decreases a,
{
    &&& same_structure(a.chip, b.chip)
    &&& a.input_connections == b.input_connections
    &&& a.output_connections == b.output_connections
}

/// Nesting depth of a chip; the measure that bounds evaluation's recursion.
pub open spec fn cdepth(c: ChipV) -> nat
    decreases c, 0int,
{
    1 + pdepth(c.parts, c.parts.len() as int)
}

pub open spec fn pdepth(parts: Seq<ChildV>, n: int) -> nat
    decreases parts, n,
{
    if n <= 0 || n > parts.len() {
        0
    } else {
        let a = pdepth(parts, n - 1);
        let b = cdepth(parts[n - 1].chip);
        if a >= b {
            a
        } else {
            b
        }
    }
}

// ============================================================================
// Evaluation, tick and tock, as spec functions
//
// Each function takes the chip twice: `shape` only bounds the recursion and is
// structurally equal to the state `c` wherever the result matters; `c` is the
// chip whose pins are being computed.
// ============================================================================

/// The chip after `evaluate`: builtins compute directly; a composite drives,
/// evaluates and reads back every child in declared order.
pub open spec fn eval_spec(shape: ChipV, c: ChipV) -> ChipV
    decreases shape, 1int, 0int,
{
    if c.builtin_id is Some {
        builtin_eval(c)
    } else if c.parts.len() == shape.parts.len() {
        comb_pass(shape, c, c.parts.len() as int)
    } else {
        c
    }
}

/// One combinational pass: for each of the first `n` children that is
/// unclocked, in order, send its inputs, evaluate it, and receive its outputs.
pub open spec fn comb_pass(shape: ChipV, c: ChipV, n: int) -> ChipV
    decreases shape, 0int, n,
{
    if n <= 0 || c.parts.len() != shape.parts.len() || n > c.parts.len() {
        c
    } else {
        let c1 = comb_pass(shape, c, n - 1);
        if n - 1 < c1.parts.len() && !c1.parts[n - 1].chip.clocked {
            let child = c1.parts[n - 1];
            let sent = child_after_send(c1.input, c1.internal, child);
            let done = eval_spec(shape.parts[n - 1].chip, sent);
            let rec = recv_all(
                c1.internal,
                c1.output,
                done.output,
                child.output_connections,
                child.output_connections.len() as int,
            );
            ChipV {
                internal: rec.0,
                output: rec.1,
                parts: c1.parts.update(n - 1, ChildV { chip: done, ..child }),
                ..c1
            }
        } else {
            c1
        }
    }
}

/// The chip after `read_input` (tick): unclocked children stabilise first,
/// then every clocked child receives its inputs and ticks.  No parent output
/// changes during tick beyond that stabilisation.
pub open spec fn tick_spec(shape: ChipV, c: ChipV) -> ChipV
    decreases shape, 2int, 0int,
{
    if c.builtin_id is Some {
        builtin_tick(c)
    } else if c.parts.len() == shape.parts.len() {
        let stable = comb_pass(shape, c, c.parts.len() as int);
        tick_pass(shape, stable, stable.parts.len() as int)
    } else {
        c
    }
}

/// The clocked half of tick: for each of the first `n` children that is
/// clocked, in order, send its inputs and tick it; nothing is received.
pub open spec fn tick_pass(shape: ChipV, c: ChipV, n: int) -> ChipV
    decreases shape, 1int, n,
{
    if n <= 0 || c.parts.len() != shape.parts.len() || n > c.parts.len() {
        c
    } else {
        let c1 = tick_pass(shape, c, n - 1);
        if n - 1 < c1.parts.len() && c1.parts[n - 1].chip.clocked {
            let child = c1.parts[n - 1];
            let sent = child_after_send(c1.input, c1.internal, child);
            let done = tick_spec(shape.parts[n - 1].chip, sent);
            ChipV { parts: c1.parts.update(n - 1, ChildV { chip: done, ..child }), ..c1 }
        } else {
            c1
        }
    }
}

/// The chip after `produce_output` (tock): every clocked child tocks and its
/// outputs are received, then the unclocked children stabilise.
pub open spec fn tock_spec(shape: ChipV, c: ChipV) -> ChipV
    decreases shape, 2int, 0int,
{
    if c.builtin_id is Some {
        builtin_tock(c)
    } else if c.parts.len() == shape.parts.len() {
        let latched = tock_pass(shape, c, c.parts.len() as int);
        comb_pass(shape, latched, latched.parts.len() as int)
    } else {
        c
    }
}

/// The clocked half of tock: for each of the first `n` children that is
/// clocked, in order, tock it and receive its outputs; nothing is sent.
pub open spec fn tock_pass(shape: ChipV, c: ChipV, n: int) -> ChipV
    decreases shape, 1int, n,
{
    if n <= 0 || c.parts.len() != shape.parts.len() || n > c.parts.len() {
        c
    } else {
        let c1 = tock_pass(shape, c, n - 1);
        if n - 1 < c1.parts.len() && c1.parts[n - 1].chip.clocked {
            let child = c1.parts[n - 1];
            let done = tock_spec(shape.parts[n - 1].chip, child.chip);
            let rec = recv_all(
                c1.internal,
                c1.output,
                done.output,
                child.output_connections,
                child.output_connections.len() as int,
            );
            ChipV {
                internal: rec.0,
                output: rec.1,
                parts: c1.parts.update(n - 1, ChildV { chip: done, ..child }),
                ..c1
            }
        } else {
            c1
        }
    }
}

// ============================================================================
// Structure lemmas
// ============================================================================

pub proof fn lemma_pls_shape_eq_find(a: Seq<PinlineV>, b: Seq<PinlineV>, name: Seq<char>)
    requires
        pls_shape_eq(a, b),
    ensures
        find_pl(a, name) == find_pl(b, name),
{
    lemma_shape_eq_find_from(a, b, name, 0);
}

proof fn lemma_shape_eq_find_from(a: Seq<PinlineV>, b: Seq<PinlineV>, name: Seq<char>, i: int)
    requires
        pls_shape_eq(a, b),
        0 <= i,
    ensures
        find_pl_from(a, name, i) == find_pl_from(b, name, i),
    decreases a.len() - i,
{
    if i < a.len() && a[i].name != name {
        lemma_shape_eq_find_from(a, b, name, i + 1);
    }
}

pub proof fn lemma_ss_refl(c: ChipV)
    ensures
        same_structure(c, c),
    decreases c,
{
    assert forall|i: int| 0 <= i < c.parts.len() implies child_same_structure(
        #[trigger] c.parts[i],
        c.parts[i],
    ) by {
        lemma_ss_refl(c.parts[i].chip);
    }
}

pub proof fn lemma_ss_trans(a: ChipV, b: ChipV, c: ChipV)
    requires
        same_structure(a, b),
        same_structure(b, c),
    ensures
        same_structure(a, c),
    decreases a,
{
    assert forall|i: int| 0 <= i < a.parts.len() implies child_same_structure(
        #[trigger] a.parts[i],
        c.parts[i],
    ) by {
        assert(child_same_structure(a.parts[i], b.parts[i]));
        assert(child_same_structure(b.parts[i], c.parts[i]));
        lemma_ss_trans(a.parts[i].chip, b.parts[i].chip, c.parts[i].chip);
    }
}

pub proof fn lemma_ss_symm(a: ChipV, b: ChipV)
    requires
        same_structure(a, b),
    ensures
        same_structure(b, a),
    decreases a,
{
    assert forall|i: int| 0 <= i < b.parts.len() implies child_same_structure(
        #[trigger] b.parts[i],
        a.parts[i],
    ) by {
        assert(child_same_structure(a.parts[i], b.parts[i]));
        lemma_ss_symm(a.parts[i].chip, b.parts[i].chip);
    }
}

proof fn lemma_pdepth_child(parts: Seq<ChildV>, i: int, n: int)
    requires
        0 <= i < n <= parts.len(),
    ensures
        cdepth(parts[i].chip) <= pdepth(parts, n),
    decreases n,
{
    if i < n - 1 {
        lemma_pdepth_child(parts, i, n - 1);
    }
}

/// The depth of a child chip is strictly below the depth of its parent.
pub proof fn lemma_cdepth_child(c: ChipV, i: int)
    requires
        0 <= i < c.parts.len(),
    ensures
        cdepth(c.parts[i].chip) < cdepth(c),
{
    lemma_pdepth_child(c.parts, i, c.parts.len() as int);
}

/// Depth depends only on structure.
pub proof fn lemma_ss_cdepth(a: ChipV, b: ChipV)
    requires
        same_structure(a, b),
    ensures
        cdepth(a) == cdepth(b),
    decreases a, 1int, 0int,
{
    lemma_ss_pdepth(a, b, a.parts.len() as int);
}

proof fn lemma_ss_pdepth(a: ChipV, b: ChipV, n: int)
    requires
        same_structure(a, b),
        n <= a.parts.len(),
    ensures
        pdepth(a.parts, n) == pdepth(b.parts, n),
    decreases a, 0int, n,
{
    if 0 < n <= a.parts.len() {
        lemma_ss_pdepth(a, b, n - 1);
        assert(child_same_structure(a.parts[n - 1], b.parts[n - 1]));
        lemma_ss_cdepth(a.parts[n - 1].chip, b.parts[n - 1].chip);
    }
}

/// Well-formedness is a property of a chip's structure alone: it carries over
/// to any chip with the same structure.
pub proof fn lemma_wf_respects_structure(a: ChipV, b: ChipV)
    requires
        chip_wf(a),
        same_structure(a, b),
    ensures
        chip_wf(b),
    decreases a,
{
    lemma_cat_shape_eq(a.input, a.internal, a.output, b.input, b.internal, b.output);
    let acat = a.input + a.internal + a.output;
    let bcat = b.input + b.internal + b.output;
    assert(names_unique(bcat)) by {
        assert forall|i: int, j: int| 0 <= i < j < bcat.len() implies bcat[i].name
            != bcat[j].name by {
            assert(acat[i].name == bcat[i].name && acat[j].name == bcat[j].name);
        }
    }
    match a.builtin_id {
        Some(id) => {
            lemma_shape_eq_trans_builtin(a, b, id);
        },
        None => {
            assert forall|i: int| 0 <= i < b.parts.len() implies child_wf(
                b.input,
                b.internal,
                b.output,
                #[trigger] b.parts[i],
            ) by {
                assert(child_wf(a.input, a.internal, a.output, a.parts[i]));
                assert(child_same_structure(a.parts[i], b.parts[i]));
                lemma_child_wf_respects(
                    a.input,
                    a.internal,
                    a.output,
                    b.input,
                    b.internal,
                    b.output,
                    a.parts[i],
                    b.parts[i],
                );
            }
            assert((b.clocked <==> exists|i: int|
                0 <= i < b.parts.len() && (#[trigger] b.parts[i]).chip.clocked)) by {
                if a.clocked {
                    let w = choose|i: int|
                        0 <= i < a.parts.len() && (#[trigger] a.parts[i]).chip.clocked;
                    assert(child_same_structure(a.parts[w], b.parts[w]));
                    assert(b.parts[w].chip.clocked);
                } else {
                    assert forall|i: int|
                        0 <= i < b.parts.len() implies !(#[trigger] b.parts[i]).chip.clocked by {
                        assert(child_same_structure(a.parts[i], b.parts[i]));
                        assert(!a.parts[i].chip.clocked);
                    }
                }
            }
        },
    }
}

pub proof fn lemma_pls_shape_eq_sym(a: Seq<PinlineV>, b: Seq<PinlineV>)
    requires
        pls_shape_eq(a, b),
    ensures
        pls_shape_eq(b, a),
{
    assert forall|i: int| 0 <= i < b.len() implies (#[trigger] b[i]).name == a[i].name
        && b[i].pins.len() == a[i].pins.len() by {
        assert(a[i].name == b[i].name && a[i].pins.len() == b[i].pins.len());
    }
}

pub proof fn lemma_pls_shape_eq_trans(a: Seq<PinlineV>, b: Seq<PinlineV>, c: Seq<PinlineV>)
    requires
        pls_shape_eq(a, b),
        pls_shape_eq(b, c),
    ensures
        pls_shape_eq(a, c),
{
    assert forall|i: int| 0 <= i < a.len() implies (#[trigger] a[i]).name == c[i].name
        && a[i].pins.len() == c[i].pins.len() by {
        assert(a[i].name == b[i].name && a[i].pins.len() == b[i].pins.len());
        assert(b[i].name == c[i].name && b[i].pins.len() == c[i].pins.len());
    }
}

proof fn lemma_shape_eq_trans_builtin(a: ChipV, b: ChipV, id: BuiltinChips)
    requires
        builtin_shape(a, id),
        pls_shape_eq(a.input, b.input),
        pls_shape_eq(a.internal, b.internal),
        pls_shape_eq(a.output, b.output),
    ensures
        builtin_shape(b, id),
{
    let l = builtin_layout(id);
    lemma_pls_shape_eq_sym(a.input, b.input);
    lemma_pls_shape_eq_sym(a.internal, b.internal);
    lemma_pls_shape_eq_sym(a.output, b.output);
    lemma_pls_shape_eq_trans(b.input, a.input, l.input);
    lemma_pls_shape_eq_trans(b.internal, a.internal, l.internal);
    lemma_pls_shape_eq_trans(b.output, a.output, l.output);
}

/// Concatenation respects shape equality, elementwise.
proof fn lemma_cat_shape_eq(
    a1: Seq<PinlineV>,
    a2: Seq<PinlineV>,
    a3: Seq<PinlineV>,
    b1: Seq<PinlineV>,
    b2: Seq<PinlineV>,
    b3: Seq<PinlineV>,
)
    requires
        pls_shape_eq(a1, b1),
        pls_shape_eq(a2, b2),
        pls_shape_eq(a3, b3),
    ensures
        pls_shape_eq(a1 + a2 + a3, b1 + b2 + b3),
        pls_shape_eq(a1 + a2, b1 + b2),
{
}

proof fn lemma_child_wf_respects(
    pin1: Seq<PinlineV>,
    pint1: Seq<PinlineV>,
    pout1: Seq<PinlineV>,
    pin2: Seq<PinlineV>,
    pint2: Seq<PinlineV>,
    pout2: Seq<PinlineV>,
    ca: ChildV,
    cb: ChildV,
)
    requires
        child_wf(pin1, pint1, pout1, ca),
        child_same_structure(ca, cb),
        pls_shape_eq(pin1, pin2),
        pls_shape_eq(pint1, pint2),
        pls_shape_eq(pout1, pout2),
    ensures
        child_wf(pin2, pint2, pout2, cb),
    decreases ca,
{
    lemma_wf_respects_structure(ca.chip, cb.chip);
    lemma_cat_shape_eq(pin1, pint1, pout1, pin2, pint2, pout2);
    assert forall|i: int| 0 <= i < cb.input_connections.len() implies input_conn_wf(
        #[trigger] cb.input_connections[i],
        cb.chip,
        pin2,
        pint2,
    ) by {
        let conn = cb.input_connections[i];
        assert(input_conn_wf(conn, ca.chip, pin1, pint1));
        lemma_pls_shape_eq_find(ca.chip.input, cb.chip.input, conn.own.name);
        lemma_pls_shape_eq_find(pin1 + pint1, pin2 + pint2, conn.foreign.name);
        lemma_find_pl(ca.chip.input, conn.own.name);
        lemma_find_pl(pin1 + pint1, conn.foreign.name);
        let oi = find_pl(ca.chip.input, conn.own.name);
        let fi = find_pl(pin1 + pint1, conn.foreign.name);
        assert((pin1 + pint1)[fi].name == (pin2 + pint2)[fi].name && (pin1 + pint1)[fi].pins.len()
            == (pin2 + pint2)[fi].pins.len());
        assert(ca.chip.input[oi].name == cb.chip.input[oi].name && ca.chip.input[oi].pins.len()
            == cb.chip.input[oi].pins.len());
    }
    assert forall|i: int| 0 <= i < cb.output_connections.len() implies output_conn_wf(
        #[trigger] cb.output_connections[i],
        cb.chip,
        pint2,
        pout2,
    ) by {
        let conn = cb.output_connections[i];
        assert(output_conn_wf(conn, ca.chip, pint1, pout1));
        lemma_pls_shape_eq_find(ca.chip.output, cb.chip.output, conn.own.name);
        lemma_pls_shape_eq_find(pint1 + pout1, pint2 + pout2, conn.foreign.name);
        lemma_find_pl(ca.chip.output, conn.own.name);
        lemma_find_pl(pint1 + pout1, conn.foreign.name);
        let oi = find_pl(ca.chip.output, conn.own.name);
        let fi = find_pl(pint1 + pout1, conn.foreign.name);
        assert((pint1 + pout1)[fi].name == (pint2 + pout2)[fi].name && (pint1 + pout1)[fi].pins.len()
            == (pint2 + pout2)[fi].pins.len());
        assert(ca.chip.output[oi].name == cb.chip.output[oi].name && ca.chip.output[oi].pins.len()
            == cb.chip.output[oi].pins.len());
    }
}

// ============================================================================
// Frame lemmas for wiring
// ============================================================================

pub proof fn lemma_apply_indices_len(
    dst: Seq<bool>,
    src: Seq<bool>,
    di: Seq<usize>,
    si: Seq<usize>,
    k: int,
)
    requires
        k <= di.len(),
        forall|t: int| 0 <= t < k ==> (#[trigger] di[t] as int) < dst.len(),
    ensures
        apply_indices(dst, src, di, si, k).len() == dst.len(),
    decreases k,
{
    if k > 0 {
        lemma_apply_indices_len(dst, src, di, si, k - 1);
    }
}

/// Same structure from equal fields, shape-equal pinline sets and equal parts.
proof fn lemma_ss_from_frame(a: ChipV, b: ChipV)
    requires
        a.name == b.name,
        a.clocked == b.clocked,
        a.builtin_id == b.builtin_id,
        pls_shape_eq(a.input, b.input),
        pls_shape_eq(a.internal, b.internal),
        pls_shape_eq(a.output, b.output),
        a.parts == b.parts,
    ensures
        same_structure(a, b),
{
    assert forall|i: int| 0 <= i < a.parts.len() implies child_same_structure(
        #[trigger] a.parts[i],
        b.parts[i],
    ) by {
        lemma_ss_refl(a.parts[i].chip);
    }
}

/// Driving input connections into a child chip changes only the pin values of
/// its input pinlines: every other field is untouched, and the input keeps its
/// names and widths.
pub proof fn lemma_send_all_frame(
    pin: Seq<PinlineV>,
    pint: Seq<PinlineV>,
    chip: ChipV,
    conns: Seq<ConnectionV>,
    k: int,
)
    requires
        0 <= k <= conns.len(),
        forall|j: int| 0 <= j < k ==> send_conn_ok(pin, pint, chip.input, #[trigger] conns[j]),
    ensures
        ({
            let r = send_all(pin, pint, chip, conns, k);
            &&& r.name == chip.name
            &&& r.internal == chip.internal
            &&& r.output == chip.output
            &&& r.parts == chip.parts
            &&& r.clocked == chip.clocked
            &&& r.builtin_id == chip.builtin_id
            &&& pls_shape_eq(chip.input, r.input)
            &&& same_structure(chip, r)
        }),
    decreases k,
{
    if k <= 0 {
        lemma_ss_refl(chip);
    } else {
        lemma_send_all_frame(pin, pint, chip, conns, k - 1);
        let prev = send_all(pin, pint, chip, conns, k - 1);
        let conn = conns[k - 1];
        let all = pin + pint;
        lemma_find_pl(all, conn.foreign.name);
        let fi = find_pl(all, conn.foreign.name);
        let pl = project_to_own(all[fi], conn);
        lemma_apply_indices_len(
            blank_pins(conn.own.indices.len()),
            all[fi].pins,
            conn.own.indices,
            conn.foreign.indices,
            conn.own.indices.len() as int,
        );
        lemma_pls_shape_eq_find(chip.input, prev.input, conn.own.name);
        lemma_find_pl(chip.input, conn.own.name);
        let oi = find_pl(chip.input, conn.own.name);
        assert(chip.input[oi].name == prev.input[oi].name && chip.input[oi].pins.len()
            == prev.input[oi].pins.len());
        let upd = set_pins_spec(prev.input, pl.name, pl.pins);
        assert(pls_shape_eq(chip.input, upd)) by {
            assert forall|i: int| 0 <= i < chip.input.len() implies (#[trigger] chip.input[i]).name
                == upd[i].name && chip.input[i].pins.len() == upd[i].pins.len() by {
                assert(chip.input[i].name == prev.input[i].name && chip.input[i].pins.len()
                    == prev.input[i].pins.len());
            }
        }
        lemma_ss_from_frame(chip, send_all(pin, pint, chip, conns, k));
    }
}

/// Receiving output connections from a child changes only the pin values of
/// the parent's internal and output pinlines, which keep their names and
/// widths.
pub proof fn lemma_recv_all_frame(
    pint: Seq<PinlineV>,
    pout: Seq<PinlineV>,
    cout: Seq<PinlineV>,
    conns: Seq<ConnectionV>,
    k: int,
)
    requires
        0 <= k <= conns.len(),
        forall|j: int| 0 <= j < k ==> recv_conn_ok(pint, pout, cout, #[trigger] conns[j]),
    ensures
        ({
            let r = recv_all(pint, pout, cout, conns, k);
            &&& pls_shape_eq(pint, r.0)
            &&& pls_shape_eq(pout, r.1)
        }),
    decreases k,
{
    if k > 0 {
        lemma_recv_all_frame(pint, pout, cout, conns, k - 1);
        let prev = recv_all(pint, pout, cout, conns, k - 1);
        let conn = conns[k - 1];
        lemma_find_pl(cout, conn.own.name);
        let oi = find_pl(cout, conn.own.name);
        let pl = project_to_foreign(cout[oi], conn);
        lemma_apply_indices_len(
            blank_pins(conn.foreign.indices.len()),
            cout[oi].pins,
            conn.foreign.indices,
            conn.own.indices,
            conn.foreign.indices.len() as int,
        );
        lemma_cat_shape_eq(pint, pout, Seq::empty(), prev.0, prev.1, Seq::empty());
        lemma_pls_shape_eq_find(pint + pout, prev.0 + prev.1, conn.foreign.name);
        lemma_find_pl(pint + pout, conn.foreign.name);
        let fi = find_pl(pint + pout, conn.foreign.name);
        assert((pint + pout)[fi].name == (prev.0 + prev.1)[fi].name && (pint + pout)[fi].pins.len()
            == (prev.0 + prev.1)[fi].pins.len());
        assert(pl.name == conn.foreign.name && pl.pins.len() == conn.foreign.indices.len());
        let r = recv_all(pint, pout, cout, conns, k);
        assert(pls_shape_eq(pint, r.0) && pls_shape_eq(pout, r.1)) by {
            if fi < pint.len() {
                assert((prev.0 + prev.1)[fi] == prev.0[fi]);
                assert(r.0 == prev.0.update(fi, pl) && r.1 == prev.1);
                assert forall|i: int| 0 <= i < pint.len() implies (#[trigger] pint[i]).name
                    == r.0[i].name && pint[i].pins.len() == r.0[i].pins.len() by {
                    assert(pint[i].name == prev.0[i].name && pint[i].pins.len()
                        == prev.0[i].pins.len());
                    assert((pint + pout)[fi] == pint[fi]);
                }
            } else {
                assert((prev.0 + prev.1)[fi] == prev.1[fi - pint.len()]);
                assert(r.0 == prev.0 && r.1 == prev.1.update(fi - pint.len(), pl));
                assert forall|i: int| 0 <= i < pout.len() implies (#[trigger] pout[i]).name
                    == r.1[i].name && pout[i].pins.len() == r.1[i].pins.len() by {
                    assert(pout[i].name == prev.1[i].name && pout[i].pins.len()
                        == prev.1[i].pins.len());
                    assert((pint + pout)[fi] == pout[fi - pint.len()]);
                }
            }
        }
    }
}

// ============================================================================
// Evaluation preserves structure (and thereby well-formedness)
// ============================================================================

/// What is known at the point where child `n - 1` of the evolving state `c1`
/// is about to be processed.
proof fn lemma_pass_step_setup(shape: ChipV, c: ChipV, c1: ChipV, n: int) -> (sent: ChipV)
    requires
        chip_wf(c),
        same_structure(shape, c),
        same_structure(c, c1),
        c.builtin_id is None,
        0 < n <= c.parts.len(),
        c.parts.len() == shape.parts.len(),
    ensures
        sent == child_after_send(c1.input, c1.internal, c1.parts[n - 1]),
        same_structure(c1.parts[n - 1].chip, sent),
        chip_wf(sent),
        same_structure(shape.parts[n - 1].chip, sent),
        sent.output == c1.parts[n - 1].chip.output,
{
    lemma_wf_respects_structure(c, c1);
    let child = c1.parts[n - 1];
    assert(child_wf(c1.input, c1.internal, c1.output, child));
    let conns = child.input_connections;
    assert(forall|j: int| 0 <= j < conns.len() ==> input_conn_wf(
        #[trigger] conns[j],
        child.chip,
        c1.input,
        c1.internal,
    ));
    lemma_send_all_frame(c1.input, c1.internal, child.chip, conns, conns.len() as int);
    let sent = child_after_send(c1.input, c1.internal, child);
    lemma_wf_respects_structure(child.chip, sent);
    assert(child_same_structure(shape.parts[n - 1], c.parts[n - 1]));
    assert(child_same_structure(c.parts[n - 1], c1.parts[n - 1]));
    lemma_ss_trans(shape.parts[n - 1].chip, c.parts[n - 1].chip, c1.parts[n - 1].chip);
    lemma_ss_trans(shape.parts[n - 1].chip, c1.parts[n - 1].chip, sent);
    sent
}

/// Receiving the outputs of an evaluated child into the evolving state `c1`
/// yields a state with the structure of `c1`.
proof fn lemma_pass_step_finish(c: ChipV, c1: ChipV, n: int, done: ChipV) -> (c2: ChipV)
    requires
        chip_wf(c),
        same_structure(c, c1),
        c.builtin_id is None,
        0 < n <= c.parts.len(),
        same_structure(c1.parts[n - 1].chip, done),
    ensures
        ({
            let child = c1.parts[n - 1];
            let rec = recv_all(
                c1.internal,
                c1.output,
                done.output,
                child.output_connections,
                child.output_connections.len() as int,
            );
            c2 == ChipV {
                internal: rec.0,
                output: rec.1,
                parts: c1.parts.update(n - 1, ChildV { chip: done, ..child }),
                ..c1
            }
        }),
        same_structure(c, c2),
{
    lemma_wf_respects_structure(c, c1);
    let child = c1.parts[n - 1];
    assert(child_wf(c1.input, c1.internal, c1.output, child));
    let conns = child.output_connections;
    assert forall|j: int| 0 <= j < conns.len() implies recv_conn_ok(
        c1.internal,
        c1.output,
        done.output,
        #[trigger] conns[j],
    ) by {
        assert(output_conn_wf(conns[j], child.chip, c1.internal, c1.output));
        lemma_pls_shape_eq_find(child.chip.output, done.output, conns[j].own.name);
        lemma_find_pl(child.chip.output, conns[j].own.name);
        let oi = find_pl(child.chip.output, conns[j].own.name);
        assert(child.chip.output[oi].name == done.output[oi].name
            && child.chip.output[oi].pins.len() == done.output[oi].pins.len());
    }
    lemma_recv_all_frame(c1.internal, c1.output, done.output, conns, conns.len() as int);
    let rec = recv_all(c1.internal, c1.output, done.output, conns, conns.len() as int);
    let c2 = ChipV {
        internal: rec.0,
        output: rec.1,
        parts: c1.parts.update(n - 1, ChildV { chip: done, ..child }),
        ..c1
    };
    assert(same_structure(c1, c2)) by {
        lemma_pls_shape_eq_refl(c1.input);
        assert forall|i: int| 0 <= i < c1.parts.len() implies child_same_structure(
            #[trigger] c1.parts[i],
            c2.parts[i],
        ) by {
            if i == n - 1 {
                assert(c2.parts[i] == ChildV { chip: done, ..child });
            } else {
                lemma_ss_refl(c1.parts[i].chip);
            }
        }
    }
    lemma_ss_trans(c, c1, c2);
    c2
}

pub proof fn lemma_pls_shape_eq_refl(a: Seq<PinlineV>)
    ensures
        pls_shape_eq(a, a),
{
}

/// `evaluate` preserves a chip's structure.
pub proof fn lemma_eval_preserves(shape: ChipV, c: ChipV)
    requires
        chip_wf(c),
        same_structure(shape, c),
    ensures
        same_structure(c, eval_spec(shape, c)),
    decreases shape, 1int, 0int,
{
    if c.builtin_id is Some {
        lemma_builtin_step_preserves(c);
    } else {
        lemma_comb_pass_preserves(shape, c, c.parts.len() as int);
    }
}

/// The unclocked builtins write one pin of a one-pin output pinline; the
/// clocked builtins write their internal buffers on tick and one output pin on
/// tock.  None of that changes names or widths.
proof fn lemma_builtin_step_preserves(c: ChipV)
    requires
        chip_wf(c),
        c.builtin_id is Some,
    ensures
        same_structure(c, builtin_eval(c)),
        same_structure(c, builtin_tick(c)),
        same_structure(c, builtin_tock(c)),
{
    lemma_ss_refl(c);
    let id = c.builtin_id->0;
    assert(builtin_shape(c, id));
    lemma_ss_from_frame(c, builtin_eval(c));
    lemma_ss_from_frame(c, builtin_tick(c));
    lemma_ss_from_frame(c, builtin_tock(c));
}

proof fn lemma_comb_pass_preserves(shape: ChipV, c: ChipV, n: int)
    requires
        chip_wf(c),
        same_structure(shape, c),
        0 <= n <= c.parts.len(),
        c.parts.len() == shape.parts.len(),
    ensures
        same_structure(c, comb_pass(shape, c, n)),
    decreases shape, 0int, n,
{
    if n <= 0 {
        lemma_ss_refl(c);
    } else {
        lemma_comb_pass_preserves(shape, c, n - 1);
        let c1 = comb_pass(shape, c, n - 1);
        if !c1.parts[n - 1].chip.clocked {
            if c.builtin_id is Some {
                assert(c.parts.len() == 0);
            } else {
                let sent = lemma_pass_step_setup(shape, c, c1, n);
                lemma_eval_preserves(shape.parts[n - 1].chip, sent);
                let done = eval_spec(shape.parts[n - 1].chip, sent);
                lemma_ss_trans(c1.parts[n - 1].chip, sent, done);
                let c2 = lemma_pass_step_finish(c, c1, n, done);
                assert(c2 == comb_pass(shape, c, n));
            }
        }
    }
}

/// `read_input` (tick) preserves a chip's structure.
pub proof fn lemma_tick_preserves(shape: ChipV, c: ChipV)
    requires
        chip_wf(c),
        same_structure(shape, c),
    ensures
        same_structure(c, tick_spec(shape, c)),
    decreases shape, 2int, 0int,
{
    if c.builtin_id is Some {
        lemma_builtin_step_preserves(c);
    } else {
        lemma_comb_pass_preserves(shape, c, c.parts.len() as int);
        let stable = comb_pass(shape, c, c.parts.len() as int);
        lemma_wf_respects_structure(c, stable);
        lemma_ss_trans(shape, c, stable);
        lemma_tick_pass_preserves(shape, stable, stable.parts.len() as int);
        lemma_ss_trans(c, stable, tick_pass(shape, stable, stable.parts.len() as int));
    }
}

proof fn lemma_tick_pass_preserves(shape: ChipV, c: ChipV, n: int)
    requires
        chip_wf(c),
        same_structure(shape, c),
        0 <= n <= c.parts.len(),
        c.parts.len() == shape.parts.len(),
    ensures
        same_structure(c, tick_pass(shape, c, n)),
    decreases shape, 1int, n,
{
    if n <= 0 {
        lemma_ss_refl(c);
    } else {
        lemma_tick_pass_preserves(shape, c, n - 1);
        let c1 = tick_pass(shape, c, n - 1);
        if c1.parts[n - 1].chip.clocked {
            if c.builtin_id is Some {
                assert(c.parts.len() == 0);
            } else {
                let sent = lemma_pass_step_setup(shape, c, c1, n);
                lemma_tick_preserves(shape.parts[n - 1].chip, sent);
                let done = tick_spec(shape.parts[n - 1].chip, sent);
                lemma_ss_trans(c1.parts[n - 1].chip, sent, done);
                let child = c1.parts[n - 1];
                let c2 = ChipV {
                    parts: c1.parts.update(n - 1, ChildV { chip: done, ..child }),
                    ..c1
                };
                assert(same_structure(c1, c2)) by {
                    lemma_pls_shape_eq_refl(c1.input);
                    lemma_pls_shape_eq_refl(c1.internal);
                    lemma_pls_shape_eq_refl(c1.output);
                    assert forall|i: int| 0 <= i < c1.parts.len() implies child_same_structure(
                        #[trigger] c1.parts[i],
                        c2.parts[i],
                    ) by {
                        if i == n - 1 {
                            assert(c2.parts[i] == ChildV { chip: done, ..child });
                        } else {
                            lemma_ss_refl(c1.parts[i].chip);
                        }
                    }
                }
                lemma_ss_trans(c, c1, c2);
            }
        }
    }
}

/// `produce_output` (tock) preserves a chip's structure.
pub proof fn lemma_tock_preserves(shape: ChipV, c: ChipV)
    requires
        chip_wf(c),
        same_structure(shape, c),
    ensures
        same_structure(c, tock_spec(shape, c)),
    decreases shape, 2int, 0int,
{
    if c.builtin_id is Some {
        lemma_builtin_step_preserves(c);
    } else {
        lemma_tock_pass_preserves(shape, c, c.parts.len() as int);
        let latched = tock_pass(shape, c, c.parts.len() as int);
        lemma_wf_respects_structure(c, latched);
        lemma_ss_trans(shape, c, latched);
        lemma_comb_pass_preserves(shape, latched, latched.parts.len() as int);
        lemma_ss_trans(c, latched, comb_pass(shape, latched, latched.parts.len() as int));
    }
}

proof fn lemma_tock_pass_preserves(shape: ChipV, c: ChipV, n: int)
    requires
        chip_wf(c),
        same_structure(shape, c),
        0 <= n <= c.parts.len(),
        c.parts.len() == shape.parts.len(),
    ensures
        same_structure(c, tock_pass(shape, c, n)),
    decreases shape, 1int, n,
{
    if n <= 0 {
        lemma_ss_refl(c);
    } else {
        lemma_tock_pass_preserves(shape, c, n - 1);
        let c1 = tock_pass(shape, c, n - 1);
        if c1.parts[n - 1].chip.clocked {
            if c.builtin_id is Some {
                assert(c.parts.len() == 0);
            } else {
                lemma_wf_respects_structure(c, c1);
                let child = c1.parts[n - 1];
                assert(child_wf(c1.input, c1.internal, c1.output, child));
                assert(child_same_structure(shape.parts[n - 1], c.parts[n - 1]));
                assert(child_same_structure(c.parts[n - 1], c1.parts[n - 1]));
                lemma_ss_trans(
                    shape.parts[n - 1].chip,
                    c.parts[n - 1].chip,
                    c1.parts[n - 1].chip,
                );
                lemma_tock_preserves(shape.parts[n - 1].chip, child.chip);
                let done = tock_spec(shape.parts[n - 1].chip, child.chip);
                let c2 = lemma_pass_step_finish(c, c1, n, done);
                assert(c2 == tock_pass(shape, c, n));
            }
        }
    }
}

// ============================================================================
// Evaluation depends on the shape argument only through its structure
// ============================================================================

/// Two structurally equal shape arguments give the same evaluation.
pub proof fn lemma_eval_agree(s1: ChipV, s2: ChipV, c: ChipV)
    requires
        same_structure(s1, s2),
    ensures
        eval_spec(s1, c) == eval_spec(s2, c),
    decreases s1, 1int, 0int,
{
    if !(c.builtin_id is Some) {
        lemma_comb_pass_agree(s1, s2, c, c.parts.len() as int);
    }
}

proof fn lemma_comb_pass_agree(s1: ChipV, s2: ChipV, c: ChipV, n: int)
    requires
        same_structure(s1, s2),
    ensures
        comb_pass(s1, c, n) == comb_pass(s2, c, n),
    decreases s1, 0int, n,
{
    if !(n <= 0 || c.parts.len() != s1.parts.len() || n > c.parts.len()) {
        lemma_comb_pass_agree(s1, s2, c, n - 1);
        let c1 = comb_pass(s1, c, n - 1);
        if n - 1 < c1.parts.len() && !c1.parts[n - 1].chip.clocked {
            let child = c1.parts[n - 1];
            let sent = child_after_send(c1.input, c1.internal, child);
            assert(child_same_structure(s1.parts[n - 1], s2.parts[n - 1]));
            lemma_eval_agree(s1.parts[n - 1].chip, s2.parts[n - 1].chip, sent);
        }
    }
}

/// Two structurally equal shape arguments give the same tick.
pub proof fn lemma_tick_agree(s1: ChipV, s2: ChipV, c: ChipV)
    requires
        same_structure(s1, s2),
    ensures
        tick_spec(s1, c) == tick_spec(s2, c),
    decreases s1, 2int, 0int,
{
    if !(c.builtin_id is Some) && c.parts.len() == s1.parts.len() {
        lemma_comb_pass_agree(s1, s2, c, c.parts.len() as int);
        let stable = comb_pass(s1, c, c.parts.len() as int);
        lemma_tick_pass_agree(s1, s2, stable, stable.parts.len() as int);
    }
}

proof fn lemma_tick_pass_agree(s1: ChipV, s2: ChipV, c: ChipV, n: int)
    requires
        same_structure(s1, s2),
    ensures
        tick_pass(s1, c, n) == tick_pass(s2, c, n),
    decreases s1, 1int, n,
{
    if !(n <= 0 || c.parts.len() != s1.parts.len() || n > c.parts.len()) {
        lemma_tick_pass_agree(s1, s2, c, n - 1);
        let c1 = tick_pass(s1, c, n - 1);
        if n - 1 < c1.parts.len() && c1.parts[n - 1].chip.clocked {
            let child = c1.parts[n - 1];
            let sent = child_after_send(c1.input, c1.internal, child);
            assert(child_same_structure(s1.parts[n - 1], s2.parts[n - 1]));
            lemma_tick_agree(s1.parts[n - 1].chip, s2.parts[n - 1].chip, sent);
        }
    }
}

/// Two structurally equal shape arguments give the same tock.
pub proof fn lemma_tock_agree(s1: ChipV, s2: ChipV, c: ChipV)
    requires
        same_structure(s1, s2),
    ensures
        tock_spec(s1, c) == tock_spec(s2, c),
    decreases s1, 2int, 0int,
{
    if !(c.builtin_id is Some) && c.parts.len() == s1.parts.len() {
        lemma_tock_pass_agree(s1, s2, c, c.parts.len() as int);
        let latched = tock_pass(s1, c, c.parts.len() as int);
        lemma_comb_pass_agree(s1, s2, latched, latched.parts.len() as int);
    }
}

proof fn lemma_tock_pass_agree(s1: ChipV, s2: ChipV, c: ChipV, n: int)
    requires
        same_structure(s1, s2),
    ensures
        tock_pass(s1, c, n) == tock_pass(s2, c, n),
    decreases s1, 1int, n,
{
    if !(n <= 0 || c.parts.len() != s1.parts.len() || n > c.parts.len()) {
        lemma_tock_pass_agree(s1, s2, c, n - 1);
        let c1 = tock_pass(s1, c, n - 1);
        if n - 1 < c1.parts.len() && c1.parts[n - 1].chip.clocked {
            let child = c1.parts[n - 1];
            assert(child_same_structure(s1.parts[n - 1], s2.parts[n - 1]));
            lemma_tock_agree(s1.parts[n - 1].chip, s2.parts[n - 1].chip, child.chip);
        }
    }
}


// ============================================================================
// Pinlines and connections: executable code
// ============================================================================

impl Clone for Pinline {
    fn clone(&self) -> (r: Self)
        ensures
            r@ == self@,
    {
        let pins = self.pins.clone();
        assert(pins@ =~= self.pins@);
        Pinline { name: self.name.clone(), pins }
    }
}

impl Clone for PinlineConnection {
    fn clone(&self) -> (r: Self)
        ensures
            r@ == self@,
    {
        let indices = self.indices.clone();
        assert(indices@ =~= self.indices@);
        PinlineConnection { name: self.name.clone(), indices }
    }
}

impl Clone for ChildConnection {
    fn clone(&self) -> (r: Self)
        ensures
            r@ == self@,
    {
        ChildConnection { own: self.own.clone(), foreign: self.foreign.clone() }
    }
}

impl Pinline {
    pub fn new(name: &str, pins: Vec<Pin>) -> (r: Self)
        ensures
            r@ == (PinlineV { name: name@, pins: pins@ }),
    {
        Pinline { name: name.to_owned(), pins }
    }

    /// A pinline of the given width with every pin false.
    pub fn with_capacity(name: &str, size: usize) -> (r: Self)
        ensures
            r@ == (PinlineV { name: name@, pins: blank_pins(size as nat) }),
    {
        let pins = vec![false; size];
        assert(pins@ =~= blank_pins(size as nat));
        Pinline { name: name.to_owned(), pins }
    }

    pub fn get_pin(&self, index: usize) -> (r: Pin)
        requires
            index < self.pins@.len(),
        ensures
            r == self@.pins[index as int],
    {
        self.pins[index]
    }

    /// Project this pinline across a connection onto the connection's own
    /// endpoint, as when driving a child input pinline from a parent pinline.
    pub fn into_own(self, connection: &ChildConnection) -> (r: Self)
        requires
            connection@.own.indices.len() == connection@.foreign.indices.len(),
            indices_in_range(connection@.own, connection@.own.indices.len() as int),
            indices_in_range(connection@.foreign, self.pins@.len() as int),
        ensures
            r@ == project_to_own(self@, connection@),
    {
        let n = connection.own.indices.len();
        let mut new_pins: Vec<bool> = vec![false; n];
        assert(new_pins@ =~= blank_pins(n as nat));
        let mut k: usize = 0;
        while k < n
            invariant
                k <= n,
                n == connection@.own.indices.len(),
                connection@.own.indices.len() == connection@.foreign.indices.len(),
                indices_in_range(connection@.own, n as int),
                indices_in_range(connection@.foreign, self.pins@.len() as int),
                new_pins@ == apply_indices(
                    blank_pins(n as nat),
                    self.pins@,
                    connection@.own.indices,
                    connection@.foreign.indices,
                    k as int,
                ),
                new_pins@.len() == n,
            decreases n - k,
        {
            let own_i = connection.own.indices[k];
            let foreign_i = connection.foreign.indices[k];
            new_pins.set(own_i, self.pins[foreign_i]);
            k = k + 1;
        }
        Pinline { name: connection.own.name.clone(), pins: new_pins }
    }

    /// The mirror of `into_own`: project this pinline onto the connection's
    /// foreign endpoint, as when receiving a child output pinline.
    pub fn into_foreign(self, connection: &ChildConnection) -> (r: Self)
        requires
            connection@.own.indices.len() == connection@.foreign.indices.len(),
            indices_in_range(connection@.foreign, connection@.foreign.indices.len() as int),
            indices_in_range(connection@.own, self.pins@.len() as int),
        ensures
            r@ == project_to_foreign(self@, connection@),
    {
        let n = connection.foreign.indices.len();
        let mut new_pins: Vec<bool> = vec![false; n];
        assert(new_pins@ =~= blank_pins(n as nat));
        let mut k: usize = 0;
        while k < n
            invariant
                k <= n,
                n == connection@.foreign.indices.len(),
                connection@.own.indices.len() == connection@.foreign.indices.len(),
                indices_in_range(connection@.foreign, n as int),
                indices_in_range(connection@.own, self.pins@.len() as int),
                new_pins@ == apply_indices(
                    blank_pins(n as nat),
                    self.pins@,
                    connection@.foreign.indices,
                    connection@.own.indices,
                    k as int,
                ),
                new_pins@.len() == n,
            decreases n - k,
        {
            let own_i = connection.own.indices[k];
            let foreign_i = connection.foreign.indices[k];
            new_pins.set(foreign_i, self.pins[own_i]);
            k = k + 1;
        }
        Pinline { name: connection.foreign.name.clone(), pins: new_pins }
    }
}

impl PinlineConnection {
    pub fn new(name: &str, indices: Vec<usize>) -> (r: Self)
        ensures
            r@ == (PinlineConnectionV { name: name@, indices: indices@ }),
    {
        PinlineConnection { name: name.to_owned(), indices }
    }

    pub fn get_pin_count(&self) -> (r: usize)
        ensures
            r == self@.indices.len(),
    {
        self.indices.len()
    }
}

impl ChildConnection {
    pub fn new(own: PinlineConnection, foreign: PinlineConnection) -> (r: Self)
        ensures
            r@ == (ConnectionV { own: own@, foreign: foreign@ }),
    {
        ChildConnection { own, foreign }
    }
}

/// Index of the first pinline of `pls` named `name`, executably.
fn position_of(pls: &Vec<Pinline>, name: &str) -> (r: Option<usize>)
    ensures
        ({
            let f = find_pl(pls_view(*pls), name@);
            match r {
                Some(i) => f == i as int && (i as int) < pls_view(*pls).len() && pls_view(
                    *pls,
                )[i as int].name == name@,
                None => f < 0,
            }
        }),
{
    proof {
        lemma_find_pl(pls_view(*pls), name@);
    }
    let owned = name.to_owned();
    let n = pls.len();
    let mut i: usize = 0;
    while i < n
        invariant
            i <= n,
            n == pls@.len(),
            owned@ == name@,
            find_pl_from(pls_view(*pls), name@, 0) == find_pl_from(pls_view(*pls), name@, i as int),
        decreases n - i,
    {
        if pls[i].name == owned {
            assert(pls_view(*pls)[i as int].name == name@);
            return Some(i);
        }
        assert(pls_view(*pls)[i as int].name != name@);
        i = i + 1;
    }
    None
}

pub trait PinlinesMethods {
    spec fn pls(&self) -> Seq<PinlineV>;

    /// The first pinline with the given name, when one exists.
    fn get_pinline(&self, name: &str) -> (r: Option<&Pinline>)
        ensures
            ({
                let f = find_pl(self.pls(), name@);
                match r {
                    Some(p) => f >= 0 && p@ == self.pls()[f],
                    None => f < 0,
                }
            }),
    ;

    /// Replace the pins of the pinline with the given name; the replacement
    /// must match the declared width.
    fn set_pinline(&mut self, pinline: Pinline)
        requires
            has_pl(old(self).pls(), pinline@.name),
            old(self).pls()[find_pl(old(self).pls(), pinline@.name)].pins.len()
                == pinline@.pins.len(),
        ensures
            final(self).pls() == set_pins_spec(old(self).pls(), pinline@.name, pinline@.pins),
    ;

    /// Replace the pins of each named pinline in turn.
    fn set_pinlines(&mut self, pinlines: Pinlines)
        requires
            forall|j: int|
                0 <= j < pinlines@.len() ==> has_pl(old(self).pls(), (#[trigger] pinlines@[j])@.name)
                    && old(self).pls()[find_pl(old(self).pls(), pinlines@[j]@.name)].pins.len()
                    == pinlines@[j]@.pins.len(),
        ensures
            final(self).pls() == set_many(
                old(self).pls(),
                pls_view(pinlines),
                pinlines@.len() as int,
            ),
    ;
}

/// `pls` after replacing, in turn, the pins of the pinline named by each of
/// the first `k` items.
pub open spec fn set_many(pls: Seq<PinlineV>, items: Seq<PinlineV>, k: int) -> Seq<PinlineV>
    decreases k,
{
    if k <= 0 {
        pls
    } else {
        let prev = set_many(pls, items, k - 1);
        set_pins_spec(prev, items[k - 1].name, items[k - 1].pins)
    }
}

/// Replacing pins at a declared width keeps every name and width.
pub proof fn lemma_set_pins_shape(pls: Seq<PinlineV>, name: Seq<char>, pins: Seq<bool>)
    requires
        has_pl(pls, name) ==> pls[find_pl(pls, name)].pins.len() == pins.len(),
    ensures
        pls_shape_eq(pls, set_pins_spec(pls, name, pins)),
{
    lemma_find_pl(pls, name);
}

impl PinlinesMethods for Vec<Pinline> {
    open spec fn pls(&self) -> Seq<PinlineV> {
        pls_view(*self)
    }

    fn get_pinline(&self, name: &str) -> (r: Option<&Pinline>)
    {
        proof {
            lemma_find_pl(pls_view(*self), name@);
        }
        match position_of(self, name) {
            Some(i) => Some(&self[i]),
            None => None,
        }
    }

    fn set_pinline(&mut self, pinline: Pinline)
    {
        proof {
            lemma_find_pl(pls_view(*old(self)), pinline@.name);
        }
        let i = match position_of(self, pinline.name.as_str()) {
            Some(i) => i,
            None => {
                proof {
                    assert(false);
                }
                0
            },
        };
        let slot = &mut self[i];
        slot.pins = pinline.pins;
        assert(pls_view(*self) =~= set_pins_spec(pls_view(*old(self)), pinline@.name, pinline@.pins));
    }

    fn set_pinlines(&mut self, pinlines: Pinlines)
    {
        let n = pinlines.len();
        let mut j: usize = 0;
        while j < n
            invariant
                j <= n,
                n == pinlines@.len(),
                forall|t: int|
                    0 <= t < n ==> has_pl(pls_view(*old(self)), (#[trigger] pinlines@[t])@.name)
                        && pls_view(*old(self))[find_pl(
                        pls_view(*old(self)),
                        pinlines@[t]@.name,
                    )].pins.len() == pinlines@[t]@.pins.len(),
                pls_view(*self) == set_many(pls_view(*old(self)), pls_view(pinlines), j as int),
            decreases n - j,
        {
            proof {
                lemma_set_many_shape(pls_view(*old(self)), pls_view(pinlines), j as int);
                lemma_pls_shape_eq_find(pls_view(*old(self)), pls_view(*self), pinlines@[j as int]@.name);
                lemma_find_pl(pls_view(*old(self)), pinlines@[j as int]@.name);
                assert(pls_view(*old(self))[find_pl(pls_view(*old(self)), pinlines@[j as int]@.name)].pins.len()
                    == pls_view(*self)[find_pl(pls_view(*self), pinlines@[j as int]@.name)].pins.len());
            }
            let item = pinlines[j].clone();
            self.set_pinline(item);
            j = j + 1;
        }
    }
}

/// How lookup distributes over the concatenation of two pinline sets.
pub proof fn lemma_find_pl_cat(a: Seq<PinlineV>, b: Seq<PinlineV>, name: Seq<char>)
    ensures
        find_pl(a + b, name) == if find_pl(a, name) >= 0 {
            find_pl(a, name)
        } else if find_pl(b, name) >= 0 {
            a.len() + find_pl(b, name)
        } else {
            -1
        },
{
    lemma_find_pl(a, name);
    lemma_find_pl(b, name);
    lemma_find_pl(a + b, name);
    let fa = find_pl(a, name);
    let fb = find_pl(b, name);
    let fc = find_pl(a + b, name);
    if fa >= 0 {
        assert((a + b)[fa].name == name);
        assert forall|j: int| 0 <= j < fa implies (a + b)[j].name != name by {
            assert((a + b)[j] == a[j]);
        }
        assert(fc == fa);
    } else if fb >= 0 {
        assert((a + b)[a.len() + fb].name == name);
        assert forall|j: int| 0 <= j < a.len() + fb implies (a + b)[j].name != name by {
            if j < a.len() {
                assert((a + b)[j] == a[j]);
            } else {
                assert((a + b)[j] == b[j - a.len()]);
            }
        }
        assert(fc == a.len() + fb);
    } else {
        assert forall|j: int| 0 <= j < (a + b).len() implies (a + b)[j].name != name by {
            if j < a.len() {
                assert((a + b)[j] == a[j]);
            } else {
                assert((a + b)[j] == b[j - a.len()]);
            }
        }
        assert(fc < 0);
    }
}

// ============================================================================
// Wiring: executable code
// ============================================================================

impl ChipPinlines {
    pub fn new(input: Pinlines, internal: Pinlines, output: Pinlines) -> (r: Self)
        ensures
            r@ == (pls_view(input), pls_view(internal), pls_view(output)),
    {
        ChipPinlines { input, internal, output }
    }

    /// Drive each input connection of `part` in order: locate the foreign
    /// pinline among this chip's input and internal pinlines, project it onto
    /// the own endpoint, and write it into the child's input pinline of that
    /// name.
    pub fn send_input(&self, part: &mut Child)
        requires
            forall|j: int|
                0 <= j < old(part)@.input_connections.len() ==> input_conn_wf(
                    #[trigger] old(part)@.input_connections[j],
                    old(part)@.chip,
                    self@.0,
                    self@.1,
                ),
        ensures
            final(part)@.chip == child_after_send(self@.0, self@.1, old(part)@),
            final(part)@.input_connections == old(part)@.input_connections,
            final(part)@.output_connections == old(part)@.output_connections,
    {
        let ghost chip0 = old(part)@.chip;
        let ghost conns = old(part)@.input_connections;
        let n = part.input_connections.len();
        let mut j: usize = 0;
        while j < n
            invariant
                j <= n,
                n == part.input_connections@.len(),
                part.input_connections == old(part).input_connections,
                part.output_connections == old(part).output_connections,
                conns == conns_view(part.input_connections),
                chip0 == old(part)@.chip,
                forall|t: int|
                    0 <= t < n ==> input_conn_wf(#[trigger] conns[t], chip0, self@.0, self@.1),
                chip_view(part.chip) == send_all(self@.0, self@.1, chip0, conns, j as int),
            decreases n - j,
        {
            proof {
                assert(conns[j as int] == conns_view(part.input_connections)[j as int]);
                lemma_send_all_frame(self@.0, self@.1, chip0, conns, j as int);
            }
            let ghost cur = send_all(self@.0, self@.1, chip0, conns, j as int);
            let conn = &part.input_connections[j];
            let ghost all = self@.0 + self@.1;
            let ghost fi = find_pl(all, conn@.foreign.name);
            proof {
                lemma_find_pl_cat(self@.0, self@.1, conn@.foreign.name);
                lemma_find_pl(self@.0, conn@.foreign.name);
                lemma_find_pl(self@.1, conn@.foreign.name);
                lemma_find_pl(all, conn@.foreign.name);
            }
            let found: &Pinline = match position_of(&self.input, conn.foreign.name.as_str()) {
                Some(i) => &self.input[i],
                None => match position_of(&self.internal, conn.foreign.name.as_str()) {
                    Some(i) => &self.internal[i],
                    None => vstd::pervasive::unreached(),
                },
            };
            assert(found@ == all[fi]);
            let projected = found.clone().into_own(conn);
            proof {
                lemma_apply_indices_len(
                    blank_pins(conn@.own.indices.len()),
                    all[fi].pins,
                    conn@.own.indices,
                    conn@.foreign.indices,
                    conn@.own.indices.len() as int,
                );
                lemma_pls_shape_eq_find(chip0.input, chip_view(part.chip).input, conn@.own.name);
                lemma_find_pl(chip0.input, conn@.own.name);
                let oi = find_pl(chip0.input, conn@.own.name);
                assert(chip0.input[oi].name == chip_view(part.chip).input[oi].name
                    && chip0.input[oi].pins.len() == chip_view(part.chip).input[oi].pins.len());
            }
            part.chip.pinlines.input.set_pinline(projected);
            proof {
                assert(chip_view(part.chip) =~= send_conn(self@.0, self@.1, cur, conns[j as int]));
            }
            j = j + 1;
        }
    }

    /// Receive each output connection of `part` in order: locate the child's
    /// output pinline by its own name, project it onto the foreign endpoint,
    /// and write it into this chip's internal or output pinline of that name.
    pub fn receive_output(&mut self, part: &Child)
        requires
            forall|j: int|
                0 <= j < part@.output_connections.len() ==> output_conn_wf(
                    #[trigger] part@.output_connections[j],
                    part@.chip,
                    old(self)@.1,
                    old(self)@.2,
                ),
        ensures
            ({
                let rec = recv_all(
                    old(self)@.1,
                    old(self)@.2,
                    part@.chip.output,
                    part@.output_connections,
                    part@.output_connections.len() as int,
                );
                &&& final(self)@.1 == rec.0
                &&& final(self)@.2 == rec.1
            }),
            final(self)@.0 == old(self)@.0,
            final(self).input == old(self).input,
    {
        let ghost pint0 = old(self)@.1;
        let ghost pout0 = old(self)@.2;
        let ghost cout = part@.chip.output;
        let ghost conns = part@.output_connections;
        let n = part.output_connections.len();
        let mut j: usize = 0;
        while j < n
            invariant
                j <= n,
                n == part.output_connections@.len(),
                conns == conns_view(part.output_connections),
                cout == chip_view(part.chip).output,
                pint0 == old(self)@.1,
                pout0 == old(self)@.2,
                self.input == old(self).input,
                forall|t: int|
                    0 <= t < n ==> recv_conn_ok(pint0, pout0, cout, #[trigger] conns[t]),
                ({
                    let rec = recv_all(pint0, pout0, cout, conns, j as int);
                    pls_view(self.internal) == rec.0 && pls_view(self.output) == rec.1
                }),
            decreases n - j,
        {
            proof {
                assert(conns[j as int] == conns_view(part.output_connections)[j as int]);
                lemma_recv_all_frame(pint0, pout0, cout, conns, j as int);
            }
            let ghost rec = recv_all(pint0, pout0, cout, conns, j as int);
            let conn = &part.output_connections[j];
            proof {
                lemma_find_pl(cout, conn@.own.name);
            }
            let src: &Pinline = match position_of(&part.chip.pinlines.output, conn.own.name.as_str()) {
                Some(i) => &part.chip.pinlines.output[i],
                None => vstd::pervasive::unreached(),
            };
            let ghost oi = find_pl(cout, conn@.own.name);
            assert(src@ == cout[oi]);
            let projected = src.clone().into_foreign(conn);
            proof {
                lemma_apply_indices_len(
                    blank_pins(conn@.foreign.indices.len()),
                    cout[oi].pins,
                    conn@.foreign.indices,
                    conn@.own.indices,
                    conn@.foreign.indices.len() as int,
                );
                lemma_cat_shape_eq(pint0, pout0, Seq::empty(), rec.0, rec.1, Seq::empty());
                lemma_pls_shape_eq_find(pint0 + pout0, rec.0 + rec.1, conn@.foreign.name);
                lemma_find_pl_cat(rec.0, rec.1, conn@.foreign.name);
                lemma_find_pl_cat(pint0, pout0, conn@.foreign.name);
                lemma_find_pl(pint0 + pout0, conn@.foreign.name);
            }
            let ghost fi = find_pl(rec.0 + rec.1, conn@.foreign.name);
            match position_of(&self.internal, conn.foreign.name.as_str()) {
                Some(i) => {
                    let slot = &mut self.internal[i];
                    *slot = projected;
                },
                None => match position_of(&self.output, conn.foreign.name.as_str()) {
                    Some(i) => {
                        let slot = &mut self.output[i];
                        *slot = projected;
                    },
                    None => {
                        proof {
                            assert(false);
                        }
                    },
                },
            }
            proof {
                let stepped = recv_conn(rec.0, rec.1, cout, conns[j as int]);
                assert(pls_view(self.internal) =~= stepped.0);
                assert(pls_view(self.output) =~= stepped.1);
            }
            j = j + 1;
        }
    }
}

/// `set_many` keeps every name and width, provided each item matches the
/// declared width of its target.
pub proof fn lemma_set_many_shape(pls: Seq<PinlineV>, items: Seq<PinlineV>, k: int)
    requires
        k <= items.len(),
        forall|t: int|
            0 <= t < k ==> has_pl(pls, (#[trigger] items[t]).name) && pls[find_pl(
                pls,
                items[t].name,
            )].pins.len() == items[t].pins.len(),
    ensures
        pls_shape_eq(pls, set_many(pls, items, k)),
    decreases k,
{
    if k > 0 {
        lemma_set_many_shape(pls, items, k - 1);
        let prev = set_many(pls, items, k - 1);
        lemma_pls_shape_eq_find(pls, prev, items[k - 1].name);
        lemma_find_pl(pls, items[k - 1].name);
        let f = find_pl(pls, items[k - 1].name);
        assert(pls[f].name == prev[f].name && pls[f].pins.len() == prev[f].pins.len());
        lemma_set_pins_shape(prev, items[k - 1].name, items[k - 1].pins);
        lemma_pls_shape_eq_trans(pls, prev, set_many(pls, items, k));
    }
}

// ============================================================================
// Children: executable code
// ============================================================================

/// The first `k` connections that feed the child: those whose own endpoint
/// names one of the child's input pinlines `inpls`, together with those whose
/// own endpoint names no pinline of the child at all — the latter are kept so
/// that chip construction can reject them.
pub open spec fn conns_for_input(
    conns: Seq<ConnectionV>,
    inpls: Seq<PinlineV>,
    outpls: Seq<PinlineV>,
    k: int,
) -> Seq<ConnectionV>
    decreases k,
{
    if k <= 0 {
        Seq::empty()
    } else {
        let prev = conns_for_input(conns, inpls, outpls, k - 1);
        if has_pl(inpls, conns[k - 1].own.name) || !has_pl(outpls, conns[k - 1].own.name) {
            prev.push(conns[k - 1])
        } else {
            prev
        }
    }
}

/// The first `k` connections whose own endpoint names a pinline of `pls`.
pub open spec fn conns_with_name_in(
    conns: Seq<ConnectionV>,
    pls: Seq<PinlineV>,
    k: int,
) -> Seq<ConnectionV>
    decreases k,
{
    if k <= 0 {
        Seq::empty()
    } else {
        let prev = conns_with_name_in(conns, pls, k - 1);
        if has_pl(pls, conns[k - 1].own.name) {
            prev.push(conns[k - 1])
        } else {
            prev
        }
    }
}

impl Child {
    /// Wrap a chip with its wiring, partitioning the connections by whether
    /// their own endpoint names an input or an output pinline of the chip.  A
    /// connection that names neither is kept with the input connections, so
    /// that chip construction rejects it as a missing child pinline.
    pub fn new(chip: Chip, connections: Vec<ChildConnection>) -> (r: Self)
        ensures
            r@.chip == chip@,
            r@.input_connections == conns_for_input(
                conns_view(connections),
                chip@.input,
                chip@.output,
                connections@.len() as int,
            ),
            r@.output_connections == conns_with_name_in(
                conns_view(connections),
                chip@.output,
                connections@.len() as int,
            ),
    {
        let ghost cv = conns_view(connections);
        let n = connections.len();
        let mut input_connections: Vec<ChildConnection> = Vec::new();
        let mut output_connections: Vec<ChildConnection> = Vec::new();
        let mut i: usize = 0;
        while i < n
            invariant
                i <= n,
                n == connections@.len(),
                cv == conns_view(connections),
                conns_view(input_connections) == conns_for_input(
                    cv,
                    chip@.input,
                    chip@.output,
                    i as int,
                ),
                conns_view(output_connections) == conns_with_name_in(cv, chip@.output, i as int),
            decreases n - i,
        {
            assert(cv[i as int] == connections@[i as int]@);
            let c = &connections[i];
            let in_input = matches!(
                position_of(&chip.pinlines.input, c.own.name.as_str()),
                Some(_),
            );
            let in_output = matches!(
                position_of(&chip.pinlines.output, c.own.name.as_str()),
                Some(_),
            );
            if in_input || !in_output {
                input_connections.push(c.clone());
                assert(conns_view(input_connections) =~= conns_for_input(
                    cv,
                    chip@.input,
                    chip@.output,
                    i as int + 1,
                ));
            } else {
                assert(conns_view(input_connections) =~= conns_for_input(
                    cv,
                    chip@.input,
                    chip@.output,
                    i as int + 1,
                ));
            }
            if in_output {
                output_connections.push(c.clone());
                assert(conns_view(output_connections) =~= conns_with_name_in(
                    cv,
                    chip@.output,
                    i as int + 1,
                ));
            } else {
                assert(conns_view(output_connections) =~= conns_with_name_in(
                    cv,
                    chip@.output,
                    i as int + 1,
                ));
            }
            i = i + 1;
        }
        Child { chip, input_connections, output_connections }
    }
}

// ============================================================================
// Builtin chips: executable code
// ============================================================================

impl Chip {
    /// Construct a builtin chip with its fixed layout; every pin starts false.
    pub fn new_builtin(id: BuiltinChips) -> (r: Self)
        ensures
            r@ == builtin_layout(id),
            chip_wf(r@),
    {
        let name: &str;
        let mut input: Pinlines = Vec::new();
        let mut output: Pinlines = Vec::new();
        let mut internal: Pinlines = Vec::new();
        let clocked: bool;
        match id {
            BuiltinChips::Nand => {
                name = "Nand";
                input.push(Pinline::with_capacity("a", 1));
                input.push(Pinline::with_capacity("b", 1));
                output.push(Pinline::with_capacity("out", 1));
                clocked = false;
            },
            BuiltinChips::Not => {
                name = "Not";
                input.push(Pinline::with_capacity("in", 1));
                output.push(Pinline::with_capacity("out", 1));
                clocked = false;
            },
            BuiltinChips::DFF => {
                name = "DFF";
                input.push(Pinline::with_capacity("in", 1));
                output.push(Pinline::with_capacity("out", 1));
                internal.push(Pinline::with_capacity("buf0", 1));
                internal.push(Pinline::with_capacity("buf1", 1));
                clocked = true;
            },
            BuiltinChips::Mux => {
                name = "Mux";
                input.push(Pinline::with_capacity("a", 1));
                input.push(Pinline::with_capacity("b", 1));
                input.push(Pinline::with_capacity("sel", 1));
                output.push(Pinline::with_capacity("out", 1));
                clocked = false;
            },
            BuiltinChips::Bit => {
                name = "Bit";
                input.push(Pinline::with_capacity("in", 1));
                input.push(Pinline::with_capacity("load", 1));
                output.push(Pinline::with_capacity("out", 1));
                internal.push(Pinline::with_capacity("buf0", 1));
                internal.push(Pinline::with_capacity("buf1", 1));
                clocked = true;
            },
        }
        let r = Chip {
            name: name.to_owned(),
            pinlines: ChipPinlines::new(input, internal, output),
            parts: Vec::new(),
            clocked,
            builtin_id: Some(id),
        };
        proof {
            assert(blank_pins(1) =~= seq![false]);
            assert(parts_view(r.parts@, 0) =~= Seq::<ChildV>::empty());
            assert(r@ =~= builtin_layout(id));
            lemma_builtin_layout_wf(id);
        }
        r
    }

    /// A chip is builtin exactly when it has no children.
    pub fn is_builtin(&self) -> (r: bool)
        ensures
            r == (self@.parts.len() == 0),
    {
        proof {
            lemma_parts_view_len(self.parts@, self.parts@.len() as int);
        }
        self.parts.is_empty()
    }
}

pub proof fn lemma_parts_view_len(v: Seq<Child>, n: int)
    requires
        0 <= n <= v.len(),
    ensures
        parts_view(v, n).len() == n,
    decreases n,
{
    if n > 0 {
        lemma_parts_view_len(v, n - 1);
    }
}

/// Elementwise reading of `parts_view`.
pub proof fn lemma_parts_view_index(v: Seq<Child>, n: int, i: int)
    requires
        0 <= i < n <= v.len(),
    ensures
        parts_view(v, n).len() == n,
        parts_view(v, n)[i] == child_view(v[i]),
    decreases n,
{
    lemma_parts_view_len(v, n);
    if i < n - 1 {
        lemma_parts_view_index(v, n - 1, i);
    }
}

/// `parts_view` maps an update of one element to an update of the view.
pub proof fn lemma_parts_view_update(v: Seq<Child>, i: int, x: Child, n: int)
    requires
        0 <= i < v.len(),
        0 <= n <= v.len(),
    ensures
        i < n ==> parts_view(v.update(i, x), n) == parts_view(v, n).update(i, child_view(x)),
        i >= n ==> parts_view(v.update(i, x), n) == parts_view(v, n),
    decreases n,
{
    if n > 0 {
        lemma_parts_view_update(v, i, x, n - 1);
        lemma_parts_view_len(v, n);
        lemma_parts_view_len(v.update(i, x), n);
        if i < n {
            if i == n - 1 {
                assert(parts_view(v.update(i, x), n) =~= parts_view(v, n).update(
                    i,
                    child_view(x),
                ));
            } else {
                assert(parts_view(v.update(i, x), n) =~= parts_view(v, n).update(
                    i,
                    child_view(x),
                ));
            }
        } else {
            assert(parts_view(v.update(i, x), n) =~= parts_view(v, n));
        }
    } else {
        assert(parts_view(v.update(i, x), n) =~= parts_view(v, n));
    }
}

// ============================================================================
// Evaluation: executable code
// ============================================================================

impl Chip {
    fn evaluate_builtin(&mut self) -> (r: &Pinlines)
        requires
            chip_wf(old(self)@),
            old(self)@.builtin_id is Some,
            !old(self).clocked,
        ensures
            final(self)@ == builtin_eval(old(self)@),
            pls_view(*r) == final(self)@.output,
    {
        let res: bool;
        match self.builtin_id {
            Some(BuiltinChips::Nand) => {
                res = !(self.pinlines.input[0].pins[0] && self.pinlines.input[1].pins[0]);
            },
            Some(BuiltinChips::Not) => {
                res = !self.pinlines.input[0].pins[0];
            },
            Some(BuiltinChips::Mux) => {
                if self.pinlines.input[2].pins[0] {
                    res = self.pinlines.input[1].pins[0];
                } else {
                    res = self.pinlines.input[0].pins[0];
                }
            },
            _ => {
                return vstd::pervasive::unreached();
            },
        }
        let slot = &mut self.pinlines.output[0];
        slot.pins.set(0, res);
        assert(self@ =~= builtin_eval(old(self)@)) by {
            assert(pls_view(self.pinlines.output) =~= set_pin0(old(self)@.output, 0, res));
        }
        &self.pinlines.output
    }

    fn read_input_builtin(&mut self)
        requires
            chip_wf(old(self)@),
            old(self)@.builtin_id is Some,
            old(self).clocked,
        ensures
            final(self)@ == builtin_tick(old(self)@),
    {
        match self.builtin_id {
            Some(BuiltinChips::DFF) => {
                let v0 = self.pinlines.internal[0].pins[0];
                let slot1 = &mut self.pinlines.internal[1];
                slot1.pins.set(0, v0);
                let vin = self.pinlines.input[0].pins[0];
                let slot0 = &mut self.pinlines.internal[0];
                slot0.pins.set(0, vin);
                assert(self@ =~= builtin_tick(old(self)@)) by {
                    let shifted = set_pin0(old(self)@.internal, 1, pin0(old(self)@.internal, 0));
                    assert(pls_view(self.pinlines.internal) =~= set_pin0(
                        shifted,
                        0,
                        pin0(old(self)@.input, 0),
                    ));
                }
            },
            Some(BuiltinChips::Bit) => {
                let v0 = self.pinlines.internal[0].pins[0];
                let slot1 = &mut self.pinlines.internal[1];
                slot1.pins.set(0, v0);
                let ghost shifted = set_pin0(old(self)@.internal, 1, pin0(old(self)@.internal, 0));
                assert(pls_view(self.pinlines.internal) =~= shifted);
                if self.pinlines.input[1].pins[0] {
                    let vin = self.pinlines.input[0].pins[0];
                    let slot0 = &mut self.pinlines.internal[0];
                    slot0.pins.set(0, vin);
                    assert(self@ =~= builtin_tick(old(self)@)) by {
                        assert(pls_view(self.pinlines.internal) =~= set_pin0(
                            shifted,
                            0,
                            pin0(old(self)@.input, 0),
                        ));
                    }
                } else {
                    assert(self@ =~= builtin_tick(old(self)@));
                }
            },
            _ => {
                vstd::pervasive::unreached::<()>();
            },
        }
    }

    fn produce_output_builtin(&mut self) -> (r: &Pinlines)
        requires
            chip_wf(old(self)@),
            old(self)@.builtin_id is Some,
            old(self).clocked,
        ensures
            final(self)@ == builtin_tock(old(self)@),
            pls_view(*r) == final(self)@.output,
    {
        match self.builtin_id {
            Some(BuiltinChips::DFF) | Some(BuiltinChips::Bit) => {
                let v = self.pinlines.internal[1].pins[0];
                let slot = &mut self.pinlines.output[0];
                slot.pins.set(0, v);
                assert(self@ =~= builtin_tock(old(self)@)) by {
                    assert(pls_view(self.pinlines.output) =~= set_pin0(old(self)@.output, 0, v));
                }
            },
            _ => {
                vstd::pervasive::unreached::<()>();
            },
        }
        &self.pinlines.output
    }
}

impl Chip {
    /// One combinational pass over the children: each unclocked child, in
    /// declared order, is driven, evaluated and read back.
    fn run_unclocked_children(&mut self, Ghost(shape): Ghost<ChipV>)
        requires
            chip_wf(old(self)@),
            same_structure(shape, old(self)@),
            old(self)@.builtin_id is None,
        ensures
            final(self)@ == comb_pass(shape, old(self)@, old(self)@.parts.len() as int),
        decreases cdepth(self@), 0int,
    {
        let ghost base = old(self)@;
        let n = self.parts.len();
        proof {
            lemma_parts_view_len(old(self).parts@, old(self).parts@.len() as int);
        }
        let mut i: usize = 0;
        while i < n
            invariant
                i <= n,
                n == self.parts@.len(),
                base == old(self)@,
                chip_wf(base),
                same_structure(shape, base),
                base.builtin_id is None,
                n as int == base.parts.len(),
                self@ == comb_pass(shape, base, i as int),
            decreases n - i,
        {
            proof {
                lemma_comb_pass_preserves(shape, base, i as int);
                lemma_wf_respects_structure(base, self@);
                lemma_parts_view_len(self.parts@, n as int);
                lemma_parts_view_index(self.parts@, n as int, i as int);
            }
            let ghost cur = self@;
            let ghost child = cur.parts[i as int];
            let part_clocked = self.parts[i].chip.clocked;
            if !part_clocked {
                proof {
                    lemma_pass_step_setup(shape, base, cur, i as int + 1);
                }
                let ghost sent_spec = child_after_send(cur.input, cur.internal, child);
                let ghost pv = self.parts@;
                let part = &mut self.parts[i];
                self.pinlines.send_input(part);
                proof {
                    assert(part@.chip == sent_spec);
                    lemma_ss_cdepth(shape.parts[i as int].chip, sent_spec);
                    lemma_cdepth_child(shape, i as int);
                    lemma_ss_cdepth(shape, base);
                    assert(cdepth(part.chip@) < cdepth(base));
                }
                part.chip.evaluate();
                let ghost done = eval_spec(shape.parts[i as int].chip, sent_spec);
                proof {
                    lemma_ss_symm(shape.parts[i as int].chip, sent_spec);
                    lemma_eval_agree(sent_spec, shape.parts[i as int].chip, sent_spec);
                    assert(part@.chip == done);
                    lemma_eval_preserves(shape.parts[i as int].chip, sent_spec);
                    lemma_ss_trans(child.chip, sent_spec, done);
                    assert(child_wf(cur.input, cur.internal, cur.output, child));
                    assert forall|j: int| 0 <= j < part@.output_connections.len() implies
                        output_conn_wf(
                        #[trigger] part@.output_connections[j],
                        part@.chip,
                        cur.internal,
                        cur.output,
                    ) by {
                        let conn = child.output_connections[j];
                        assert(output_conn_wf(conn, child.chip, cur.internal, cur.output));
                        lemma_pls_shape_eq_find(child.chip.output, done.output, conn.own.name);
                        lemma_find_pl(child.chip.output, conn.own.name);
                        let oi = find_pl(child.chip.output, conn.own.name);
                        assert(child.chip.output[oi].name == done.output[oi].name
                            && child.chip.output[oi].pins.len() == done.output[oi].pins.len());
                    }
                }
                self.pinlines.receive_output(part);
                proof {
                    let newpart = self.parts@[i as int];
                    assert(self.parts@ == pv.update(i as int, newpart));
                    lemma_parts_view_update(pv, i as int, newpart, n as int);
                    assert(child_view(newpart) == ChildV {
                        chip: done,
                        input_connections: child.input_connections,
                        output_connections: child.output_connections,
                    });
                    assert(self@ =~= comb_pass(shape, base, i as int + 1));
                }
            } else {
                proof {
                    assert(self@ =~= comb_pass(shape, base, i as int + 1));
                }
            }
            i = i + 1;
        }
    }

    /// Evaluate an unclocked chip: builtins compute directly; a composite
    /// drives, evaluates and reads back every child in declared order.  The
    /// author of a composite chip is responsible for listing children in
    /// topological order of their internal-pin dependencies.
    pub fn evaluate(&mut self) -> (r: &Pinlines)
        requires
            chip_wf(old(self)@),
            !old(self).clocked,
        ensures
            final(self)@ == eval_spec(old(self)@, old(self)@),
            same_structure(old(self)@, final(self)@),
            chip_wf(final(self)@),
            pls_view(*r) == final(self)@.output,
        decreases cdepth(self@), 1int,
    {
        let ghost ov = old(self)@;
        proof {
            lemma_ss_refl(ov);
        }
        if self.is_builtin() {
            proof {
                lemma_eval_preserves(ov, ov);
                lemma_wf_respects_structure(ov, builtin_eval(ov));
            }
            return self.evaluate_builtin();
        }
        self.run_unclocked_children(Ghost(ov));
        proof {
            lemma_comb_pass_preserves(ov, ov, ov.parts.len() as int);
            lemma_wf_respects_structure(ov, self@);
        }
        &self.pinlines.output
    }

    /// Tick for clocked chips: unclocked children stabilise first, then every
    /// clocked child receives its inputs and ticks.  No output is produced.
    pub fn read_input(&mut self)
        requires
            chip_wf(old(self)@),
            old(self).clocked,
        ensures
            final(self)@ == tick_spec(old(self)@, old(self)@),
            same_structure(old(self)@, final(self)@),
            chip_wf(final(self)@),
        decreases cdepth(self@), 1int,
    {
        let ghost ov = old(self)@;
        proof {
            lemma_ss_refl(ov);
        }
        if self.is_builtin() {
            proof {
                lemma_tick_preserves(ov, ov);
                lemma_wf_respects_structure(ov, builtin_tick(ov));
            }
            self.read_input_builtin();
            return;
        }
        self.run_unclocked_children(Ghost(ov));
        let ghost stable = comb_pass(ov, ov, ov.parts.len() as int);
        proof {
            lemma_comb_pass_preserves(ov, ov, ov.parts.len() as int);
            lemma_wf_respects_structure(ov, stable);
            lemma_parts_view_len(self.parts@, self.parts@.len() as int);
        }
        let n = self.parts.len();
        let mut i: usize = 0;
        while i < n
            invariant
                i <= n,
                n == self.parts@.len(),
                ov == old(self)@,
                chip_wf(ov),
                ov.builtin_id is None,
                stable == comb_pass(ov, ov, ov.parts.len() as int),
                chip_wf(stable),
                same_structure(ov, stable),
                n as int == ov.parts.len(),
                self@ == tick_pass(ov, stable, i as int),
            decreases n - i,
        {
            proof {
                lemma_tick_pass_preserves(ov, stable, i as int);
                lemma_wf_respects_structure(stable, self@);
                lemma_ss_trans(ov, stable, self@);
                lemma_parts_view_len(self.parts@, n as int);
                lemma_parts_view_index(self.parts@, n as int, i as int);
            }
            let ghost cur = self@;
            let ghost child = cur.parts[i as int];
            let part_clocked = self.parts[i].chip.clocked;
            if part_clocked {
                proof {
                    lemma_pass_step_setup(ov, stable, cur, i as int + 1);
                }
                let ghost sent_spec = child_after_send(cur.input, cur.internal, child);
                let ghost pv = self.parts@;
                let part = &mut self.parts[i];
                self.pinlines.send_input(part);
                proof {
                    assert(part@.chip == sent_spec);
                    lemma_ss_cdepth(ov.parts[i as int].chip, sent_spec);
                    lemma_cdepth_child(ov, i as int);
                    assert(cdepth(part.chip@) < cdepth(ov));
                }
                part.chip.read_input();
                let ghost done = tick_spec(ov.parts[i as int].chip, sent_spec);
                proof {
                    lemma_ss_symm(ov.parts[i as int].chip, sent_spec);
                    lemma_tick_agree(sent_spec, ov.parts[i as int].chip, sent_spec);
                    assert(part@.chip == done);
                }
                proof {
                    let newpart = self.parts@[i as int];
                    assert(self.parts@ == pv.update(i as int, newpart));
                    lemma_parts_view_update(pv, i as int, newpart, n as int);
                    assert(child_view(newpart) == ChildV {
                        chip: done,
                        input_connections: child.input_connections,
                        output_connections: child.output_connections,
                    });
                    assert(self@ =~= tick_pass(ov, stable, i as int + 1));
                }
            } else {
                proof {
                    assert(self@ =~= tick_pass(ov, stable, i as int + 1));
                }
            }
            i = i + 1;
        }
        proof {
            assert(self@ == tick_spec(ov, ov));
            lemma_tick_preserves(ov, ov);
            lemma_wf_respects_structure(ov, self@);
        }
    }

    /// Tock for clocked chips: every clocked child tocks and its outputs are
    /// received, then the unclocked children stabilise; returns the chip's
    /// output pinlines.
    pub fn produce_output(&mut self) -> (r: &Pinlines)
        requires
            chip_wf(old(self)@),
            old(self).clocked,
        ensures
            final(self)@ == tock_spec(old(self)@, old(self)@),
            same_structure(old(self)@, final(self)@),
            chip_wf(final(self)@),
            pls_view(*r) == final(self)@.output,
        decreases cdepth(self@), 1int,
    {
        let ghost ov = old(self)@;
        proof {
            lemma_ss_refl(ov);
        }
        if self.is_builtin() {
            proof {
                lemma_tock_preserves(ov, ov);
                lemma_wf_respects_structure(ov, builtin_tock(ov));
            }
            return self.produce_output_builtin();
        }
        let n = self.parts.len();
        proof {
            lemma_parts_view_len(old(self).parts@, old(self).parts@.len() as int);
        }
        let mut i: usize = 0;
        while i < n
            invariant
                i <= n,
                n == self.parts@.len(),
                ov == old(self)@,
                chip_wf(ov),
                ov.builtin_id is None,
                n as int == ov.parts.len(),
                self@ == tock_pass(ov, ov, i as int),
            decreases n - i,
        {
            proof {
                lemma_ss_refl(ov);
                lemma_tock_pass_preserves(ov, ov, i as int);
                lemma_wf_respects_structure(ov, self@);
                lemma_parts_view_len(self.parts@, n as int);
                lemma_parts_view_index(self.parts@, n as int, i as int);
            }
            let ghost cur = self@;
            let ghost child = cur.parts[i as int];
            let part_clocked = self.parts[i].chip.clocked;
            if part_clocked {
                let ghost pv = self.parts@;
                proof {
                    lemma_wf_respects_structure(ov, cur);
                    assert(child_wf(cur.input, cur.internal, cur.output, child));
                    assert(child_same_structure(ov.parts[i as int], cur.parts[i as int]));
                    lemma_ss_cdepth(ov.parts[i as int].chip, child.chip);
                    lemma_cdepth_child(ov, i as int);
                }
                let part = &mut self.parts[i];
                part.chip.produce_output();
                let ghost done = tock_spec(ov.parts[i as int].chip, child.chip);
                proof {
                    lemma_ss_symm(ov.parts[i as int].chip, child.chip);
                    lemma_tock_agree(child.chip, ov.parts[i as int].chip, child.chip);
                    assert(part@.chip == done);
                    lemma_tock_preserves(ov.parts[i as int].chip, child.chip);
                    assert forall|j: int| 0 <= j < part@.output_connections.len() implies
                        output_conn_wf(
                        #[trigger] part@.output_connections[j],
                        part@.chip,
                        cur.internal,
                        cur.output,
                    ) by {
                        let conn = child.output_connections[j];
                        assert(output_conn_wf(conn, child.chip, cur.internal, cur.output));
                        lemma_pls_shape_eq_find(child.chip.output, done.output, conn.own.name);
                        lemma_find_pl(child.chip.output, conn.own.name);
                        let oi = find_pl(child.chip.output, conn.own.name);
                        assert(child.chip.output[oi].name == done.output[oi].name
                            && child.chip.output[oi].pins.len() == done.output[oi].pins.len());
                    }
                }
                self.pinlines.receive_output(part);
                proof {
                    let newpart = self.parts@[i as int];
                    assert(self.parts@ == pv.update(i as int, newpart));
                    lemma_parts_view_update(pv, i as int, newpart, n as int);
                    assert(child_view(newpart) == ChildV {
                        chip: done,
                        input_connections: child.input_connections,
                        output_connections: child.output_connections,
                    });
                    assert(self@ =~= tock_pass(ov, ov, i as int + 1));
                }
            } else {
                proof {
                    assert(self@ =~= tock_pass(ov, ov, i as int + 1));
                }
            }
            i = i + 1;
        }
        let ghost latched = tock_pass(ov, ov, n as int);
        proof {
            lemma_ss_refl(ov);
            lemma_tock_pass_preserves(ov, ov, n as int);
            lemma_wf_respects_structure(ov, latched);
            lemma_ss_trans(ov, ov, latched);
        }
        self.run_unclocked_children(Ghost(ov));
        proof {
            assert(self@ == tock_spec(ov, ov));
            lemma_tock_preserves(ov, ov);
            lemma_wf_respects_structure(ov, self@);
        }
        &self.pinlines.output
    }
}

// ============================================================================
// Custom chip construction
// ============================================================================

/// What can be wrong with the wiring of a composite chip, found when the chip
/// is constructed.
#[derive(Debug, Clone, Copy, PartialEq, Eq, Structural)]
pub enum WiringError {
    /// Two pinlines of the chip share a name.
    DuplicatePinlineName,
    /// A connection selects a different number of own and foreign pins.
    WidthMismatch,
    /// A connection's own endpoint names no pinline of the child.
    MissingChildPinline,
    /// A connection's own endpoint does not cover the child pinline's width.
    ChildWidthMismatch,
    /// A connection selects an own pin index outside the child pinline.
    OwnIndexOutOfRange,
    /// A connection's foreign endpoint names no pinline of the right parent
    /// sets.
    MissingParentPinline,
    /// A connection selects a foreign pin index outside the parent pinline.
    ForeignIndexOutOfRange,
    /// A connection's fan-out disagrees with the width of the parent pinline
    /// it must cover: a derived internal pinline it reuses, or the pinline an
    /// output connection writes.
    ParentWidthMismatch,
    /// Two output connections write the same parent pinline.
    DuplicateOutputAssignment,
}

/// The internal pinlines derived from the first `k` connections of `conns`:
/// a foreign name absent from the chip's input and output pinlines and from
/// the internal pinlines derived so far is added, with the connection's
/// fan-out as its width.
pub open spec fn add_internal(
    inV: Seq<PinlineV>,
    outV: Seq<PinlineV>,
    acc: Seq<PinlineV>,
    conns: Seq<ConnectionV>,
    k: int,
) -> Seq<PinlineV>
    decreases k,
{
    if k <= 0 {
        acc
    } else {
        let prev = add_internal(inV, outV, acc, conns, k - 1);
        let nm = conns[k - 1].foreign.name;
        if !has_pl(inV, nm) && !has_pl(outV, nm) && !has_pl(prev, nm) {
            prev.push(PinlineV { name: nm, pins: blank_pins(conns[k - 1].foreign.indices.len()) })
        } else {
            prev
        }
    }
}

/// The internal pinlines derived from the connections of the first `p` parts,
/// each part contributing its input connections followed by its output
/// connections.
pub open spec fn internal_of_parts(
    inV: Seq<PinlineV>,
    outV: Seq<PinlineV>,
    acc: Seq<PinlineV>,
    parts: Seq<ChildV>,
    p: int,
) -> Seq<PinlineV>
    decreases p,
{
    if p <= 0 {
        acc
    } else {
        let prev = internal_of_parts(inV, outV, acc, parts, p - 1);
        let conns = parts[p - 1].input_connections + parts[p - 1].output_connections;
        add_internal(inV, outV, prev, conns, conns.len() as int)
    }
}

pub open spec fn derive_internal(
    inV: Seq<PinlineV>,
    outV: Seq<PinlineV>,
    parts: Seq<ChildV>,
) -> Seq<PinlineV> {
    internal_of_parts(inV, outV, Seq::empty(), parts, parts.len() as int)
}

pub open spec fn any_clocked(parts: Seq<ChildV>) -> bool {
    exists|i: int| 0 <= i < parts.len() && (#[trigger] parts[i]).chip.clocked
}

/// The foreign names written by the first `k` connections of `conns`.
pub open spec fn conn_targets(conns: Seq<ConnectionV>, k: int) -> Seq<Seq<char>>
    decreases k,
{
    if k <= 0 {
        Seq::empty()
    } else {
        conn_targets(conns, k - 1).push(conns[k - 1].foreign.name)
    }
}

pub proof fn lemma_conn_targets(conns: Seq<ConnectionV>, k: int)
    requires
        0 <= k <= conns.len(),
    ensures
        conn_targets(conns, k).len() == k,
        forall|i: int| 0 <= i < k ==> conn_targets(conns, k)[i] == (#[trigger] conns[i]).foreign.name,
    decreases k,
{
    if k > 0 {
        lemma_conn_targets(conns, k - 1);
    }
}

/// The foreign names written by the output connections of all parts, across
/// children in declared order.
pub open spec fn out_targets(parts: Seq<ChildV>, p: int) -> Seq<Seq<char>>
    decreases p,
{
    if p <= 0 {
        Seq::empty()
    } else {
        let conns = parts[p - 1].output_connections;
        out_targets(parts, p - 1) + conn_targets(conns, conns.len() as int)
    }
}

pub open spec fn no_dup_out_targets(parts: Seq<ChildV>) -> bool {
    let t = out_targets(parts, parts.len() as int);
    forall|x: int, y: int| 0 <= x < y < t.len() ==> t[x] != t[y]
}

/// The wiring conditions of one child, against the parent's pinline sets.
pub open spec fn child_conns_ok(
    pin: Seq<PinlineV>,
    pint: Seq<PinlineV>,
    pout: Seq<PinlineV>,
    child: ChildV,
) -> bool {
    &&& forall|i: int|
        0 <= i < child.input_connections.len() ==> input_conn_wf(
            #[trigger] child.input_connections[i],
            child.chip,
            pin,
            pint,
        )
    &&& forall|i: int|
        0 <= i < child.output_connections.len() ==> output_conn_wf(
            #[trigger] child.output_connections[i],
            child.chip,
            pint,
            pout,
        )
}

/// When constructing a composite chip succeeds: the given input and output
/// pinline names are distinct, every connection of every child is well formed
/// against the derived internal pinlines, and no two output connections write
/// the same parent pinline.
pub open spec fn custom_valid(
    inV: Seq<PinlineV>,
    outV: Seq<PinlineV>,
    parts: Seq<ChildV>,
) -> bool {
    let pint = derive_internal(inV, outV, parts);
    &&& names_unique(inV + outV)
    &&& forall|p: int| 0 <= p < parts.len() ==> child_conns_ok(inV, pint, outV, #[trigger] parts[p])
    &&& no_dup_out_targets(parts)
}

/// The chip a successful construction returns.
pub open spec fn custom_chip(
    name: Seq<char>,
    inV: Seq<PinlineV>,
    outV: Seq<PinlineV>,
    parts: Seq<ChildV>,
) -> ChipV {
    ChipV {
        name,
        input: inV,
        internal: derive_internal(inV, outV, parts),
        output: outV,
        parts,
        clocked: any_clocked(parts),
        builtin_id: None,
    }
}

/// Appending a pinline whose name is fresh everywhere keeps the names of the
/// three sets distinct.
proof fn lemma_cat3_push_unique(
    a: Seq<PinlineV>,
    m: Seq<PinlineV>,
    b: Seq<PinlineV>,
    x: PinlineV,
)
    requires
        names_unique(a + m + b),
        !has_pl(a, x.name),
        !has_pl(m, x.name),
        !has_pl(b, x.name),
    ensures
        names_unique(a + m.push(x) + b),
{
    lemma_find_pl(a, x.name);
    lemma_find_pl(m, x.name);
    lemma_find_pl(b, x.name);
    let old_cat = a + m + b;
    let new_cat = a + m.push(x) + b;
    let al = a.len() as int;
    let ml = m.len() as int;
    let pos = al + ml;
    assert forall|i: int, j: int| 0 <= i < j < new_cat.len() implies new_cat[i].name
        != new_cat[j].name by {
        let oi = if i < pos {
            i
        } else {
            i - 1
        };
        let oj = if j < pos {
            j
        } else {
            j - 1
        };
        if i != pos {
            assert(new_cat[i] == old_cat[oi]);
            if oi < al {
                assert(old_cat[oi] == a[oi]);
            } else if oi < al + ml {
                assert(old_cat[oi] == m[oi - al]);
            } else {
                assert(old_cat[oi] == b[oi - al - ml]);
            }
        }
        if j != pos {
            assert(new_cat[j] == old_cat[oj]);
            if oj < al {
                assert(old_cat[oj] == a[oj]);
            } else if oj < al + ml {
                assert(old_cat[oj] == m[oj - al]);
            } else {
                assert(old_cat[oj] == b[oj - al - ml]);
            }
        }
        if i == pos {
            assert(new_cat[i] == x);
        }
        if j == pos {
            assert(new_cat[j] == x);
        }
        if i != pos && j != pos {
            assert(old_cat[oi].name != old_cat[oj].name);
        }
    }
}

proof fn lemma_add_internal_unique(
    inV: Seq<PinlineV>,
    outV: Seq<PinlineV>,
    acc: Seq<PinlineV>,
    conns: Seq<ConnectionV>,
    k: int,
)
    requires
        names_unique(inV + acc + outV),
    ensures
        names_unique(inV + add_internal(inV, outV, acc, conns, k) + outV),
    decreases k,
{
    if k > 0 {
        lemma_add_internal_unique(inV, outV, acc, conns, k - 1);
        let prev = add_internal(inV, outV, acc, conns, k - 1);
        let nm = conns[k - 1].foreign.name;
        if !has_pl(inV, nm) && !has_pl(outV, nm) && !has_pl(prev, nm) {
            lemma_cat3_push_unique(
                inV,
                prev,
                outV,
                PinlineV { name: nm, pins: blank_pins(conns[k - 1].foreign.indices.len()) },
            );
        }
    }
}

/// The names of the derived internal pinlines are fresh, so a chip built from
/// distinct input and output names has distinct names throughout.
pub proof fn lemma_derive_internal_unique(
    inV: Seq<PinlineV>,
    outV: Seq<PinlineV>,
    parts: Seq<ChildV>,
    p: int,
)
    requires
        names_unique(inV + outV),
    ensures
        names_unique(inV + internal_of_parts(inV, outV, Seq::empty(), parts, p) + outV),
    decreases p,
{
    if p <= 0 {
        assert(inV + Seq::<PinlineV>::empty() + outV =~= inV + outV);
    } else {
        lemma_derive_internal_unique(inV, outV, parts, p - 1);
        let prev = internal_of_parts(inV, outV, Seq::empty(), parts, p - 1);
        let conns = parts[p - 1].input_connections + parts[p - 1].output_connections;
        lemma_add_internal_unique(inV, outV, prev, conns, conns.len() as int);
    }
}

/// The pinline at position `k` of the concatenation of two pinline sets.
fn pl_at<'a>(a: &'a Vec<Pinline>, b: &'a Vec<Pinline>, k: usize) -> (r: &'a Pinline)
    requires
        (k as int) < pls_view(*a).len() + pls_view(*b).len(),
    ensures
        r@ == (pls_view(*a) + pls_view(*b))[k as int],
{
    if k < a.len() {
        &a[k]
    } else {
        &b[k - a.len()]
    }
}

/// Whether the names of two pinline sets, taken together, are all distinct.
fn check_names_unique(a: &Vec<Pinline>, b: &Vec<Pinline>) -> (r: bool)
    requires
        pls_view(*a).len() + pls_view(*b).len() <= usize::MAX,
    ensures
        r == names_unique(pls_view(*a) + pls_view(*b)),
{
    let ghost cat = pls_view(*a) + pls_view(*b);
    let n = a.len() + b.len();
    let mut i: usize = 0;
    while i < n
        invariant
            i <= n,
            n as int == cat.len(),
            cat == pls_view(*a) + pls_view(*b),
            forall|x: int, y: int| 0 <= x < y < n && x < i ==> cat[x].name != cat[y].name,
        decreases n - i,
    {
        let pi = pl_at(a, b, i);
        let mut j: usize = i + 1;
        while j < n
            invariant
                i < j <= n,
                n as int == cat.len(),
                cat == pls_view(*a) + pls_view(*b),
                pi@ == cat[i as int],
                forall|y: int| i < y < j ==> cat[i as int].name != cat[y].name,
            decreases n - j,
        {
            let pj = pl_at(a, b, j);
            if pi.name == pj.name {
                return false;
            }
            j = j + 1;
        }
        i = i + 1;
    }
    true
}

/// Whether every index of the endpoint addresses a pin of a bus of width
/// `bound`.
fn check_indices(ep: &PinlineConnection, bound: usize) -> (r: bool)
    ensures
        r == indices_in_range(ep@, bound as int),
{
    let n = ep.indices.len();
    let mut k: usize = 0;
    while k < n
        invariant
            k <= n,
            n == ep.indices@.len(),
            forall|t: int| 0 <= t < k ==> (#[trigger] ep.indices@[t] as int) < bound as int,
        decreases n - k,
    {
        if ep.indices[k] >= bound {
            assert(!indices_in_range(ep@, bound as int)) by {
                assert(0 <= (k as int) && (k as int) < ep@.indices.len());
                assert(!((ep@.indices[k as int] as int) < bound as int));
            }
            return false;
        }
        k = k + 1;
    }
    true
}

/// Check one connection that feeds a child input pinline; `None` exactly when
/// the connection is well formed.
fn check_send_conn(
    pin: &Vec<Pinline>,
    pint: &Vec<Pinline>,
    child_input: &Vec<Pinline>,
    conn: &ChildConnection,
) -> (r: Option<WiringError>)
    ensures
        r is None <==> send_conn_ok(pls_view(*pin), pls_view(*pint), pls_view(*child_input), conn@),
{
    proof {
        lemma_find_pl_cat(pls_view(*pin), pls_view(*pint), conn@.foreign.name);
        lemma_find_pl(pls_view(*pin), conn@.foreign.name);
        lemma_find_pl(pls_view(*pint), conn@.foreign.name);
        lemma_find_pl(pls_view(*pin) + pls_view(*pint), conn@.foreign.name);
    }
    if conn.own.indices.len() != conn.foreign.indices.len() {
        return Some(WiringError::WidthMismatch);
    }
    let oi = match position_of(child_input, conn.own.name.as_str()) {
        Some(i) => i,
        None => {
            return Some(WiringError::MissingChildPinline);
        },
    };
    if child_input[oi].pins.len() != conn.own.indices.len() {
        return Some(WiringError::ChildWidthMismatch);
    }
    if !check_indices(&conn.own, conn.own.indices.len()) {
        return Some(WiringError::OwnIndexOutOfRange);
    }
    let foreign_width: usize = match position_of(pin, conn.foreign.name.as_str()) {
        Some(i) => pin[i].pins.len(),
        None => match position_of(pint, conn.foreign.name.as_str()) {
            Some(i) => {
                if pint[i].pins.len() != conn.foreign.indices.len() {
                    return Some(WiringError::ParentWidthMismatch);
                }
                pint[i].pins.len()
            },
            None => {
                return Some(WiringError::MissingParentPinline);
            },
        },
    };
    if !check_indices(&conn.foreign, foreign_width) {
        return Some(WiringError::ForeignIndexOutOfRange);
    }
    None
}

/// Check one connection that carries a child output pinline to the parent;
/// `None` exactly when the connection is well formed.
fn check_recv_conn(
    pint: &Vec<Pinline>,
    pout: &Vec<Pinline>,
    child_output: &Vec<Pinline>,
    conn: &ChildConnection,
) -> (r: Option<WiringError>)
    ensures
        r is None <==> recv_conn_ok(pls_view(*pint), pls_view(*pout), pls_view(*child_output), conn@),
{
    proof {
        lemma_find_pl_cat(pls_view(*pint), pls_view(*pout), conn@.foreign.name);
        lemma_find_pl(pls_view(*pint), conn@.foreign.name);
        lemma_find_pl(pls_view(*pout), conn@.foreign.name);
        lemma_find_pl(pls_view(*pint) + pls_view(*pout), conn@.foreign.name);
    }
    if conn.own.indices.len() != conn.foreign.indices.len() {
        return Some(WiringError::WidthMismatch);
    }
    let oi = match position_of(child_output, conn.own.name.as_str()) {
        Some(i) => i,
        None => {
            return Some(WiringError::MissingChildPinline);
        },
    };
    if !check_indices(&conn.own, child_output[oi].pins.len()) {
        return Some(WiringError::OwnIndexOutOfRange);
    }
    let foreign_width: usize = match position_of(pint, conn.foreign.name.as_str()) {
        Some(i) => pint[i].pins.len(),
        None => match position_of(pout, conn.foreign.name.as_str()) {
            Some(i) => pout[i].pins.len(),
            None => {
                return Some(WiringError::MissingParentPinline);
            },
        },
    };
    if foreign_width != conn.foreign.indices.len() {
        return Some(WiringError::ParentWidthMismatch);
    }
    if !check_indices(&conn.foreign, conn.foreign.indices.len()) {
        return Some(WiringError::ForeignIndexOutOfRange);
    }
    None
}

pub open spec fn strs_view(v: Vec<String>) -> Seq<Seq<char>> {
    Seq::new(v@.len(), |i: int| v@[i]@)
}

/// Whether two entries of `v` hold the same string.
fn has_dup_str(v: &Vec<String>) -> (r: bool)
    ensures
        r <==> exists|x: int, y: int| 0 <= x < y < strs_view(*v).len() && strs_view(*v)[x]
            == strs_view(*v)[y],
{
    let ghost t = strs_view(*v);
    let n = v.len();
    let mut i: usize = 0;
    while i < n
        invariant
            i <= n,
            n == v@.len(),
            t == strs_view(*v),
            forall|x: int, y: int| 0 <= x < y < n && x < i ==> t[x] != t[y],
        decreases n - i,
    {
        let mut j: usize = i + 1;
        while j < n
            invariant
                i < j <= n,
                n == v@.len(),
                t == strs_view(*v),
                forall|y: int| i < y < j ==> t[i as int] != t[y],
            decreases n - j,
        {
            if v[i] == v[j] {
                assert(t[i as int] == t[j as int]);
                return true;
            }
            j = j + 1;
        }
        i = i + 1;
    }
    false
}

impl Chip {
    /// Construct a composite chip from its declared input and output pinlines
    /// and its children.  Internal pinlines are derived: each foreign name
    /// absent from input and output gets one, with the referencing
    /// connection's fan-out as its width.  The chip is clocked exactly when
    /// some child is.  The wiring is validated and a chip is returned only
    /// when the construction is well formed.
    pub fn new_custom(
        name: &str,
        input: Pinlines,
        output: Pinlines,
        parts: Vec<Child>,
    ) -> (r: Result<Chip, WiringError>)
        requires
            parts@.len() > 0,
            forall|i: int| 0 <= i < parts@.len() ==> chip_wf(child_view(#[trigger] parts@[i]).chip),
            pls_view(input).len() + pls_view(output).len() <= usize::MAX,
        ensures
            ({
                let inV = pls_view(input);
                let outV = pls_view(output);
                let pv = parts_view(parts@, parts@.len() as int);
                &&& (r is Ok <==> custom_valid(inV, outV, pv))
                &&& r is Ok ==> (r->Ok_0)@ == custom_chip(name@, inV, outV, pv) && chip_wf(
                    (r->Ok_0)@,
                )
            }),
    {
        let ghost inV = pls_view(input);
        let ghost outV = pls_view(output);
        let ghost pv = parts_view(parts@, parts@.len() as int);
        proof {
            lemma_parts_view_len(parts@, parts@.len() as int);
        }
        if !check_names_unique(&input, &output) {
            return Err(WiringError::DuplicatePinlineName);
        }
        let np = parts.len();

        // Derive the internal pinlines and the clocked flag.
        let mut internal: Pinlines = Vec::new();
        let mut clocked = false;
        let mut p: usize = 0;
        while p < np
            invariant
                p <= np,
                np == parts@.len(),
                inV == pls_view(input),
                outV == pls_view(output),
                pv == parts_view(parts@, np as int),
                pls_view(internal) == internal_of_parts(inV, outV, Seq::empty(), pv, p as int),
                clocked == (exists|t: int| 0 <= t < p && (#[trigger] pv[t]).chip.clocked),
            decreases np - p,
        {
            proof {
                lemma_parts_view_index(parts@, np as int, p as int);
            }
            let part = &parts[p];
            let ghost conns = pv[p as int].input_connections + pv[p as int].output_connections;
            let ghost prev_int = pls_view(internal);
            let nic = part.input_connections.len();
            let mut c: usize = 0;
            while c < nic
                invariant
                    c <= nic,
                    nic == part.input_connections@.len(),
                    inV == pls_view(input),
                    outV == pls_view(output),
                    part@ == pv[p as int],
                    0 <= p < np,
                    np as int == pv.len(),
                    conns == pv[p as int].input_connections + pv[p as int].output_connections,
                    pls_view(internal) == add_internal(inV, outV, prev_int, conns, c as int),
                decreases nic - c,
            {
                assert(conns[c as int] == part@.input_connections[c as int]);
                let conn = &part.input_connections[c];
                let nm_absent = matches!(position_of(&input, conn.foreign.name.as_str()), None)
                    && matches!(position_of(&output, conn.foreign.name.as_str()), None)
                    && matches!(position_of(&internal, conn.foreign.name.as_str()), None);
                if nm_absent {
                    internal.push(
                        Pinline::with_capacity(conn.foreign.name.as_str(), conn.foreign.get_pin_count()),
                    );
                    assert(pls_view(internal) =~= add_internal(inV, outV, prev_int, conns, c as int + 1));
                } else {
                    assert(pls_view(internal) =~= add_internal(inV, outV, prev_int, conns, c as int + 1));
                }
                c = c + 1;
            }
            let noc = part.output_connections.len();
            let mut c2: usize = 0;
            while c2 < noc
                invariant
                    c2 <= noc,
                    noc == part.output_connections@.len(),
                    inV == pls_view(input),
                    outV == pls_view(output),
                    part@ == pv[p as int],
                    0 <= p < np,
                    np as int == pv.len(),
                    conns == pv[p as int].input_connections + pv[p as int].output_connections,
                    pls_view(internal) == add_internal(
                        inV,
                        outV,
                        prev_int,
                        conns,
                        pv[p as int].input_connections.len() + c2 as int,
                    ),
                decreases noc - c2,
            {
                assert(conns[pv[p as int].input_connections.len() + c2 as int]
                    == part@.output_connections[c2 as int]);
                let conn = &part.output_connections[c2];
                let nm_absent = matches!(position_of(&input, conn.foreign.name.as_str()), None)
                    && matches!(position_of(&output, conn.foreign.name.as_str()), None)
                    && matches!(position_of(&internal, conn.foreign.name.as_str()), None);
                if nm_absent {
                    internal.push(
                        Pinline::with_capacity(conn.foreign.name.as_str(), conn.foreign.get_pin_count()),
                    );
                    assert(pls_view(internal) =~= add_internal(
                        inV,
                        outV,
                        prev_int,
                        conns,
                        pv[p as int].input_connections.len() + c2 as int + 1,
                    ));
                } else {
                    assert(pls_view(internal) =~= add_internal(
                        inV,
                        outV,
                        prev_int,
                        conns,
                        pv[p as int].input_connections.len() + c2 as int + 1,
                    ));
                }
                c2 = c2 + 1;
            }
            if part.chip.clocked {
                clocked = true;
            }
            assert(conns.len() == pv[p as int].input_connections.len() + noc);
            p = p + 1;
        }
        let ghost pint = derive_internal(inV, outV, pv);
        assert(pls_view(internal) == pint);

        // Validate every connection of every child.
        let mut p2: usize = 0;
        while p2 < np
            invariant
                p2 <= np,
                np == parts@.len(),
                inV == pls_view(input),
                outV == pls_view(output),
                pv == parts_view(parts@, np as int),
                np as int == pv.len(),
                pint == derive_internal(inV, outV, pv),
                pls_view(internal) == pint,
                forall|q: int| 0 <= q < p2 ==> child_conns_ok(inV, pint, outV, #[trigger] pv[q]),
            decreases np - p2,
        {
            proof {
                lemma_parts_view_index(parts@, np as int, p2 as int);
            }
            let part = &parts[p2];
            let nic = part.input_connections.len();
            let mut c: usize = 0;
            while c < nic
                invariant
                    c <= nic,
                    nic == part.input_connections@.len(),
                    inV == pls_view(input),
                    outV == pls_view(output),
                    pint == pls_view(internal),
                    pint == derive_internal(inV, outV, pv),
                    part@ == pv[p2 as int],
                    0 <= p2 < np,
                    np == parts@.len(),
                    np as int == pv.len(),
                    pv == parts_view(parts@, np as int),
                    forall|t: int| 0 <= t < c ==> input_conn_wf(
                        #[trigger] pv[p2 as int].input_connections[t],
                        pv[p2 as int].chip,
                        inV,
                        pint,
                    ),
                decreases nic - c,
            {
                if let Some(e) = check_send_conn(
                    &input,
                    &internal,
                    &part.chip.pinlines.input,
                    &part.input_connections[c],
                ) {
                    proof {
                        assert(!input_conn_wf(
                            pv[p2 as int].input_connections[c as int],
                            pv[p2 as int].chip,
                            inV,
                            pint,
                        ));
                        assert(!child_conns_ok(inV, pint, outV, pv[p2 as int]));
                        assert(!custom_valid(inV, outV, pv));
                    }
                    return Err(e);
                }
                c = c + 1;
            }
            let noc = part.output_connections.len();
            let mut c2: usize = 0;
            while c2 < noc
                invariant
                    c2 <= noc,
                    noc == part.output_connections@.len(),
                    inV == pls_view(input),
                    outV == pls_view(output),
                    pint == pls_view(internal),
                    pint == derive_internal(inV, outV, pv),
                    part@ == pv[p2 as int],
                    0 <= p2 < np,
                    np == parts@.len(),
                    np as int == pv.len(),
                    pv == parts_view(parts@, np as int),
                    forall|t: int| 0 <= t < noc ==> t < c2 ==> output_conn_wf(
                        #[trigger] pv[p2 as int].output_connections[t],
                        pv[p2 as int].chip,
                        pint,
                        outV,
                    ),
                decreases noc - c2,
            {
                if let Some(e) = check_recv_conn(
                    &internal,
                    &output,
                    &part.chip.pinlines.output,
                    &part.output_connections[c2],
                ) {
                    proof {
                        assert(!output_conn_wf(
                            pv[p2 as int].output_connections[c2 as int],
                            pv[p2 as int].chip,
                            pint,
                            outV,
                        ));
                        assert(!child_conns_ok(inV, pint, outV, pv[p2 as int]));
                        assert(!custom_valid(inV, outV, pv));
                    }
                    return Err(e);
                }
                c2 = c2 + 1;
            }
            p2 = p2 + 1;
        }

        // Reject two output connections writing the same parent pinline.
        let mut targets: Vec<String> = Vec::new();
        let mut p3: usize = 0;
        while p3 < np
            invariant
                p3 <= np,
                np == parts@.len(),
                pv == parts_view(parts@, np as int),
                np as int == pv.len(),
                strs_view(targets) == out_targets(pv, p3 as int),
            decreases np - p3,
        {
            proof {
                lemma_parts_view_index(parts@, np as int, p3 as int);
            }
            let part = &parts[p3];
            let noc = part.output_connections.len();
            let mut c: usize = 0;
            while c < noc
                invariant
                    c <= noc,
                    noc == part.output_connections@.len(),
                    part@ == pv[p3 as int],
                    0 <= p3 < np,
                    np as int == pv.len(),
                    strs_view(targets) == out_targets(pv, p3 as int) + conn_targets(
                        pv[p3 as int].output_connections,
                        c as int,
                    ),
                decreases noc - c,
            {
                let ghost oc = pv[p3 as int].output_connections;
                let ghost tv0 = strs_view(targets);
                let ghost owt = out_targets(pv, p3 as int);
                targets.push(part.output_connections[c].foreign.name.clone());
                proof {
                    lemma_conn_targets(oc, c as int);
                    lemma_conn_targets(oc, c as int + 1);
                    assert(oc[c as int] == conns_view(part.output_connections)[c as int]);
                    let lhs = strs_view(targets);
                    let rhs = owt + conn_targets(oc, c as int + 1);
                    assert(tv0.len() == owt.len() + c as int);
                    assert(lhs.len() == tv0.len() + 1);
                    assert forall|i: int| 0 <= i < lhs.len() implies lhs[i] == rhs[i] by {
                        if i < tv0.len() {
                            assert(lhs[i] == tv0[i]);
                            assert(tv0[i] == (owt + conn_targets(oc, c as int))[i]);
                            if i >= owt.len() {
                                assert(conn_targets(oc, c as int)[i - owt.len()]
                                    == oc[i - owt.len()].foreign.name);
                                assert(conn_targets(oc, c as int + 1)[i - owt.len()]
                                    == oc[i - owt.len()].foreign.name);
                            }
                        } else {
                            assert(lhs[i] == oc[c as int].foreign.name);
                            assert(rhs[i] == conn_targets(oc, c as int + 1)[c as int]);
                        }
                    }
                    assert(lhs =~= rhs);
                }
                c = c + 1;
            }
            p3 = p3 + 1;
        }
        if has_dup_str(&targets) {
            proof {
                assert(!no_dup_out_targets(pv));
                assert(!custom_valid(inV, outV, pv));
            }
            return Err(WiringError::DuplicateOutputAssignment);
        }

        let r = Chip {
            name: name.to_owned(),
            pinlines: ChipPinlines::new(input, internal, output),
            parts,
            clocked,
            builtin_id: None,
        };
        proof {
            lemma_parts_view_len(r.parts@, np as int);
            assert(r@ =~= custom_chip(name@, inV, outV, pv));
            lemma_derive_internal_unique(inV, outV, pv, np as int);
            assert forall|i: int| 0 <= i < pv.len() implies child_wf(
                inV,
                pint,
                outV,
                #[trigger] pv[i],
            ) by {
                lemma_parts_view_index(r.parts@, np as int, i);
                assert(child_conns_ok(inV, pint, outV, pv[i]));
            }
            assert(chip_wf(r@));
            assert(custom_valid(inV, outV, pv));
        }
        Ok(r)
    }
}

proof fn seqs_differ_at(a: Seq<char>, b: Seq<char>, i: int)
    requires
        0 <= i < a.len(),
        i < b.len(),
        a[i] != b[i],
    ensures
        a != b,
{
}

proof fn seqs_differ_in_len(a: Seq<char>, b: Seq<char>)
    requires
        a.len() != b.len(),
    ensures
        a != b,
{
}

/// Every builtin layout is well formed: its pinline names are distinct and its
/// shape is its own.
pub proof fn lemma_builtin_layout_wf(id: BuiltinChips)
    ensures
        chip_wf(builtin_layout(id)),
{
    reveal_strlit("a");
    reveal_strlit("b");
    reveal_strlit("in");
    reveal_strlit("out");
    reveal_strlit("sel");
    reveal_strlit("load");
    reveal_strlit("buf0");
    reveal_strlit("buf1");
    seqs_differ_at("a"@, "b"@, 0);
    seqs_differ_at("sel"@, "out"@, 0);
    seqs_differ_at("buf0"@, "buf1"@, 3);
    seqs_differ_at("load"@, "buf0"@, 0);
    seqs_differ_at("load"@, "buf1"@, 0);
    seqs_differ_in_len("a"@, "out"@);
    seqs_differ_in_len("b"@, "out"@);
    seqs_differ_in_len("a"@, "sel"@);
    seqs_differ_in_len("b"@, "sel"@);
    seqs_differ_in_len("in"@, "out"@);
    seqs_differ_in_len("in"@, "buf0"@);
    seqs_differ_in_len("in"@, "buf1"@);
    seqs_differ_in_len("in"@, "load"@);
    seqs_differ_in_len("load"@, "out"@);
    seqs_differ_in_len("out"@, "buf0"@);
    seqs_differ_in_len("out"@, "buf1"@);
    let c = builtin_layout(id);
    let cat = c.input + c.internal + c.output;
    match id {
        BuiltinChips::Nand => {
            assert(cat.len() == 3);
            assert(cat[0] == one_pl("a"@) && cat[1] == one_pl("b"@) && cat[2] == one_pl("out"@));
            assert(names_unique(cat));
        },
        BuiltinChips::Not => {
            assert(cat.len() == 2);
            assert(cat[0] == one_pl("in"@) && cat[1] == one_pl("out"@));
            assert(names_unique(cat));
        },
        BuiltinChips::DFF => {
            assert(cat.len() == 4);
            assert(cat[0] == one_pl("in"@) && cat[1] == one_pl("buf0"@) && cat[2] == one_pl(
                "buf1"@,
            ) && cat[3] == one_pl("out"@));
            assert(names_unique(cat));
        },
        BuiltinChips::Mux => {
            assert(cat.len() == 4);
            assert(cat[0] == one_pl("a"@) && cat[1] == one_pl("b"@) && cat[2] == one_pl("sel"@)
                && cat[3] == one_pl("out"@));
            assert(names_unique(cat));
        },
        BuiltinChips::Bit => {
            assert(cat.len() == 5);
            assert(cat[0] == one_pl("in"@) && cat[1] == one_pl("load"@) && cat[2] == one_pl(
                "buf0"@,
            ) && cat[3] == one_pl("buf1"@) && cat[4] == one_pl("out"@));
            assert(names_unique(cat));
        },
    }
}

// ============================================================================
// Laws
// ============================================================================

/// For any composite chip description whose given input and output pinline
/// names, taken together, are distinct, the chip the construction would build
/// has pairwise disjoint pinline names across input, internal and output: each
/// derived internal name is a foreign name absent from input and output and is
/// added at most once.  No condition on the children is needed.
pub proof fn lemma_custom_names_disjoint(
    name: Seq<char>,
    inV: Seq<PinlineV>,
    outV: Seq<PinlineV>,
    parts: Seq<ChildV>,
)
    requires
        names_unique(inV + outV),
    ensures
        ({
            let c = custom_chip(name, inV, outV, parts);
            names_unique(c.input + c.internal + c.output)
        }),
{
    lemma_derive_internal_unique(inV, outV, parts, parts.len() as int);
}

/// In a well-formed chip the pinline names of the input, internal and output
/// sets are pairwise disjoint, and unique within each set.
pub proof fn lemma_wf_pinline_names_disjoint(c: ChipV)
    requires
        chip_wf(c),
    ensures
        names_unique(c.input),
        names_unique(c.internal),
        names_unique(c.output),
        forall|i: int, j: int|
            0 <= i < c.input.len() && 0 <= j < c.internal.len() ==> (#[trigger] c.input[i]).name
                != (#[trigger] c.internal[j]).name,
        forall|i: int, j: int|
            0 <= i < c.input.len() && 0 <= j < c.output.len() ==> (#[trigger] c.input[i]).name
                != (#[trigger] c.output[j]).name,
        forall|i: int, j: int|
            0 <= i < c.internal.len() && 0 <= j < c.output.len() ==> (#[trigger] c.internal[i]).name
                != (#[trigger] c.output[j]).name,
{
    let cat = c.input + c.internal + c.output;
    let il = c.input.len() as int;
    let nl = c.internal.len() as int;
    assert forall|i: int, j: int|
        0 <= i < c.input.len() && 0 <= j < c.internal.len() implies (#[trigger] c.input[i]).name
        != (#[trigger] c.internal[j]).name by {
        assert(cat[i] == c.input[i] && cat[il + j] == c.internal[j]);
    }
    assert forall|i: int, j: int|
        0 <= i < c.input.len() && 0 <= j < c.output.len() implies (#[trigger] c.input[i]).name
        != (#[trigger] c.output[j]).name by {
        assert(cat[i] == c.input[i] && cat[il + nl + j] == c.output[j]);
    }
    assert forall|i: int, j: int|
        0 <= i < c.internal.len() && 0 <= j < c.output.len() implies (#[trigger] c.internal[i]).name
        != (#[trigger] c.output[j]).name by {
        assert(cat[il + i] == c.internal[i] && cat[il + nl + j] == c.output[j]);
    }
    assert forall|i: int, j: int| 0 <= i < j < c.input.len() implies (#[trigger] c.input[i]).name
        != (#[trigger] c.input[j]).name by {
        assert(cat[i] == c.input[i] && cat[j] == c.input[j]);
    }
    assert forall|i: int, j: int| 0 <= i < j < c.internal.len() implies (#[trigger] c.internal[i]).name
        != (#[trigger] c.internal[j]).name by {
        assert(cat[il + i] == c.internal[i] && cat[il + j] == c.internal[j]);
    }
    assert forall|i: int, j: int| 0 <= i < j < c.output.len() implies (#[trigger] c.output[i]).name
        != (#[trigger] c.output[j]).name by {
        assert(cat[il + nl + i] == c.output[i] && cat[il + nl + j] == c.output[j]);
    }
}

/// In a well-formed chip, every connection of every child selects the same
/// number of own and foreign pins.
pub proof fn lemma_wf_connection_widths(c: ChipV, i: int)
    requires
        chip_wf(c),
        0 <= i < c.parts.len(),
    ensures
        forall|j: int|
            0 <= j < c.parts[i].input_connections.len() ==> (#[trigger] c.parts[i]
                .input_connections[j]).own.indices.len() == c.parts[i]
                .input_connections[j].foreign.indices.len(),
        forall|j: int|
            0 <= j < c.parts[i].output_connections.len() ==> (#[trigger] c.parts[i]
                .output_connections[j]).own.indices.len() == c.parts[i]
                .output_connections[j].foreign.indices.len(),
{
    assert(child_wf(c.input, c.internal, c.output, c.parts[i]));
}

/// Evaluating an unclocked well-formed chip leaves every output pinline with
/// its declared name and width.
pub proof fn lemma_evaluate_output_widths(c: ChipV)
    requires
        chip_wf(c),
        !c.clocked,
    ensures
        eval_spec(c, c).output.len() == c.output.len(),
        forall|j: int|
            0 <= j < c.output.len() ==> (#[trigger] eval_spec(c, c).output[j]).name
                == c.output[j].name && eval_spec(c, c).output[j].pins.len()
                == c.output[j].pins.len(),
{
    lemma_ss_refl(c);
    lemma_eval_preserves(c, c);
}

/// The chip with pin 0 of input pinline `i` set.
pub open spec fn with_input_pin(c: ChipV, i: int, v: bool) -> ChipV {
    ChipV { input: set_pin0(c.input, i, v), ..c }
}

/// The one-cycle delay of the DFF: over two set-input/tick/tock cycles, the
/// output after the second cycle is the input captured by the first.
pub proof fn lemma_dff_one_cycle_delay(c: ChipV, v1: bool, v2: bool)
    requires
        chip_wf(c),
        c.builtin_id == Some(BuiltinChips::DFF),
    ensures
        ({
            let d1 = tock_spec(c, tick_spec(c, with_input_pin(c, 0, v1)));
            let d2 = tock_spec(c, tick_spec(c, with_input_pin(d1, 0, v2)));
            &&& d1.output[0].pins[0] == c.internal[0].pins[0]
            &&& d2.output[0].pins[0] == v1
        }),
{
}

/// The Bit register: a value stored under load is emitted one cycle later and
/// kept, cycle after cycle, while load stays low.
pub proof fn lemma_bit_load_and_hold(c: ChipV, v: bool, w1: bool, w2: bool)
    requires
        chip_wf(c),
        c.builtin_id == Some(BuiltinChips::Bit),
    ensures
        ({
            let d1 = tock_spec(c, tick_spec(c, with_input_pin(with_input_pin(c, 0, v), 1, true)));
            let d2 = tock_spec(c, tick_spec(c, with_input_pin(with_input_pin(d1, 0, w1), 1, false)));
            let d3 = tock_spec(c, tick_spec(c, with_input_pin(with_input_pin(d2, 0, w2), 1, false)));
            &&& d1.output[0].pins[0] == c.internal[0].pins[0]
            &&& d2.output[0].pins[0] == v
            &&& d3.output[0].pins[0] == v
        }),
{
}

/// Evaluating an unclocked builtin twice with no input change gives the same
/// chip as evaluating it once.
pub proof fn lemma_builtin_evaluate_idempotent(c: ChipV)
    requires
        chip_wf(c),
        !c.clocked,
        c.builtin_id is Some,
    ensures
        eval_spec(c, eval_spec(c, c)) == eval_spec(c, c),
{
    let e1 = eval_spec(c, c);
    let e2 = eval_spec(c, e1);
    assert(e2 =~~= e1);
}

} // verus!
