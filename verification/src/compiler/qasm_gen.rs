//! Peephole optimisation of circuits and their translation to OpenQASM 3.0
//! and to QIR (LLVM) text.
use vstd::prelude::*;
use crate::compiler::{GateView, PlanView, QuantumCircuitPlan, QuantumGate, gates_view, lemma_gates_view_push};
use crate::text::{decimal, push_decimal};

verus! {

/// Errors of the transpilers.
#[derive(Debug)]
pub enum TranspilerError {
    FormattingError(String),
    RegisterIndexOutOfBounds { size: usize, index: usize },
    QirConstraintViolated(String),
}

/// Optimiser and transpiler; level 0 turns the peephole optimiser off.
pub struct QuantumCodeGenerator {
    pub optimization_level: u8,
}

/// Whether a gate acts on qubit `q`: a Hadamard or Pauli-X on `q`, a CNOT
/// with `q` as control or target, and any oracle (which acts on the whole
/// register).
pub open spec fn touches(g: GateView, q: usize) -> bool {
    match g {
        GateView::H(p) => p == q,
        GateView::X(p) => p == q,
        GateView::CX(c, t) => c == q || t == q,
        GateView::Oracle(_) => true,
    }
}

/// The position of the last gate of `gates` that acts on qubit `q`, if any.
pub open spec fn last_touch(gates: Seq<GateView>, q: usize) -> Option<int>
    decreases gates.len(),
{
    if gates.len() == 0 {
        None
    } else if touches(gates.last(), q) {
        Some(gates.len() - 1)
    } else {
        last_touch(gates.drop_last(), q)
    }
}

/// The gates that the peephole pass keeps, read from the left: a Hadamard
/// or Pauli-X cancels the last kept gate acting on its qubit when that gate
/// is the same gate (so no other kept gate acts on the qubit in between),
/// and both go; every other gate is kept.
pub open spec fn peephole(gates: Seq<GateView>) -> Seq<GateView>
    decreases gates.len(),
{
    if gates.len() == 0 {
        seq![]
    } else {
        let out = peephole(gates.drop_last());
        let g = gates.last();
        match g {
            GateView::H(q) | GateView::X(q) => match last_touch(out, q) {
                Some(p) => if out[p] == g {
                    out.remove(p)
                } else {
                    out.push(g)
                },
                None => out.push(g),
            },
            _ => out.push(g),
        }
    }
}


/// The plan that `optimize_circuit` returns at a given level.
pub open spec fn optimized_plan(level: u8, plan: PlanView) -> PlanView {
    if level == 0 {
        plan
    } else {
        PlanView { required_qubits: plan.required_qubits, gates: peephole(plan.gates) }
    }
}

/// The gates other than Hadamard and Pauli-X, in order.
pub open spec fn multi_qubit_part(gates: Seq<GateView>) -> Seq<GateView>
    decreases gates.len(),
{
    if gates.len() == 0 {
        seq![]
    } else if gates.last() is H || gates.last() is X {
        multi_qubit_part(gates.drop_last())
    } else {
        multi_qubit_part(gates.drop_last()).push(gates.last())
    }
}

proof fn lemma_multi_qubit_part_remove(s: Seq<GateView>, p: int)
    requires
        0 <= p < s.len(),
        s[p] is H || s[p] is X,
    ensures
        multi_qubit_part(s.remove(p)) == multi_qubit_part(s),
    decreases s.len(),
{
    if p == s.len() - 1 {
        assert(s.remove(p) == s.drop_last());
    } else {
        lemma_multi_qubit_part_remove(s.drop_last(), p);
        assert(s.remove(p).drop_last() == s.drop_last().remove(p));
        assert(s.remove(p).last() == s.last());
    }
}

/// The number of Hadamard (when `hadamard`) or Pauli-X gates on qubit `q`.
pub open spec fn single_gate_count(gates: Seq<GateView>, hadamard: bool, q: usize) -> nat
    decreases gates.len(),
{
    if gates.len() == 0 {
        0
    } else {
        single_gate_count(gates.drop_last(), hadamard, q) + if is_single_on(gates.last(), hadamard, q) { 1nat } else { 0nat }
    }
}

/// Whether a gate is a Hadamard (when `hadamard`) or a Pauli-X on qubit `q`.
pub open spec fn is_single_on(g: GateView, hadamard: bool, q: usize) -> bool {
    if hadamard {
        g == GateView::H(q)
    } else {
        g == GateView::X(q)
    }
}

proof fn lemma_count_remove(s: Seq<GateView>, p: int, hadamard: bool, q: usize)
    requires
        0 <= p < s.len(),
    ensures
        single_gate_count(s.remove(p), hadamard, q) + (if is_single_on(s[p], hadamard, q) { 1nat } else { 0nat }) == single_gate_count(s, hadamard, q),
    decreases s.len(),
{
    if p == s.len() - 1 {
        assert(s.remove(p) == s.drop_last());
    } else {
        lemma_count_remove(s.drop_last(), p, hadamard, q);
        assert(s.remove(p).drop_last() == s.drop_last().remove(p));
        assert(s.remove(p).last() == s.last());
    }
}

proof fn lemma_last_touch_at(gates: Seq<GateView>, q: usize, p: int)
    requires
        0 <= p < gates.len(),
        touches(gates[p], q),
        forall|j: int| p < j < gates.len() ==> !touches(#[trigger] gates[j], q),
    ensures
        last_touch(gates, q) == Some(p),
    decreases gates.len(),
{
    if p < gates.len() - 1 {
        assert(!touches(gates[gates.len() - 1], q));
        lemma_last_touch_at(gates.drop_last(), q, p);
    }
}

proof fn lemma_last_touch_none(gates: Seq<GateView>, q: usize)
    requires
        forall|j: int| 0 <= j < gates.len() ==> !touches(#[trigger] gates[j], q),
    ensures
        last_touch(gates, q) is None,
    decreases gates.len(),
{
    if gates.len() > 0 {
        assert(!touches(gates[gates.len() - 1], q));
        lemma_last_touch_none(gates.drop_last(), q);
    }
}

proof fn lemma_last_touch_bounds(gates: Seq<GateView>, q: usize)
    ensures
        last_touch(gates, q) matches Some(p) ==> 0 <= p < gates.len(),
    decreases gates.len(),
{
    if gates.len() > 0 {
        lemma_last_touch_bounds(gates.drop_last(), q);
    }
}

/// The peephole pass keeps, on every qubit, the parity of the number of
/// Hadamard gates and the parity of the number of Pauli-X gates: it removes
/// them only two at a time, a gate and an equal earlier gate on the same
/// qubit.
pub proof fn lemma_peephole_keeps_parity(gates: Seq<GateView>, hadamard: bool, q: usize)
    ensures
        single_gate_count(peephole(gates), hadamard, q) <= single_gate_count(gates, hadamard, q),
        (single_gate_count(gates, hadamard, q) - single_gate_count(peephole(gates), hadamard, q)) % 2 == 0,
    decreases gates.len(),
{
    if gates.len() > 0 {
        let d = gates.drop_last();
        lemma_peephole_keeps_parity(d, hadamard, q);
        let out = peephole(d);
        let g = gates.last();
        match g {
            GateView::H(q0) | GateView::X(q0) => {
                lemma_last_touch_bounds(out, q0);
                match last_touch(out, q0) {
                    Some(p) => {
                        if out[p] == g {
                            lemma_count_remove(out, p, hadamard, q);
                        } else {
                            assert(out.push(g).drop_last() == out);
                        }
                    },
                    None => {
                        assert(out.push(g).drop_last() == out);
                    },
                }
            },
            _ => {
                assert(out.push(g).drop_last() == out);
            },
        }
    }
}

/// The peephole pass never lengthens a circuit, and it removes gates only in
/// pairs: the number of removed gates is even.
pub proof fn lemma_peephole_removes_pairs(gates: Seq<GateView>)
    ensures
        peephole(gates).len() <= gates.len(),
        (gates.len() - peephole(gates).len()) % 2 == 0,
    decreases gates.len(),
{
    if gates.len() > 0 {
        let d = gates.drop_last();
        lemma_peephole_removes_pairs(d);
        let g = gates.last();
        match g {
            GateView::H(q0) | GateView::X(q0) => {
                lemma_last_touch_bounds(peephole(d), q0);
            },
            _ => {},
        }
    }
}

/// The peephole pass keeps every gate other than Hadamard and Pauli-X, in
/// the same order: only single-qubit self-inverse gates are ever removed.
pub proof fn lemma_peephole_keeps_multi_qubit_gates(gates: Seq<GateView>)
    ensures
        multi_qubit_part(peephole(gates)) == multi_qubit_part(gates),
    decreases gates.len(),
{
    if gates.len() > 0 {
        let d = gates.drop_last();
        lemma_peephole_keeps_multi_qubit_gates(d);
        let out = peephole(d);
        let g = gates.last();
        match g {
            GateView::H(q) | GateView::X(q) => {
                lemma_last_touch_bounds(out, q);
                match last_touch(out, q) {
                    Some(p) => {
                        if out[p] == g {
                            lemma_multi_qubit_part_remove(out, p);
                        } else {
                            assert(out.push(g).drop_last() == out);
                        }
                    },
                    None => {
                        assert(out.push(g).drop_last() == out);
                    },
                }
            },
            _ => {
                assert(out.push(g).drop_last() == out);
            },
        }
    }
}

/// Cancellation never reaches across a gate: a Hadamard or Pauli-X that
/// follows a kept gate acting on its qubit, other than an equal one, is kept.
pub proof fn lemma_peephole_blocked(gates: Seq<GateView>, g: GateView, q: usize)
    requires
        g == GateView::H(q) || g == GateView::X(q),
        last_touch(peephole(gates), q) matches Some(p) && peephole(gates)[p] != g,
    ensures
        peephole(gates.push(g)) == peephole(gates).push(g),
{
    assert(gates.push(g).drop_last() =~= gates);
}

/// Adjacent self-inverse pairs cancel: a Hadamard or Pauli-X that the pass
/// keeps, followed at once by the same gate, leaves the kept gates as they
/// were before the pair.
pub proof fn lemma_peephole_cancels_adjacent_pair(gates: Seq<GateView>, g: GateView, q: usize)
    requires
        g == GateView::H(q) || g == GateView::X(q),
        peephole(gates.push(g)) == peephole(gates).push(g),
    ensures
        peephole(gates.push(g).push(g)) == peephole(gates),
{
    let out = peephole(gates);
    let once = gates.push(g);
    assert(once.push(g).drop_last() =~= once);
    assert(touches(g, q));
    assert(out.push(g).drop_last() =~= out);
    assert(last_touch(out.push(g), q) == Some(out.len() as int));
    assert(out.push(g).remove(out.len() as int) =~= out);
}

fn gate_touches(g: &QuantumGate, q: usize) -> (r: bool)
    ensures
        r == touches(g@, q),
{
    match g {
        QuantumGate::H(p) => *p == q,
        QuantumGate::X(p) => *p == q,
        QuantumGate::CX(c, t) => *c == q || *t == q,
        QuantumGate::Oracle(_) => true,
    }
}

fn same_single_gate(a: &QuantumGate, b: &QuantumGate) -> (r: bool)
    requires
        b@ is H || b@ is X,
    ensures
        r == (a@ == b@),
{
    match (a, b) {
        (QuantumGate::H(p), QuantumGate::H(q)) => *p == *q,
        (QuantumGate::X(p), QuantumGate::X(q)) => *p == *q,
        _ => false,
    }
}

fn last_touch_index(out: &Vec<QuantumGate>, q: usize) -> (r: Option<usize>)
    ensures
        match r {
            Some(p) => p < out@.len() && last_touch(gates_view(out@), q) == Some(p as int),
            None => last_touch(gates_view(out@), q) is None,
        },
{
    let ghost gv = gates_view(out@);
    let mut k: usize = out.len();
    while k > 0
        invariant
            k <= out@.len(),
            gv == gates_view(out@),
            forall|j: int| k <= j < out@.len() ==> !touches(#[trigger] gv[j], q),
        decreases k,
    {
        if gate_touches(&out[k - 1], q) {
            proof { lemma_last_touch_at(gv, q, k - 1); }
            return Some(k - 1);
        }
        k -= 1;
    }
    proof { lemma_last_touch_none(gv, q); }
    None
}

/// The textual target of a gate listing.
#[derive(Clone, Copy, PartialEq, Eq, Structural)]
pub enum Dialect {
    /// OpenQASM 3.0 as `to_openqasm_3` writes it.
    Qasm3,
    /// OpenQASM 3.0 as the IBM driver writes it.
    IbmQasm,
    /// OpenQASM 3.0 as the AWS Braket driver writes it.
    AwsQasm,
    /// QIR (LLVM IR) as `to_qir_llvm` writes it.
    Qir,
}

/// `"h q[i];\n"`-style line for a single-qubit gate named `name`.
pub open spec fn qasm_single(name: Seq<char>, q: usize) -> Seq<char> {
    name + " q["@ + decimal(q as nat) + "];\n"@
}

/// The QIR call for a single-qubit gate named `name`.
pub open spec fn qir_single(name: Seq<char>, q: usize) -> Seq<char> {
    "  call void @__quantum__qis__"@ + name + "__body(%Qubit* inttoptr (i64 "@ + decimal(q as nat)
        + " to %Qubit*))\n"@
}

/// The text that a gate becomes in a dialect.
pub open spec fn gate_text(d: Dialect, g: GateView) -> Seq<char> {
    match d {
        Dialect::Qir => match g {
            GateView::H(q) => qir_single("h"@, q),
            GateView::X(q) => qir_single("x"@, q),
            GateView::CX(c, t) => "  call void @__quantum__qis__cnot__body(%Qubit* inttoptr (i64 "@
                + decimal(c as nat) + " to %Qubit*), %Qubit* inttoptr (i64 "@ + decimal(t as nat)
                + " to %Qubit*))\n"@,
            GateView::Oracle(_) => "  ; Custom Oracle Bit-String Mapping Instruction Applied Set\n"@,
        },
        _ => match g {
            GateView::H(q) => qasm_single("h"@, q),
            GateView::X(q) => qasm_single("x"@, q),
            GateView::CX(c, t) => "cx q["@ + decimal(c as nat) + "], q["@ + decimal(t as nat) + "];\n"@,
            GateView::Oracle(sig) => match d {
                Dialect::Qasm3 => "// Structural Oracle Block Allocation for: "@ + sig + "\n"@
                    + "h q[0];\ncx q[0], q[1];\nh q[0];\n"@,
                Dialect::IbmQasm => "// Begin Phase Oracle for "@ + sig + "\n"@ + "h q[0];\ncx q[1], q[0];\nh q[0];\n"@,
                _ => "// AWS Oracle Routine: "@ + sig + "\n"@ + "h q;\ncx q, q;\nh q;\n"@,
            },
        },
    }
}

/// The texts of the gates, one after the other.
pub open spec fn gates_text(d: Dialect, gates: Seq<GateView>) -> Seq<char>
    decreases gates.len(),
{
    if gates.len() == 0 {
        seq![]
    } else {
        gates_text(d, gates.drop_last()) + gate_text(d, gates.last())
    }
}

/// Quantum and classical register declarations of `n` qubits.
pub open spec fn register_lines(n: usize) -> Seq<char> {
    "qreg q["@ + decimal(n as nat) + "];\n"@ + "creg c["@ + decimal(n as nat) + "];\n"@
}

/// Measurement of qubits `0..n` into the classical register, in order.
pub open spec fn measure_lines(n: nat) -> Seq<char>
    decreases n,
{
    if n == 0 {
        seq![]
    } else {
        measure_lines((n - 1) as nat) + "c["@ + decimal((n - 1) as nat) + "] = measure q["@ + decimal(
            (n - 1) as nat,
        ) + "];\n"@
    }
}

/// The register index that a gate reads out of bounds, if any: the qubit of
/// a Hadamard or Pauli-X, the larger of the two qubits of a CNOT.
pub open spec fn register_fault(g: GateView, n: usize) -> Option<usize> {
    match g {
        GateView::H(q) => if q >= n { Some(q) } else { None },
        GateView::X(q) => if q >= n { Some(q) } else { None },
        GateView::CX(c, t) => if c >= n || t >= n { Some(if c >= t { c } else { t }) } else { None },
        GateView::Oracle(_) => None,
    }
}

/// The fault of the first faulty gate, if any.
pub open spec fn first_register_fault(gates: Seq<GateView>, n: usize) -> Option<usize>
    decreases gates.len(),
{
    if gates.len() == 0 {
        None
    } else {
        match first_register_fault(gates.drop_last(), n) {
            Some(i) => Some(i),
            None => register_fault(gates.last(), n),
        }
    }
}

/// Each Hadamard and Pauli-X is written as its own gate on its own qubit:
/// in QIR the call of `__quantum__qis__h__body` or `__quantum__qis__x__body`
/// on the qubit's number, in every OpenQASM dialect the line `h q[i];` or
/// `x q[i];`.  So in every dialect a Hadamard and a Pauli-X never read alike.
pub proof fn lemma_single_gate_texts(q: usize)
    ensures
        gate_text(Dialect::Qir, GateView::H(q)) == "  call void @__quantum__qis__h__body(%Qubit* inttoptr (i64 "@
            + decimal(q as nat) + " to %Qubit*))\n"@,
        gate_text(Dialect::Qir, GateView::X(q)) == "  call void @__quantum__qis__x__body(%Qubit* inttoptr (i64 "@
            + decimal(q as nat) + " to %Qubit*))\n"@,
        forall|d: Dialect| d != Dialect::Qir ==> #[trigger] gate_text(d, GateView::H(q)) == "h q["@ + decimal(q as nat)
            + "];\n"@ && gate_text(d, GateView::X(q)) == "x q["@ + decimal(q as nat) + "];\n"@,
        forall|d: Dialect| #[trigger] gate_text(d, GateView::H(q)) != gate_text(d, GateView::X(q)),
{
    reveal_strlit("  call void @__quantum__qis__");
    reveal_strlit("__body(%Qubit* inttoptr (i64 ");
    reveal_strlit("h");
    reveal_strlit("x");
    reveal_strlit("  call void @__quantum__qis__h__body(%Qubit* inttoptr (i64 ");
    reveal_strlit("  call void @__quantum__qis__x__body(%Qubit* inttoptr (i64 ");
    reveal_strlit(" q[");
    reveal_strlit("h q[");
    reveal_strlit("x q[");
    let pre = "  call void @__quantum__qis__"@;
    let mid = "__body(%Qubit* inttoptr (i64 "@;
    let dq = decimal(q as nat);
    let tail = " to %Qubit*))\n"@;
    assert(pre + "h"@ + mid =~= "  call void @__quantum__qis__h__body(%Qubit* inttoptr (i64 "@);
    assert(pre + "x"@ + mid =~= "  call void @__quantum__qis__x__body(%Qubit* inttoptr (i64 "@);
    let qh = gate_text(Dialect::Qir, GateView::H(q));
    let qx = gate_text(Dialect::Qir, GateView::X(q));
    assert(qh =~= "  call void @__quantum__qis__h__body(%Qubit* inttoptr (i64 "@ + dq + tail);
    assert(qx =~= "  call void @__quantum__qis__x__body(%Qubit* inttoptr (i64 "@ + dq + tail);
    assert(qh[pre.len() as int] == 'h');
    assert(qx[pre.len() as int] == 'x');
    assert("h"@ + " q["@ =~= "h q["@);
    assert("x"@ + " q["@ =~= "x q["@);
    assert forall|d: Dialect| d != Dialect::Qir implies #[trigger] gate_text(d, GateView::H(q)) == "h q["@ + dq + "];\n"@
        && gate_text(d, GateView::X(q)) == "x q["@ + dq + "];\n"@ by {
        assert(gate_text(d, GateView::H(q)) =~= "h q["@ + dq + "];\n"@);
        assert(gate_text(d, GateView::X(q)) =~= "x q["@ + dq + "];\n"@);
    }
    assert forall|d: Dialect| #[trigger] gate_text(d, GateView::H(q)) != gate_text(d, GateView::X(q)) by {
        if d == Dialect::Qir {
            assert(qh[pre.len() as int] != qx[pre.len() as int]);
        } else {
            assert(gate_text(d, GateView::H(q))[0] == 'h');
            assert(gate_text(d, GateView::X(q))[0] == 'x');
        }
    }
}

/// A CNOT names its control first and its target second: in QIR the call
/// of `__quantum__qis__cnot__body` on the control's then the target's
/// number, in every OpenQASM dialect the line `cx q[c], q[t];`.
pub proof fn lemma_cnot_texts(c: usize, t: usize)
    ensures
        gate_text(Dialect::Qir, GateView::CX(c, t)) == "  call void @__quantum__qis__cnot__body(%Qubit* inttoptr (i64 "@
            + decimal(c as nat) + " to %Qubit*), %Qubit* inttoptr (i64 "@ + decimal(t as nat) + " to %Qubit*))\n"@,
        forall|d: Dialect| d != Dialect::Qir ==> #[trigger] gate_text(d, GateView::CX(c, t)) == "cx q["@ + decimal(
            c as nat,
        ) + "], q["@ + decimal(t as nat) + "];\n"@,
{
}

/// `to_openqasm_3` refuses exactly the circuits that name a qubit outside
/// the register: the gates have no fault when, and only when, every
/// Hadamard and Pauli-X acts on a qubit below `n` and every CNOT has both
/// its control and its target below `n`; a reported fault is an index at
/// or above `n`.
pub proof fn lemma_register_fault_exact(gates: Seq<GateView>, n: usize)
    ensures
        first_register_fault(gates, n) is None <==> forall|i: int| 0 <= i < gates.len() ==> match #[trigger] gates[i] {
            GateView::H(q) => q < n,
            GateView::X(q) => q < n,
            GateView::CX(c, t) => c < n && t < n,
            GateView::Oracle(_) => true,
        },
        first_register_fault(gates, n) matches Some(k) ==> k >= n,
    decreases gates.len(),
{
    if gates.len() > 0 {
        let d = gates.drop_last();
        lemma_register_fault_exact(d, n);
        let g = gates.last();
        let last = gates.len() - 1;
        assert(gates[last] == g);
        let all_in = forall|i: int| 0 <= i < gates.len() ==> match #[trigger] gates[i] {
            GateView::H(q) => q < n,
            GateView::X(q) => q < n,
            GateView::CX(c, t) => c < n && t < n,
            GateView::Oracle(_) => true,
        };
        let d_in = forall|i: int| 0 <= i < d.len() ==> match #[trigger] d[i] {
            GateView::H(q) => q < n,
            GateView::X(q) => q < n,
            GateView::CX(c, t) => c < n && t < n,
            GateView::Oracle(_) => true,
        };
        let g_in = match g {
            GateView::H(q) => q < n,
            GateView::X(q) => q < n,
            GateView::CX(c, t) => c < n && t < n,
            GateView::Oracle(_) => true,
        };
        assert(g_in <==> register_fault(g, n) is None);
        if all_in {
            assert forall|i: int| 0 <= i < d.len() implies match #[trigger] d[i] {
                GateView::H(q) => q < n,
                GateView::X(q) => q < n,
                GateView::CX(c, t) => c < n && t < n,
                GateView::Oracle(_) => true,
            } by {
                assert(d[i] == gates[i]);
            }
            assert(g_in);
        }
        if d_in && g_in {
            assert forall|i: int| 0 <= i < gates.len() implies match #[trigger] gates[i] {
                GateView::H(q) => q < n,
                GateView::X(q) => q < n,
                GateView::CX(c, t) => c < n && t < n,
                GateView::Oracle(_) => true,
            } by {
                if i < d.len() {
                    assert(d[i] == gates[i]);
                }
            }
        }
        assert(all_in <==> (d_in && g_in));
    }
}

proof fn lemma_first_fault_extends(gates: Seq<GateView>, k: int, n: usize)
    requires
        0 <= k <= gates.len(),
        first_register_fault(gates.take(k), n) is Some,
    ensures
        first_register_fault(gates, n) == first_register_fault(gates.take(k), n),
    decreases gates.len() - k,
{
    if k < gates.len() {
        assert(gates.take(k + 1).drop_last() == gates.take(k));
        lemma_first_fault_extends(gates, k + 1, n);
    } else {
        assert(gates.take(k) == gates);
    }
}

/// The OpenQASM 3.0 program for a plan (already optimised).
pub open spec fn qasm3_text(plan: PlanView) -> Seq<char> {
    "OPENQASM 3.0;\n"@ + "include \"stdgates.inc\";\n"@ + register_lines(plan.required_qubits)
        + gates_text(Dialect::Qasm3, plan.gates) + measure_lines(plan.required_qubits as nat)
}

/// The QIR module header, up to the opening of the entry point.
pub open spec fn qir_prologue() -> Seq<char> {
    "; ModuleID = 'HadamardQIRCluster'\n"@ + "source_filename = \"qvoltdb.core\"\n"@
        + "target datalayout = \"e-m:e-p270:32:32-p271:32:32-p272:64:64-i64:64-f80:128-n8:16:32:64-S128\"\n"@
        + "\n%Qubit = type opaque\n%Result = type opaque\n\n"@ + "define void @hadamard_quantum_query_entry() {\n"@
}

/// The end of the entry point and the runtime declarations.
pub open spec fn qir_epilogue() -> Seq<char> {
    "  ret void\n}\n"@ + "declare void @__quantum__qis__h__body(%Qubit*)\n"@
        + "declare void @__quantum__qis__x__body(%Qubit*)\n"@
        + "declare void @__quantum__qis__cnot__body(%Qubit*, %Qubit*)\n"@
}

/// The QIR module for a plan.
pub open spec fn qir_text(plan: PlanView) -> Seq<char> {
    qir_prologue() + gates_text(Dialect::Qir, plan.gates) + qir_epilogue()
}

/// Appends the text of one gate.
pub fn push_gate_text(d: Dialect, buf: &mut String, g: &QuantumGate)
    ensures
        final(buf)@ == old(buf)@ + gate_text(d, g@),
{
    let ghost start = buf@;
    match d {
        Dialect::Qir => match g {
            QuantumGate::H(q) | QuantumGate::X(q) => {
                buf.append("  call void @__quantum__qis__");
                match g {
                    QuantumGate::H(_) => buf.append("h"),
                    _ => buf.append("x"),
                }
                buf.append("__body(%Qubit* inttoptr (i64 ");
                push_decimal(buf, *q);
                buf.append(" to %Qubit*))\n");
            },
            QuantumGate::CX(c, t) => {
                buf.append("  call void @__quantum__qis__cnot__body(%Qubit* inttoptr (i64 ");
                push_decimal(buf, *c);
                buf.append(" to %Qubit*), %Qubit* inttoptr (i64 ");
                push_decimal(buf, *t);
                buf.append(" to %Qubit*))\n");
            },
            QuantumGate::Oracle(_) => {
                buf.append("  ; Custom Oracle Bit-String Mapping Instruction Applied Set\n");
            },
        },
        _ => match g {
            QuantumGate::H(q) | QuantumGate::X(q) => {
                match g {
                    QuantumGate::H(_) => buf.append("h"),
                    _ => buf.append("x"),
                }
                buf.append(" q[");
                push_decimal(buf, *q);
                buf.append("];\n");
            },
            QuantumGate::CX(c, t) => {
                buf.append("cx q[");
                push_decimal(buf, *c);
                buf.append("], q[");
                push_decimal(buf, *t);
                buf.append("];\n");
            },
            QuantumGate::Oracle(sig) => {
                match d {
                    Dialect::Qasm3 => buf.append("// Structural Oracle Block Allocation for: "),
                    Dialect::IbmQasm => buf.append("// Begin Phase Oracle for "),
                    _ => buf.append("// AWS Oracle Routine: "),
                }
                buf.append(sig.as_str());
                buf.append("\n");
                match d {
                    Dialect::Qasm3 => buf.append("h q[0];\ncx q[0], q[1];\nh q[0];\n"),
                    Dialect::IbmQasm => buf.append("h q[0];\ncx q[1], q[0];\nh q[0];\n"),
                    _ => buf.append("h q;\ncx q, q;\nh q;\n"),
                }
            },
        },
    }
    assert(buf@ =~= start + gate_text(d, g@));
}

/// Appends the register declarations for `n` qubits.
pub fn push_register_lines(buf: &mut String, n: usize)
    ensures
        final(buf)@ == old(buf)@ + register_lines(n),
{
    let ghost start = buf@;
    buf.append("qreg q[");
    push_decimal(buf, n);
    buf.append("];\n");
    buf.append("creg c[");
    push_decimal(buf, n);
    buf.append("];\n");
    assert(buf@ =~= start + register_lines(n));
}

/// Appends the measurement of qubits `0..n`.
pub fn push_measure_lines(buf: &mut String, n: usize)
    ensures
        final(buf)@ == old(buf)@ + measure_lines(n as nat),
{
    let ghost start = buf@;
    let mut i: usize = 0;
    while i < n
        invariant
            i <= n,
            buf@ == start + measure_lines(i as nat),
        decreases n - i,
    {
        let ghost before = buf@;
        buf.append("c[");
        push_decimal(buf, i);
        buf.append("] = measure q[");
        push_decimal(buf, i);
        buf.append("];\n");
        assert(measure_lines((i + 1) as nat) == measure_lines(i as nat) + "c["@ + decimal(i as nat)
            + "] = measure q["@ + decimal(i as nat) + "];\n"@);
        assert(buf@ =~= start + measure_lines((i + 1) as nat));
        i += 1;
    }
}

/// Appends the texts of all the gates, in order.
pub fn push_gates_text(d: Dialect, buf: &mut String, gates: &Vec<QuantumGate>)
    ensures
        final(buf)@ == old(buf)@ + gates_text(d, gates_view(gates@)),
{
    let ghost start = buf@;
    let ghost gv = gates_view(gates@);
    let mut i: usize = 0;
    while i < gates.len()
        invariant
            i <= gates@.len(),
            gv == gates_view(gates@),
            buf@ == start + gates_text(d, gv.take(i as int)),
        decreases gates@.len() - i,
    {
        push_gate_text(d, buf, &gates[i]);
        assert(gv.take(i + 1).drop_last() == gv.take(i as int));
        assert(buf@ =~= start + gates_text(d, gv.take(i + 1)));
        i += 1;
    }
    assert(gv.take(gates@.len() as int) == gv);
}

impl QuantumCodeGenerator {
    pub fn new(optimization_level: u8) -> (g: Self)
        ensures
            g.optimization_level == optimization_level,
    {
        Self { optimization_level }
    }

    /// Peephole optimisation: removes pairs of self-inverse single-qubit
    /// gates (a Hadamard right after a Hadamard, a Pauli-X right after a
    /// Pauli-X on the same qubit, with no kept gate acting on that qubit in
    /// between); other gates pass through.  Level 0 returns a copy.
    pub fn optimize_circuit(&self, plan: &QuantumCircuitPlan) -> (r: QuantumCircuitPlan)
        ensures
            r@ == optimized_plan(self.optimization_level, plan@),
    {
        if self.optimization_level == 0 {
            return plan.duplicate();
        }
        let ghost input = gates_view(plan.execution_gates@);
        let mut out: Vec<QuantumGate> = Vec::new();
        let mut i: usize = 0;
        while i < plan.execution_gates.len()
            invariant
                i <= input.len(),
                input == gates_view(plan.execution_gates@),
                gates_view(out@) == peephole(input.take(i as int)),
            decreases input.len() - i,
        {
            let ghost before = input.take(i as int);
            assert(input.take(i + 1).drop_last() == before);
            assert(input.take(i + 1).last() == plan.execution_gates@[i as int]@);
            let gate = &plan.execution_gates[i];
            let ghost out_before = out@;
            let single = match gate {
                QuantumGate::H(q) => Some(*q),
                QuantumGate::X(q) => Some(*q),
                _ => None,
            };
            let mut cancelled = false;
            if let Some(q) = single {
                if let Some(p) = last_touch_index(&out, q) {
                    if same_single_gate(&out[p], gate) {
                        out.remove(p);
                        assert(gates_view(out@) =~= gates_view(out_before).remove(p as int));
                        cancelled = true;
                    }
                }
            }
            if !cancelled {
                out.push(gate.duplicate());
                proof { lemma_gates_view_push(out_before, out@.last()); }
            }
            i += 1;
        }
        assert(input.take(input.len() as int) == input);
        QuantumCircuitPlan { required_qubits: plan.required_qubits, execution_gates: out }
    }

    /// Translates the optimised plan into OpenQASM 3.0.  A Hadamard, Pauli-X
    /// or CNOT that names a qubit outside the register is refused with the
    /// register size and the offending index (of the first such gate).
    pub fn to_openqasm_3(&self, plan: &QuantumCircuitPlan) -> (r: Result<String, TranspilerError>)
        ensures
            ({
                let opt = optimized_plan(self.optimization_level, plan@);
                match first_register_fault(opt.gates, opt.required_qubits) {
                    Some(index) => r matches Err(TranspilerError::RegisterIndexOutOfBounds { size, index: i })
                        && size == opt.required_qubits && i == index,
                    None => r matches Ok(text) && text@ == qasm3_text(opt),
                }
            }),
    {
        let opt_plan = self.optimize_circuit(plan);
        let n = opt_plan.required_qubits;
        let ghost gv = gates_view(opt_plan.execution_gates@);
        let mut buffer = String::new();
        buffer.append("OPENQASM 3.0;\n");
        buffer.append("include \"stdgates.inc\";\n");
        push_register_lines(&mut buffer, n);
        let ghost header = buffer@;
        let mut i: usize = 0;
        while i < opt_plan.execution_gates.len()
            invariant
                i <= gv.len(),
                gv == gates_view(opt_plan.execution_gates@),
                n == opt_plan.required_qubits,
                opt_plan@ == optimized_plan(self.optimization_level, plan@),
                first_register_fault(gv.take(i as int), n) is None,
                buffer@ == header + gates_text(Dialect::Qasm3, gv.take(i as int)),
            decreases gv.len() - i,
        {
            let gate = &opt_plan.execution_gates[i];
            assert(gv.take(i + 1).drop_last() == gv.take(i as int));
            assert(gv.take(i + 1).last() == gate@);
            match gate {
                QuantumGate::H(idx) | QuantumGate::X(idx) => {
                    if *idx >= n {
                        proof { lemma_first_fault_extends(gv, i + 1, n); }
                        return Err(TranspilerError::RegisterIndexOutOfBounds { size: n, index: *idx });
                    }
                },
                QuantumGate::CX(ctrl, target) => {
                    if *ctrl >= n || *target >= n {
                        let index = if *ctrl >= *target { *ctrl } else { *target };
                        proof { lemma_first_fault_extends(gv, i + 1, n); }
                        return Err(TranspilerError::RegisterIndexOutOfBounds { size: n, index });
                    }
                },
                QuantumGate::Oracle(_) => {},
            }
            push_gate_text(Dialect::Qasm3, &mut buffer, gate);
            assert(buffer@ =~= header + gates_text(Dialect::Qasm3, gv.take(i + 1)));
            i += 1;
        }
        assert(gv.take(gv.len() as int) == gv);
        push_measure_lines(&mut buffer, n);
        assert(buffer@ =~= qasm3_text(opt_plan@));
        Ok(buffer)
    }

    /// Generates the QIR (LLVM IR) module for a plan (not optimised); it
    /// always succeeds.
    pub fn to_qir_llvm(&self, plan: &QuantumCircuitPlan) -> (r: Result<String, TranspilerError>)
        ensures
            r matches Ok(text) && text@ == qir_text(plan@),
    {
        let mut qir = String::new();
        qir.append("; ModuleID = 'HadamardQIRCluster'\n");
        qir.append("source_filename = \"qvoltdb.core\"\n");
        qir.append("target datalayout = \"e-m:e-p270:32:32-p271:32:32-p272:64:64-i64:64-f80:128-n8:16:32:64-S128\"\n");
        qir.append("\n%Qubit = type opaque\n%Result = type opaque\n\n");
        qir.append("define void @hadamard_quantum_query_entry() {\n");
        let ghost prologue = qir@;
        assert(prologue =~= qir_prologue());
        push_gates_text(Dialect::Qir, &mut qir, &plan.execution_gates);
        qir.append("  ret void\n}\n");
        qir.append("declare void @__quantum__qis__h__body(%Qubit*)\n");
        qir.append("declare void @__quantum__qis__x__body(%Qubit*)\n");
        qir.append("declare void @__quantum__qis__cnot__body(%Qubit*, %Qubit*)\n");
        assert(qir@ =~= qir_text(plan@));
        Ok(qir)
    }
}

} // verus!
