//! The variational ansatz: the circuit layout for a number of features.
use vstd::prelude::*;
use crate::compiler::{GateView, QuantumCircuitPlan, QuantumGate, gates_view, lemma_gates_view_push};
use crate::text::{decimal, push_decimal};

verus! {

/// Errors of the variational optimiser.
#[derive(Debug)]
pub enum VqeError {
    ConvergenceFailure,
    DimensionMismatch,
    CompilationError(String),
}

/// The ansatz for `n` features: a Hadamard on each qubit, a CNOT chain
/// linking qubit `i` to `i + 1`, then the ansatz oracle.
pub open spec fn ansatz_gates(n: usize) -> Seq<GateView> {
    Seq::new(n as nat, |i: int| GateView::H(i as usize)) + Seq::new(
        (n - 1) as nat,
        |i: int| GateView::CX(i as usize, (i + 1) as usize),
    ) + seq![GateView::Oracle("VQE_ANSATZ_LAYER_FEATURE_"@ + decimal(n as nat))]
}

/// Builds the ansatz circuit for `feature_count` features on a register of
/// that size; zero features are refused.
pub fn construct_ansatz_plan(feature_count: usize) -> (r: Result<QuantumCircuitPlan, VqeError>)
    ensures
        feature_count == 0 ==> r matches Err(VqeError::DimensionMismatch),
        feature_count > 0 ==> (r matches Ok(plan) && plan@.required_qubits == feature_count
            && plan@.gates == ansatz_gates(feature_count)),
{
    if feature_count == 0 {
        return Err(VqeError::DimensionMismatch);
    }
    let mut gates: Vec<QuantumGate> = Vec::new();
    let mut i: usize = 0;
    while i < feature_count
        invariant
            i <= feature_count,
            gates_view(gates@) == Seq::new(i as nat, |k: int| GateView::H(k as usize)),
        decreases feature_count - i,
    {
        let ghost before = gates@;
        gates.push(QuantumGate::H(i));
        proof { lemma_gates_view_push(before, QuantumGate::H(i)); }
        assert(gates_view(gates@) =~= Seq::new((i + 1) as nat, |k: int| GateView::H(k as usize)));
        i += 1;
    }
    let ghost hs = gates_view(gates@);
    let links = feature_count - 1;
    let mut j: usize = 0;
    while j < links
        invariant
            j <= links,
            links == feature_count - 1,
            gates_view(gates@) == hs + Seq::new(j as nat, |k: int| GateView::CX(k as usize, (k + 1) as usize)),
        decreases links - j,
    {
        let ghost before = gates@;
        gates.push(QuantumGate::CX(j, j + 1));
        proof { lemma_gates_view_push(before, QuantumGate::CX(j, (j + 1) as usize)); }
        assert(gates_view(gates@) =~= hs + Seq::new((j + 1) as nat, |k: int| GateView::CX(k as usize, (k + 1) as usize)));
        j += 1;
    }
    let mut signature = String::new();
    signature.append("VQE_ANSATZ_LAYER_FEATURE_");
    push_decimal(&mut signature, feature_count);
    let ghost before = gates@;
    let oracle = QuantumGate::Oracle(signature);
    gates.push(oracle);
    proof { lemma_gates_view_push(before, oracle); }
    assert(gates_view(gates@) =~= ansatz_gates(feature_count));
    Ok(QuantumCircuitPlan { required_qubits: feature_count, execution_gates: gates })
}

} // verus!
