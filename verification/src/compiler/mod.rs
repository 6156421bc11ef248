//! Query and circuit data model.
pub mod parser;
pub mod qasm_gen;

use vstd::prelude::*;

verus! {

/// Comparison operator of a query's `WHERE` clause.
#[derive(Debug, Clone, Copy, PartialEq, Eq, Structural)]
pub enum QueryOperator {
    Equal,
    GreaterThan,
    LessThan,
}

/// A parsed `SELECT * FROM <collection> WHERE <field> <op> <value>` query.
#[derive(Debug, Clone)]
pub struct QuantumQuery {
    pub target_collection: String,
    pub field: String,
    pub operator: QueryOperator,
    pub value: String,
}

/// The abstract content of a [`QuantumQuery`].
pub struct QueryView {
    pub target_collection: Seq<char>,
    pub field: Seq<char>,
    pub operator: QueryOperator,
    pub value: Seq<char>,
}

impl View for QuantumQuery {
    type V = QueryView;

    open spec fn view(&self) -> QueryView {
        QueryView {
            target_collection: self.target_collection@,
            field: self.field@,
            operator: self.operator,
            value: self.value@,
        }
    }
}

/// One instruction of a circuit.
#[derive(Debug, Clone)]
pub enum QuantumGate {
    /// Hadamard gate on a qubit.
    H(usize),
    /// Pauli-X (NOT) gate on a qubit.
    X(usize),
    /// Controlled-NOT: control qubit, then target qubit.
    CX(usize, usize),
    /// Oracle configured by a signature.
    Oracle(String),
}

/// The abstract content of a [`QuantumGate`].
pub enum GateView {
    H(usize),
    X(usize),
    CX(usize, usize),
    Oracle(Seq<char>),
}

impl View for QuantumGate {
    type V = GateView;

    open spec fn view(&self) -> GateView {
        match self {
            QuantumGate::H(q) => GateView::H(*q),
            QuantumGate::X(q) => GateView::X(*q),
            QuantumGate::CX(c, t) => GateView::CX(*c, *t),
            QuantumGate::Oracle(s) => GateView::Oracle(s@),
        }
    }
}

impl QuantumGate {
    /// A copy of this gate.
    pub fn duplicate(&self) -> (r: QuantumGate)
        ensures
            r@ == self@,
    {
        match self {
            QuantumGate::H(q) => QuantumGate::H(*q),
            QuantumGate::X(q) => QuantumGate::X(*q),
            QuantumGate::CX(c, t) => QuantumGate::CX(*c, *t),
            QuantumGate::Oracle(s) => QuantumGate::Oracle(s.clone()),
        }
    }
}

/// A register size together with the gates to run, in order.
#[derive(Debug, Clone)]
pub struct QuantumCircuitPlan {
    pub required_qubits: usize,
    pub execution_gates: Vec<QuantumGate>,
}

/// The abstract content of a [`QuantumCircuitPlan`].
pub struct PlanView {
    pub required_qubits: usize,
    pub gates: Seq<GateView>,
}

/// The abstract content of a sequence of gates.
pub open spec fn gates_view(gates: Seq<QuantumGate>) -> Seq<GateView> {
    gates.map_values(|g: QuantumGate| g@)
}

/// Viewing a sequence of gates commutes with appending one gate.
pub proof fn lemma_gates_view_push(s: Seq<QuantumGate>, g: QuantumGate)
    ensures
        gates_view(s.push(g)) == gates_view(s).push(g@),
{
    assert(gates_view(s.push(g)) =~= gates_view(s).push(g@));
}

impl View for QuantumCircuitPlan {
    type V = PlanView;

    open spec fn view(&self) -> PlanView {
        PlanView { required_qubits: self.required_qubits, gates: gates_view(self.execution_gates@) }
    }
}

impl QuantumCircuitPlan {
    /// A copy of this plan.
    pub fn duplicate(&self) -> (r: QuantumCircuitPlan)
        ensures
            r@ == self@,
    {
        let mut gates: Vec<QuantumGate> = Vec::new();
        let mut i: usize = 0;
        while i < self.execution_gates.len()
            invariant
                i <= self.execution_gates@.len(),
                gates_view(gates@) == gates_view(self.execution_gates@).take(i as int),
            decreases self.execution_gates@.len() - i,
        {
            gates.push(self.execution_gates[i].duplicate());
            assert(gates_view(self.execution_gates@).take(i + 1) == gates_view(
                self.execution_gates@,
            ).take(i as int).push(self.execution_gates@[i as int]@));
            i += 1;
        }
        assert(gates_view(self.execution_gates@).take(i as int) == gates_view(
            self.execution_gates@,
        ));
        QuantumCircuitPlan { required_qubits: self.required_qubits, execution_gates: gates }
    }
}

} // verus!
