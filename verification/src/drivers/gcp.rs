//! Google Quantum AI: Cirq operation payload and job status reading.
use vstd::prelude::*;
use crate::compiler::{GateView, QuantumCircuitPlan, QuantumGate, gates_view};
use crate::drivers::{DriverConfig, JobProgress, copy_config, message_or, message_or_default, optional_view, progress_is};
use crate::text::{decimal, push_decimal, text_is};

verus! {

/// Errors of the Google Cloud driver.
#[derive(Debug)]
pub enum GcpQuantumDriverError {
    NetworkError(String),
    AuthRejected(String),
    GcpCloudFault(String),
    QueueTimeout,
    SerializationError(String),
}

/// Polls allowed after submission (attempts `0..=50`).
pub const GCP_MAX_POLL_ATTEMPTS: u32 = 50;

/// An operation of a Cirq circuit.
#[derive(Debug, Clone)]
pub struct CirqOperation {
    pub gate: String,
    pub targets: Vec<String>,
}

/// A Cirq circuit: its operations in order.
#[derive(Debug, Clone)]
pub struct CirqCircuitRepresentation {
    pub operations: Vec<CirqOperation>,
}

/// The abstract content of a Cirq operation: gate name, targets.
pub open spec fn operation_view(op: CirqOperation) -> (Seq<char>, Seq<Seq<char>>) {
    (op.gate@, op.targets@.map_values(|t: String| t@))
}

/// The name of qubit `i` on line zero of the grid.
pub open spec fn grid_qubit(i: usize) -> Seq<char> {
    "0_"@ + decimal(i as nat)
}

/// The Cirq operation for a gate.
pub open spec fn cirq_operation(g: GateView) -> (Seq<char>, Seq<Seq<char>>) {
    match g {
        GateView::H(q) => ("H"@, seq![grid_qubit(q)]),
        GateView::X(q) => ("X"@, seq![grid_qubit(q)]),
        GateView::CX(c, t) => ("CNOT"@, seq![grid_qubit(c), grid_qubit(t)]),
        GateView::Oracle(sig) => ("PHASE_ORACLE_"@ + sig, seq!["0_0"@]),
    }
}

/// Grid names are one-to-one: different qubits get different grid names.
pub proof fn lemma_grid_qubit_injective(a: usize, b: usize)
    requires
        a != b,
    ensures
        grid_qubit(a) != grid_qubit(b),
{
    reveal_strlit("0_");
    if grid_qubit(a) == grid_qubit(b) {
        assert(grid_qubit(a).skip(2) =~= decimal(a as nat));
        assert(grid_qubit(b).skip(2) =~= decimal(b as nat));
        crate::text::lemma_decimal_injective(a as nat, b as nat);
    }
}

/// Every gate acts in Cirq on its own grid qubits: a Hadamard or Pauli-X
/// on qubit `q` targets exactly `0_q`, a CNOT its control's then its
/// target's grid qubit.  So two single-qubit gates on different qubits
/// never share a target.
pub proof fn lemma_cirq_targets(g: GateView, other: GateView)
    ensures
        g matches GateView::H(q) ==> cirq_operation(g) == ("H"@, seq!["0_"@ + decimal(q as nat)]),
        g matches GateView::X(q) ==> cirq_operation(g) == ("X"@, seq!["0_"@ + decimal(q as nat)]),
        g matches GateView::CX(c, t) ==> cirq_operation(g) == (
            "CNOT"@,
            seq!["0_"@ + decimal(c as nat), "0_"@ + decimal(t as nat)],
        ),
        (g is H || g is X) && (other is H || other is X) ==> (cirq_operation(g).1 == cirq_operation(other).1
            <==> match (g, other) {
            (GateView::H(a), GateView::H(b)) => a == b,
            (GateView::H(a), GateView::X(b)) => a == b,
            (GateView::X(a), GateView::H(b)) => a == b,
            (GateView::X(a), GateView::X(b)) => a == b,
            _ => false,
        }),
{
    match (g, other) {
        (GateView::H(a), GateView::H(b)) | (GateView::H(a), GateView::X(b)) | (GateView::X(a), GateView::H(b)) | (
            GateView::X(a),
            GateView::X(b),
        ) => {
            if a != b {
                lemma_grid_qubit_injective(a, b);
                assert(cirq_operation(g).1[0] != cirq_operation(other).1[0]);
            }
        },
        _ => {},
    }
}

/// Driver for Google Quantum AI (the HTTP client is held by the caller).
pub struct GcpQuantumDriver {
    config: DriverConfig,
    gcp_project_id: String,
}

fn grid_name(i: usize) -> (s: String)
    ensures
        s@ == grid_qubit(i),
{
    let mut s = String::new();
    s.append("0_");
    push_decimal(&mut s, i);
    s
}

fn cirq_op(g: &QuantumGate) -> (op: CirqOperation)
    ensures
        operation_view(op) == cirq_operation(g@),
{
    match g {
        QuantumGate::H(q) => {
            let t = grid_name(*q);
            let targets = vec![t];
            let op = CirqOperation { gate: "H".to_owned(), targets };
            assert(operation_view(op).1 =~= seq![grid_qubit(*q)]);
            op
        },
        QuantumGate::X(q) => {
            let t = grid_name(*q);
            let targets = vec![t];
            let op = CirqOperation { gate: "X".to_owned(), targets };
            assert(operation_view(op).1 =~= seq![grid_qubit(*q)]);
            op
        },
        QuantumGate::CX(c, t) => {
            let a = grid_name(*c);
            let b = grid_name(*t);
            let targets = vec![a, b];
            let op = CirqOperation { gate: "CNOT".to_owned(), targets };
            assert(operation_view(op).1 =~= seq![grid_qubit(*c), grid_qubit(*t)]);
            op
        },
        QuantumGate::Oracle(sig) => {
            let mut name = String::new();
            name.append("PHASE_ORACLE_");
            name.append(sig.as_str());
            let t = "0_0".to_owned();
            let targets = vec![t];
            let op = CirqOperation { gate: name, targets };
            assert(operation_view(op).1 =~= seq!["0_0"@]);
            op
        },
    }
}

impl GcpQuantumDriver {
    pub fn new(config: DriverConfig, gcp_project_id: String) -> (d: Self)
        ensures
            d.config() == config,
            d.project_id() == gcp_project_id@,
    {
        Self { config, gcp_project_id }
    }

    /// The driver's configuration.
    pub closed spec fn config(&self) -> DriverConfig {
        self.config
    }

    /// The Google Cloud project.
    pub closed spec fn project_id(&self) -> Seq<char> {
        self.gcp_project_id@
    }

    /// A copy of the driver's configuration.
    pub fn configuration(&self) -> (c: DriverConfig)
        ensures
            c.target_device@ == self.config().target_device@,
            c.api_token@ == self.config().api_token@,
            c.provider == self.config().provider,
            c.timeout_seconds == self.config().timeout_seconds,
    {
        copy_config(&self.config)
    }

    /// The Google Cloud project.
    pub fn gcp_project_id(&self) -> (p: String)
        ensures
            p@ == self.project_id(),
    {
        self.gcp_project_id.clone()
    }

    /// Translates a plan into Cirq operations on line zero of the grid, one
    /// operation per gate; it always succeeds.
    pub fn transpile_to_cirq_payload(&self, plan: &QuantumCircuitPlan) -> (r: Result<CirqCircuitRepresentation, GcpQuantumDriverError>)
        ensures
            r matches Ok(c) && c.operations@.map_values(|op: CirqOperation| operation_view(op))
                == gates_view(plan.execution_gates@).map_values(|g: GateView| cirq_operation(g)),
    {
        let ghost target = gates_view(plan.execution_gates@).map_values(|g: GateView| cirq_operation(g));
        let mut operations: Vec<CirqOperation> = Vec::new();
        let mut i: usize = 0;
        while i < plan.execution_gates.len()
            invariant
                i <= plan.execution_gates@.len(),
                target == gates_view(plan.execution_gates@).map_values(|g: GateView| cirq_operation(g)),
                operations@.map_values(|op: CirqOperation| operation_view(op)) == target.take(i as int),
            decreases plan.execution_gates@.len() - i,
        {
            let ghost before = operations@;
            let op = cirq_op(&plan.execution_gates[i]);
            operations.push(op);
            assert(target[i as int] == cirq_operation(plan.execution_gates@[i as int]@));
            assert(operations@.map_values(|op: CirqOperation| operation_view(op)) =~= before.map_values(
                |op: CirqOperation| operation_view(op),
            ).push(operation_view(op)));
            assert(target.take(i + 1) =~= target.take(i as int).push(target[i as int]));
            i += 1;
        }
        assert(target.take(plan.execution_gates@.len() as int) =~= target);
        Ok(CirqCircuitRepresentation { operations })
    }

    /// Reads a Google job status: `SUCCESS`, or failed on `FAILURE` with the
    /// reported detail (a default one when none is given).
    pub fn job_progress(status: &str, error_detail: Option<String>) -> (p: JobProgress)
        ensures
            progress_is(
                p,
                status@,
                "SUCCESS"@,
                status@ == "FAILURE"@,
                message_or(optional_view(error_detail), "Google Sycamore compilation fault"@),
            ),
    {
        if text_is(status, "SUCCESS") {
            JobProgress::Completed
        } else if text_is(status, "FAILURE") {
            JobProgress::Failed(message_or_default(error_detail, "Google Sycamore compilation fault"))
        } else {
            JobProgress::Pending
        }
    }
}

} // verus!
