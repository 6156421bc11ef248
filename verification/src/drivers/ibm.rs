//! IBM Quantum: OpenQASM payload and job status reading.
use vstd::prelude::*;
use crate::compiler::{PlanView, QuantumCircuitPlan};
use crate::compiler::qasm_gen::{Dialect, gates_text, measure_lines, push_gates_text, push_measure_lines, push_register_lines, register_lines};
use crate::drivers::{DriverConfig, JobProgress, copy_config, progress_is};
use crate::text::text_is;

verus! {

/// Errors of the IBM driver.
#[derive(Debug)]
pub enum IbmDriverError {
    NetworkError(String),
    ApiError(String),
    Timeout,
    SerializationError(String),
}

/// Polls allowed after submission (attempts `0..=30`).
pub const IBM_MAX_POLL_ATTEMPTS: u32 = 30;

/// Driver for IBM Quantum (the HTTP client is held by the caller).
pub struct IbmQuantumDriver {
    config: DriverConfig,
}

/// The OpenQASM 3.0 program sent to IBM.
pub open spec fn ibm_qasm_text(plan: PlanView) -> Seq<char> {
    "OPENQASM 3.0;\ninclude \"stdgates.inc\";\n"@ + register_lines(plan.required_qubits) + gates_text(
        Dialect::IbmQasm,
        plan.gates,
    ) + measure_lines(plan.required_qubits as nat)
}

impl IbmQuantumDriver {
    pub fn new(config: DriverConfig) -> (d: Self)
        ensures
            d.config() == config,
    {
        Self { config }
    }

    /// The driver's configuration.
    pub closed spec fn config(&self) -> DriverConfig {
        self.config
    }

    /// A copy of the driver's configuration.
    pub fn configuration(&self) -> (c: DriverConfig)
        ensures
            c.target_device@ == self.config().target_device@,
            c.api_token@ == self.config().api_token@,
            c.provider == self.config().provider,
            c.timeout_seconds == self.config().timeout_seconds,
    {
        copy_config(&self.config)
    }

    /// Transpiles a plan into the OpenQASM 3.0 text that IBM takes.
    pub fn transpile_to_openqasm(&self, plan: &QuantumCircuitPlan) -> (qasm: String)
        ensures
            qasm@ == ibm_qasm_text(plan@),
    {
        let mut qasm = String::new();
        qasm.append("OPENQASM 3.0;\ninclude \"stdgates.inc\";\n");
        push_register_lines(&mut qasm, plan.required_qubits);
        push_gates_text(Dialect::IbmQasm, &mut qasm, &plan.execution_gates);
        push_measure_lines(&mut qasm, plan.required_qubits);
        assert(qasm@ =~= ibm_qasm_text(plan@));
        qasm
    }

    /// Reads an IBM job status: `COMPLETED`, or failed when `FAILED` or `CANCELLED`.
    pub fn job_progress(status: &str) -> (p: JobProgress)
        ensures
            progress_is(
                p,
                status@,
                "COMPLETED"@,
                status@ == "FAILED"@ || status@ == "CANCELLED"@,
                "Cloud Job crashed with status: "@ + status@,
            ),
    {
        if text_is(status, "COMPLETED") {
            JobProgress::Completed
        } else if text_is(status, "FAILED") || text_is(status, "CANCELLED") {
            let mut m = String::new();
            m.append("Cloud Job crashed with status: ");
            m.append(status);
            JobProgress::Failed(m)
        } else {
            JobProgress::Pending
        }
    }
}

} // verus!
