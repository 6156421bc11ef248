//! AWS Braket: OpenQASM payload, result object name and task status reading.
use vstd::prelude::*;
use crate::compiler::{PlanView, QuantumCircuitPlan};
use crate::compiler::qasm_gen::{Dialect, gates_text, measure_lines, push_gates_text, push_measure_lines, push_register_lines, register_lines};
use crate::drivers::{DriverConfig, JobProgress, copy_config, message_or, message_or_default, optional_view, progress_is};
use crate::text::{chars_of, contains_text, push_char, text_contains, text_is};

verus! {

/// Errors of the AWS Braket driver.
#[derive(Debug)]
pub enum AwsBraketDriverError {
    NetworkError(String),
    AuthError(String),
    TaskFailure(String),
    QueueTimeout,
    SerializationError(String),
}

/// Polls allowed after submission (attempts `0..=60`).
pub const AWS_MAX_POLL_ATTEMPTS: u32 = 60;

/// Driver for AWS Braket (the HTTP client is held by the caller).
pub struct AwsBraketDriver {
    config: DriverConfig,
    s3_output_bucket: String,
}

/// The OpenQASM 3.0 program sent to Braket; IonQ devices get the native-gate pragma.
pub open spec fn aws_qasm_text(device: Seq<char>, plan: PlanView) -> Seq<char> {
    "OPENQASM 3.0;\n"@ + (if contains_text(device, "ionq"@) {
        "// AWS Braket Pragma Optimization Set for IonQ Native Traps\n"@ + "#pragma braket native_gates_only\n"@
    } else {
        seq![]
    }) + register_lines(plan.required_qubits) + gates_text(Dialect::AwsQasm, plan.gates) + measure_lines(
        plan.required_qubits as nat,
    )
}

/// `s` with every `/` replaced by `_`.
pub open spec fn slashes_to_underscores(s: Seq<char>) -> Seq<char> {
    Seq::new(s.len(), |i: int| if s[i] == '/' { '_' } else { s[i] })
}

impl AwsBraketDriver {
    pub fn new(config: DriverConfig, s3_output_bucket: String) -> (d: Self)
        ensures
            d.config() == config,
            d.output_bucket() == s3_output_bucket@,
    {
        Self { config, s3_output_bucket }
    }

    /// The driver's configuration.
    pub closed spec fn config(&self) -> DriverConfig {
        self.config
    }

    /// The S3 bucket receiving results.
    pub closed spec fn output_bucket(&self) -> Seq<char> {
        self.s3_output_bucket@
    }

    /// A copy of the driver's configuration.
    pub fn configuration(&self) -> (c: DriverConfig)
        ensures
            c.target_device@ == self.config().target_device@,
            c.api_token@ == self.config().api_token@,
            c.provider == self.config().provider,
            c.timeout_seconds == self.config().timeout_seconds,
    {
        copy_config(&self.config)
    }

    /// The S3 bucket receiving results.
    pub fn s3_output_bucket(&self) -> (b: String)
        ensures
            b@ == self.output_bucket(),
    {
        self.s3_output_bucket.clone()
    }

    /// Translates a plan into Braket's OpenQASM 3.0 payload.
    pub fn transpile_to_aws_openqasm(&self, plan: &QuantumCircuitPlan) -> (qasm: String)
        ensures
            qasm@ == aws_qasm_text(self.config().target_device@, plan@),
    {
        let mut qasm = String::new();
        qasm.append("OPENQASM 3.0;\n");
        let ghost head = qasm@;
        if text_contains(self.config.target_device.as_str(), "ionq") {
            qasm.append("// AWS Braket Pragma Optimization Set for IonQ Native Traps\n");
            qasm.append("#pragma braket native_gates_only\n");
        }
        let ghost pragma = qasm@;
        push_register_lines(&mut qasm, plan.required_qubits);
        push_gates_text(Dialect::AwsQasm, &mut qasm, &plan.execution_gates);
        push_measure_lines(&mut qasm, plan.required_qubits);
        assert(qasm@ =~= aws_qasm_text(self.config().target_device@, plan@));
        qasm
    }

    /// The name of the results object of a task: its ARN with `/` replaced by `_`.
    pub fn results_object_name(task_arn: &str) -> (name: String)
        ensures
            name@ == slashes_to_underscores(task_arn@),
    {
        let cs = chars_of(task_arn);
        let mut name = String::new();
        let mut i: usize = 0;
        while i < cs.len()
            invariant
                i <= cs@.len(),
                name@ == slashes_to_underscores(cs@).take(i as int),
            decreases cs@.len() - i,
        {
            if cs[i] == '/' {
                push_char(&mut name, '_');
            } else {
                push_char(&mut name, cs[i]);
            }
            assert(name@ =~= slashes_to_underscores(cs@).take(i + 1));
            i += 1;
        }
        assert(slashes_to_underscores(cs@).take(cs@.len() as int) =~= slashes_to_underscores(cs@));
        name
    }

    /// Reads a Braket task status: `COMPLETED`, or failed on `FAILED` with
    /// the reported reason (a default one when none is given).
    pub fn task_progress(status: &str, failure_reason: Option<String>) -> (p: JobProgress)
        ensures
            progress_is(
                p,
                status@,
                "COMPLETED"@,
                status@ == "FAILED"@,
                message_or(optional_view(failure_reason), "Unknown cloud fault"@),
            ),
    {
        if text_is(status, "COMPLETED") {
            JobProgress::Completed
        } else if text_is(status, "FAILED") {
            JobProgress::Failed(message_or_default(failure_reason, "Unknown cloud fault"))
        } else {
            JobProgress::Pending
        }
    }
}

} // verus!
