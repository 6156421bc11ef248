//! Azure Quantum: job naming and job status reading (the payload is the QIR
//! module of `QuantumCodeGenerator::to_qir_llvm`).
use vstd::prelude::*;
use crate::drivers::{DriverConfig, JobProgress, copy_config, message_or, message_or_default, optional_view, progress_is};
use crate::text::text_is;

verus! {

/// Errors of the Azure Quantum driver.
#[derive(Debug)]
pub enum AzureQuantumDriverError {
    NetworkError(String),
    AuthRejected(String),
    JobExecutionFault(String),
    QueueTimeout,
    SerializationError(String),
}

/// Polls allowed after submission (attempts `0..=45`).
pub const AZURE_MAX_POLL_ATTEMPTS: u32 = 45;

/// Whether a character is a lowercase hexadecimal digit.
pub open spec fn is_lower_hex(c: char) -> bool {
    let u = c as u32;
    (0x30 <= u <= 0x39) || (0x61 <= u <= 0x66)
}

/// The lowercase hyphenated form of a version-4 UUID: 36 characters, with
/// hyphens at 8, 13, 18 and 23, the version digit `4` at 14, a variant digit
/// `8`, `9`, `a` or `b` at 19, and lowercase hexadecimal digits elsewhere.
pub open spec fn is_v4_uuid_text(s: Seq<char>) -> bool {
    &&& s.len() == 36
    &&& forall|i: int| 0 <= i < 36 ==> (#[trigger] s[i] == '-' <==> (i == 8 || i == 13 || i == 18 || i == 23))
    &&& forall|i: int| 0 <= i < 36 && i != 8 && i != 13 && i != 18 && i != 23 ==> is_lower_hex(#[trigger] s[i])
    &&& s[14] == '4'
    &&& (s[19] == '8' || s[19] == '9' || s[19] == 'a' || s[19] == 'b')
}

/// `uuid::Uuid::new_v4`, written with `to_string`: a random version-4 UUID
/// in the lowercase hyphenated form that its `Display` writes (version
/// nibble 4, RFC 4122 variant bits `10`).  Its value is random.
#[verifier::external_body]
fn random_uuid_text() -> (s: String)
    ensures
        is_v4_uuid_text(s@),
{
    uuid::Uuid::new_v4().to_string()
}

/// Driver for Azure Quantum (the HTTP client is held by the caller).
pub struct AzureQuantumDriver {
    config: DriverConfig,
    azure_subscription_id: String,
    resource_group: String,
    workspace_name: String,
    blob_container_uri: String,
}

impl AzureQuantumDriver {
    pub fn new(
        config: DriverConfig,
        azure_subscription_id: String,
        resource_group: String,
        workspace_name: String,
        blob_container_uri: String,
    ) -> (d: Self)
        ensures
            d.config() == config,
            d.locations() == (azure_subscription_id@, resource_group@, workspace_name@, blob_container_uri@),
    {
        Self { config, azure_subscription_id, resource_group, workspace_name, blob_container_uri }
    }

    /// The driver's configuration.
    pub closed spec fn config(&self) -> DriverConfig {
        self.config
    }

    /// Subscription, resource group, workspace and blob container.
    pub closed spec fn locations(&self) -> (Seq<char>, Seq<char>, Seq<char>, Seq<char>) {
        (self.azure_subscription_id@, self.resource_group@, self.workspace_name@, self.blob_container_uri@)
    }

    /// A copy of the driver's configuration.
    pub fn configuration(&self) -> (c: DriverConfig)
        ensures
            c.target_device@ == self.config().target_device@,
            c.api_token@ == self.config().api_token@,
            c.provider == self.config().provider,
            c.timeout_seconds == self.config().timeout_seconds,
    {
        copy_config(&self.config)
    }

    /// Copies of subscription, resource group, workspace and blob container.
    pub fn location_parts(&self) -> (r: (String, String, String, String))
        ensures
            (r.0@, r.1@, r.2@, r.3@) == self.locations(),
    {
        (
            self.azure_subscription_id.clone(),
            self.resource_group.clone(),
            self.workspace_name.clone(),
            self.blob_container_uri.clone(),
        )
    }

    /// The job id for a UUID text: `hadamard-job-` followed by it.
    pub fn job_id_for(uuid_text: &str) -> (id: String)
        ensures
            id@ == "hadamard-job-"@ + uuid_text@,
    {
        let mut id = String::new();
        id.append("hadamard-job-");
        id.append(uuid_text);
        id
    }

    /// A fresh job id: `hadamard-job-` followed by a random UUID.
    pub fn new_job_id() -> (id: String)
        ensures
            exists|u: Seq<char>| is_v4_uuid_text(u) && id@ == "hadamard-job-"@ + u,
    {
        let u = random_uuid_text();
        Self::job_id_for(u.as_str())
    }

    /// Reads an Azure job status: `Succeeded`, or failed on `Failed` with the
    /// reported message (a default one when none is given).
    pub fn job_progress(status: &str, error_message: Option<String>) -> (p: JobProgress)
        ensures
            progress_is(
                p,
                status@,
                "Succeeded"@,
                status@ == "Failed"@,
                message_or(optional_view(error_message), "Internal cloud system crash"@),
            ),
    {
        if text_is(status, "Succeeded") {
            JobProgress::Completed
        } else if text_is(status, "Failed") {
            JobProgress::Failed(message_or_default(error_message, "Internal cloud system crash"))
        } else {
            JobProgress::Pending
        }
    }
}

} // verus!
