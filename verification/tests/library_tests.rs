use hadamard_core::algorithms::crypto::{CryptoError, PostQuantumShield};
use hadamard_core::algorithms::grover::{GroverSearchEngine, QuantumEngineError};
use hadamard_core::algorithms::vqe::{construct_ansatz_plan, VqeError};
use hadamard_core::compiler::parser::{CompilerError, QuantumCompiler};
use hadamard_core::compiler::qasm_gen::{QuantumCodeGenerator, TranspilerError};
use hadamard_core::compiler::{QuantumCircuitPlan, QuantumGate, QueryOperator};
use hadamard_core::drivers::aws::AwsBraketDriver;
use hadamard_core::drivers::azure::AzureQuantumDriver;
use hadamard_core::drivers::gcp::GcpQuantumDriver;
use hadamard_core::drivers::ibm::IbmQuantumDriver;
use hadamard_core::drivers::{
    next_poll_decision, poll_allowed, DriverConfig, JobProgress, PollDecision, QuantumBackendProvider,
};
use hadamard_core::engine::{EngineError, HadamardEngine};
use hadamard_core::records::{copy_record, record_get, Record};
use hadamard_core::storage::cache::{CacheError, CacheValue, ZeroCopyCache};
use hadamard_core::storage::qram::{plan_shards, HybridQramStorage, StorageError};
use hadamard_core::text::{chars_of, string_from_chars, text_contains, text_is};

fn rec(pairs: &[(&str, &str)]) -> Record {
    pairs.iter().map(|(k, v)| (k.to_string(), v.to_string())).collect()
}

fn plan(n: usize, gates: Vec<QuantumGate>) -> QuantumCircuitPlan {
    QuantumCircuitPlan { required_qubits: n, execution_gates: gates }
}

fn config(device: &str) -> DriverConfig {
    DriverConfig {
        provider: QuantumBackendProvider::AwsBraket,
        api_token: "token".to_string(),
        target_device: device.to_string(),
        timeout_seconds: 5,
    }
}

fn gate_names(gates: &[QuantumGate]) -> Vec<String> {
    gates
        .iter()
        .map(|g| match g {
            QuantumGate::H(i) => format!("H{}", i),
            QuantumGate::X(i) => format!("X{}", i),
            QuantumGate::CX(c, t) => format!("CX{}{}", c, t),
            QuantumGate::Oracle(s) => format!("O:{}", s),
        })
        .collect()
}

// ---------------------------------------------------------------- crypto

#[test]
fn keypair_has_the_documented_pattern() {
    let shield = PostQuantumShield::new();
    assert_eq!(shield.algorithm_identifier, "ML-KEM-1024");
    assert_eq!(shield.key_security_bits, 256);
    let (pk, sk) = shield.generate_quantum_keypair().unwrap();
    assert_eq!(pk.len(), 1568);
    assert_eq!(sk.len(), 3168);
    assert_eq!(pk[0], 0);
    assert_eq!(pk[1], 37);
    assert_eq!(pk[7], ((7 * 37) % 251) as u8);
    assert_eq!(sk[5], ((5 * 73) % 251) as u8);
    assert_eq!(sk[3167], ((3167 * 73) % 251) as u8);
    // The secret key carries the public key at bytes 1536..3104.
    assert_eq!(&sk[1536..3104], &pk[..]);
    assert_eq!(sk[1535], ((1535 * 73) % 251) as u8);
    assert_eq!(sk[3104], ((3104 * 73) % 251) as u8);
}

#[test]
fn keypair_round_trip() {
    let shield = PostQuantumShield::new();
    let (pk, sk) = shield.generate_quantum_keypair().unwrap();
    let data: Vec<u8> = (0u8..100).collect();
    let sealed = shield.encrypt_record(&data, &pk).unwrap();
    assert_eq!(sealed.len(), data.len() + 4);
    assert_ne!(&sealed[..100], &data[..]);
    let opened = shield.decrypt_record(&sealed, &sk).unwrap();
    assert_eq!(opened, data);
    let sealed = shield.encrypt_record(b"ledger row", &pk).unwrap();
    assert_eq!(shield.decrypt_record(&sealed, &sk).unwrap(), b"ledger row".to_vec());
    let sealed = shield.encrypt_record(&[], &pk).unwrap();
    assert_eq!(shield.decrypt_record(&sealed, &sk).unwrap(), Vec::<u8>::new());
}

#[test]
fn encryption_exact_bytes() {
    let shield = PostQuantumShield::new();
    // Derived key byte i is key[i % 1] ^ 0x5A = 0x10 ^ 0x5A = 0x4A, so the
    // body is [0x4A, 0xB5]; the tag state starts at 0x4A4A4A4A and mixes in
    // each body byte XOR 0x4A, times 0x01000193 modulo 2^32.
    let sealed = shield.encrypt_record(&[0x00, 0xFF], &[0x10]).unwrap();
    assert_eq!(sealed, vec![0x4A, 0xB5, 0x13, 0xC1, 0x73, 0x73]);
    let sealed = shield.encrypt_record(&[1, 2, 3, 4, 5], &[0x10]).unwrap();
    assert_eq!(sealed, vec![1 ^ 0x4A, 2 ^ 0x4A, 3 ^ 0x4A, 4 ^ 0x4A, 5 ^ 0x4A, 0x31, 0xA7, 0x53, 0x6E]);
}

#[test]
fn encryption_refuses_an_empty_key() {
    let shield = PostQuantumShield::new();
    match shield.encrypt_record(&[1, 2, 3], &[]) {
        Err(CryptoError::HandshakeFailed(m)) => assert_eq!(m, "Public key register cannot be null."),
        _ => panic!("expected a handshake failure"),
    }
}

#[test]
fn decryption_refuses_short_input_bad_keys_and_bad_tags() {
    let shield = PostQuantumShield::new();
    let (pk, sk) = shield.generate_quantum_keypair().unwrap();
    assert!(matches!(shield.decrypt_record(&[0xDE, 0xAD, 0xBE], &sk), Err(CryptoError::DecryptionError)));
    assert!(matches!(shield.decrypt_record(&[1, 2, 3, 4, 5], &sk), Err(CryptoError::DecryptionError)));
    let sealed = shield.encrypt_record(b"abc", &pk).unwrap();
    // Not a whole secret key.
    assert!(matches!(shield.decrypt_record(&sealed, &pk), Err(CryptoError::DecryptionError)));
    assert!(matches!(shield.decrypt_record(&sealed, &[1]), Err(CryptoError::DecryptionError)));
    // A secret key carrying another public key.
    let mut other = sk.clone();
    other[1537] ^= 1;
    assert!(matches!(shield.decrypt_record(&sealed, &other), Err(CryptoError::DecryptionError)));
}

#[test]
fn tampering_is_rejected() {
    let shield = PostQuantumShield::new();
    let (pk, sk) = shield.generate_quantum_keypair().unwrap();
    let sealed = shield.encrypt_record(b"channel=SWIFT|amount=5400000.00", &pk).unwrap();
    for i in 0..sealed.len() {
        let mut bad = sealed.clone();
        bad[i] ^= 0x01;
        assert!(matches!(shield.decrypt_record(&bad, &sk), Err(CryptoError::DecryptionError)), "byte {}", i);
    }
    assert!(shield.decrypt_record(&sealed, &sk).is_ok());
    // Flipping the same bits of two body bytes four apart is caught too.
    for bits in [0x01u8, 0x80, 0xFF] {
        let mut bad = sealed.clone();
        bad[0] ^= bits;
        bad[4] ^= bits;
        assert!(matches!(shield.decrypt_record(&bad, &sk), Err(CryptoError::DecryptionError)));
    }
    // Swapping two body bytes is caught.
    let mut bad = sealed.clone();
    bad.swap(0, 1);
    assert!(matches!(shield.decrypt_record(&bad, &sk), Err(CryptoError::DecryptionError)));
}

// ---------------------------------------------------------------- parser

#[test]
fn parser_reads_every_operator_and_strips_quotes() {
    let q = QuantumCompiler::parse_query("select * from t where f > \"1'0\"").unwrap();
    assert_eq!(q.target_collection, "t");
    assert_eq!(q.field, "f");
    assert_eq!(q.operator, QueryOperator::GreaterThan);
    assert_eq!(q.value, "10");
    let q = QuantumCompiler::parse_query("SELECT * FROM t WHERE f < 3").unwrap();
    assert_eq!(q.operator, QueryOperator::LessThan);
    let q = QuantumCompiler::parse_query("  SELECT\t*\nFROM   t WHERE f = v extra words").unwrap();
    assert_eq!(q.operator, QueryOperator::Equal);
    assert_eq!(q.value, "v");
}

#[test]
fn parser_errors() {
    match QuantumCompiler::parse_query("SELECT * FROM t WHERE f != 3") {
        Err(CompilerError::UnsupportedOperator(op)) => assert_eq!(op, "!="),
        _ => panic!("expected an unsupported operator"),
    }
    match QuantumCompiler::parse_query("DELETE * FROM t WHERE f = 3") {
        Err(CompilerError::InvalidSyntax(m)) => {
            assert_eq!(m, "Query must match format: SELECT * FROM <collection> WHERE <field> <op> <value>")
        }
        _ => panic!("expected a syntax error"),
    }
    assert!(matches!(QuantumCompiler::parse_query(""), Err(CompilerError::InvalidSyntax(_))));
    // The words must follow SELECT * FROM <collection> WHERE <field> <op> <value>.
    for bad in [
        "SELECT a b t c f = v",
        "SELECT x FROM t WHERE f = v",
        "SELECT * INTO t WHERE f = v",
        "SELECT * FROM t HAVING f = v",
    ] {
        assert!(matches!(QuantumCompiler::parse_query(bad), Err(CompilerError::InvalidSyntax(_))), "{}", bad);
    }
    // Keywords are read regardless of case.
    let q = QuantumCompiler::parse_query("Select * from t wHeRe f = v").unwrap();
    assert_eq!(q.target_collection, "t");
}

#[test]
fn word_splitting_and_quote_stripping() {
    let words = QuantumCompiler::split_words("  a\u{3000}bc \u{85}d  ");
    assert_eq!(words, vec!["a".to_string(), "bc".to_string(), "d".to_string()]);
    assert_eq!(QuantumCompiler::strip_quotes("'a\"b'c"), "abc");
    let words: Vec<String> = ["select", "*", "from", "t", "where", "f", "~", "v"].iter().map(|w| w.to_string()).collect();
    assert!(QuantumCompiler::build_query(&words, "select", "FROM", "WHERE").is_err());
    assert!(QuantumCompiler::build_query(&words, "SELECT", "from", "WHERE").is_err());
    assert!(QuantumCompiler::build_query(&words, "SELECT", "FROM", "WHERE!").is_err());
    assert!(matches!(
        QuantumCompiler::build_query(&words, "SELECT", "FROM", "WHERE"),
        Err(CompilerError::UnsupportedOperator(_))
    ));
}

#[test]
fn compiled_search_circuit() {
    let q = QuantumCompiler::parse_query("SELECT * FROM users WHERE age = 42").unwrap();
    let circuit = QuantumCompiler::compile_to_circuit(&q);
    assert_eq!(circuit.required_qubits, 9);
    let names = gate_names(&circuit.execution_gates);
    assert_eq!(names.len(), 25);
    for i in 0..8 {
        assert_eq!(names[i], format!("H{}", i));
        assert_eq!(names[9 + 2 * i], format!("H{}", i));
        assert_eq!(names[10 + 2 * i], format!("X{}", i));
    }
    assert_eq!(names[8], "O:age:42:Equal");
}

// ---------------------------------------------------------------- optimiser and transpilers

#[test]
fn optimiser_level_zero_is_identity() {
    let g = QuantumCodeGenerator::new(0);
    let p = plan(2, vec![QuantumGate::H(0), QuantumGate::H(0)]);
    let out = g.optimize_circuit(&p);
    assert_eq!(gate_names(&out.execution_gates), vec!["H0", "H0"]);
}

#[test]
fn optimiser_does_not_cancel_across_other_gates() {
    let g = QuantumCodeGenerator::new(2);
    let p = plan(
        3,
        vec![
            QuantumGate::H(0),
            QuantumGate::CX(0, 1),
            QuantumGate::H(0),
            QuantumGate::X(1),
            QuantumGate::Oracle("s".to_string()),
            QuantumGate::X(1),
            QuantumGate::X(2),
        ],
    );
    let out = g.optimize_circuit(&p);
    assert_eq!(out.required_qubits, 3);
    // The CNOT acts on qubit 0 and the oracle on every qubit, so nothing cancels.
    assert_eq!(gate_names(&out.execution_gates), vec!["H0", "CX01", "H0", "X1", "O:s", "X1", "X2"]);
    // A CNOT on other qubits does not block.
    let p = plan(3, vec![QuantumGate::H(0), QuantumGate::CX(1, 2), QuantumGate::H(0), QuantumGate::X(2)]);
    assert_eq!(gate_names(&g.optimize_circuit(&p).execution_gates), vec!["CX12", "X2"]);
}

#[test]
fn optimiser_cancels_adjacent_pairs_only() {
    let g = QuantumCodeGenerator::new(1);
    // X0 X0 cancel, which leaves the two Hadamards adjacent: they cancel too.
    let p = plan(1, vec![QuantumGate::H(0), QuantumGate::X(0), QuantumGate::X(0), QuantumGate::H(0)]);
    assert_eq!(gate_names(&g.optimize_circuit(&p).execution_gates), Vec::<String>::new());
    // A Pauli-X in between blocks the cancellation of the Hadamards.
    let p = plan(1, vec![QuantumGate::H(0), QuantumGate::X(0), QuantumGate::H(0)]);
    assert_eq!(gate_names(&g.optimize_circuit(&p).execution_gates), vec!["H0", "X0", "H0"]);
    // A kept gate followed at once by the same gate cancels.
    let p = plan(2, vec![QuantumGate::CX(0, 1), QuantumGate::X(1), QuantumGate::X(1)]);
    assert_eq!(gate_names(&g.optimize_circuit(&p).execution_gates), vec!["CX01"]);
    // Three Hadamards leave one.
    let p = plan(1, vec![QuantumGate::H(0), QuantumGate::H(0), QuantumGate::H(0)]);
    assert_eq!(gate_names(&g.optimize_circuit(&p).execution_gates), vec!["H0"]);
}

#[test]
fn openqasm_exact_text() {
    let g = QuantumCodeGenerator::new(1);
    let p = plan(
        2,
        vec![QuantumGate::H(0), QuantumGate::X(1), QuantumGate::CX(0, 1), QuantumGate::Oracle("sig".to_string())],
    );
    let text = g.to_openqasm_3(&p).unwrap();
    let expected = "OPENQASM 3.0;\ninclude \"stdgates.inc\";\nqreg q[2];\ncreg c[2];\nh q[0];\nx q[1];\ncx q[0], q[1];\n// Structural Oracle Block Allocation for: sig\nh q[0];\ncx q[0], q[1];\nh q[0];\nc[0] = measure q[0];\nc[1] = measure q[1];\n";
    assert_eq!(text, expected);
}

#[test]
fn openqasm_reports_the_first_bad_register_index() {
    let g = QuantumCodeGenerator::new(0);
    let p = plan(3, vec![QuantumGate::H(1), QuantumGate::CX(2, 7), QuantumGate::X(9)]);
    match g.to_openqasm_3(&p) {
        Err(TranspilerError::RegisterIndexOutOfBounds { size, index }) => {
            assert_eq!(size, 3);
            assert_eq!(index, 7);
        }
        _ => panic!("expected an out-of-bounds error"),
    }
    let p = plan(12, vec![QuantumGate::X(11)]);
    let text = g.to_openqasm_3(&p).unwrap();
    assert!(text.contains("qreg q[12];"));
    assert!(text.contains("x q[11];"));
    assert!(text.ends_with("c[11] = measure q[11];\n"));
}

#[test]
fn openqasm_checks_the_optimised_plan() {
    // The out-of-range pair cancels before the check.
    let g = QuantumCodeGenerator::new(1);
    let p = plan(1, vec![QuantumGate::H(4), QuantumGate::H(4)]);
    assert_eq!(g.to_openqasm_3(&p).unwrap(), "OPENQASM 3.0;\ninclude \"stdgates.inc\";\nqreg q[1];\ncreg c[1];\nc[0] = measure q[0];\n");
}

#[test]
fn qir_exact_text() {
    let g = QuantumCodeGenerator::new(3);
    let p = plan(2, vec![QuantumGate::H(0), QuantumGate::H(0), QuantumGate::CX(1, 0), QuantumGate::Oracle("o".to_string())]);
    let qir = g.to_qir_llvm(&p).unwrap();
    let expected = [
        "; ModuleID = 'HadamardQIRCluster'\n",
        "source_filename = \"qvoltdb.core\"\n",
        "target datalayout = \"e-m:e-p270:32:32-p271:32:32-p272:64:64-i64:64-f80:128-n8:16:32:64-S128\"\n",
        "\n%Qubit = type opaque\n%Result = type opaque\n\n",
        "define void @hadamard_quantum_query_entry() {\n",
        "  call void @__quantum__qis__h__body(%Qubit* inttoptr (i64 0 to %Qubit*))\n",
        "  call void @__quantum__qis__h__body(%Qubit* inttoptr (i64 0 to %Qubit*))\n",
        "  call void @__quantum__qis__cnot__body(%Qubit* inttoptr (i64 1 to %Qubit*), %Qubit* inttoptr (i64 0 to %Qubit*))\n",
        "  ; Custom Oracle Bit-String Mapping Instruction Applied Set\n",
        "  ret void\n}\n",
        "declare void @__quantum__qis__h__body(%Qubit*)\n",
        "declare void @__quantum__qis__x__body(%Qubit*)\n",
        "declare void @__quantum__qis__cnot__body(%Qubit*, %Qubit*)\n",
    ]
    .join("");
    assert_eq!(qir, expected);
}

#[test]
fn ansatz_layout() {
    assert!(matches!(construct_ansatz_plan(0), Err(VqeError::DimensionMismatch)));
    let p = construct_ansatz_plan(3).unwrap();
    assert_eq!(p.required_qubits, 3);
    assert_eq!(gate_names(&p.execution_gates), vec!["H0", "H1", "H2", "CX01", "CX12", "O:VQE_ANSATZ_LAYER_FEATURE_3"]);
    let p = construct_ansatz_plan(1).unwrap();
    assert_eq!(gate_names(&p.execution_gates), vec!["H0", "O:VQE_ANSATZ_LAYER_FEATURE_1"]);
}

// ---------------------------------------------------------------- drivers

#[test]
fn ibm_payload_and_status() {
    let d = IbmQuantumDriver::new(config("ibm_brisbane"));
    let text = d.transpile_to_openqasm(&plan(2, vec![QuantumGate::H(1), QuantumGate::Oracle("z".to_string())]));
    assert_eq!(
        text,
        "OPENQASM 3.0;\ninclude \"stdgates.inc\";\nqreg q[2];\ncreg c[2];\nh q[1];\n// Begin Phase Oracle for z\nh q[0];\ncx q[1], q[0];\nh q[0];\nc[0] = measure q[0];\nc[1] = measure q[1];\n"
    );
    assert!(matches!(IbmQuantumDriver::job_progress("COMPLETED"), JobProgress::Completed));
    assert!(matches!(IbmQuantumDriver::job_progress("RUNNING"), JobProgress::Pending));
    match IbmQuantumDriver::job_progress("CANCELLED") {
        JobProgress::Failed(m) => assert_eq!(m, "Cloud Job crashed with status: CANCELLED"),
        _ => panic!("expected a failure"),
    }
    assert_eq!(d.configuration().target_device, "ibm_brisbane");
}

#[test]
fn aws_payload_and_status() {
    let ionq = AwsBraketDriver::new(config("arn:aws:braket:::device/qpu/ionq/Harmony"), "bucket".to_string());
    let p = plan(1, vec![QuantumGate::Oracle("k".to_string())]);
    assert_eq!(
        ionq.transpile_to_aws_openqasm(&p),
        "OPENQASM 3.0;\n// AWS Braket Pragma Optimization Set for IonQ Native Traps\n#pragma braket native_gates_only\nqreg q[1];\ncreg c[1];\n// AWS Oracle Routine: k\nh q;\ncx q, q;\nh q;\nc[0] = measure q[0];\n"
    );
    let sim = AwsBraketDriver::new(config("sv1"), "bucket".to_string());
    assert_eq!(sim.transpile_to_aws_openqasm(&plan(0, vec![])), "OPENQASM 3.0;\nqreg q[0];\ncreg c[0];\n");
    assert_eq!(sim.s3_output_bucket(), "bucket");
    assert_eq!(AwsBraketDriver::results_object_name("a/b//c"), "a_b__c");
    match AwsBraketDriver::task_progress("FAILED", None) {
        JobProgress::Failed(m) => assert_eq!(m, "Unknown cloud fault"),
        _ => panic!("expected a failure"),
    }
    match AwsBraketDriver::task_progress("FAILED", Some("cold fridge".to_string())) {
        JobProgress::Failed(m) => assert_eq!(m, "cold fridge"),
        _ => panic!("expected a failure"),
    }
    assert!(matches!(AwsBraketDriver::task_progress("QUEUED", None), JobProgress::Pending));
}

#[test]
fn gcp_payload_and_status() {
    let d = GcpQuantumDriver::new(config("rainbow"), "proj".to_string());
    let ops = d
        .transpile_to_cirq_payload(&plan(3, vec![QuantumGate::CX(10, 2), QuantumGate::Oracle("q".to_string()), QuantumGate::X(1)]))
        .unwrap()
        .operations;
    assert_eq!(ops.len(), 3);
    assert_eq!(ops[0].gate, "CNOT");
    assert_eq!(ops[0].targets, vec!["0_10".to_string(), "0_2".to_string()]);
    assert_eq!(ops[1].gate, "PHASE_ORACLE_q");
    assert_eq!(ops[1].targets, vec!["0_0".to_string()]);
    assert_eq!(ops[2].gate, "X");
    assert_eq!(d.gcp_project_id(), "proj");
    match GcpQuantumDriver::job_progress("FAILURE", None) {
        JobProgress::Failed(m) => assert_eq!(m, "Google Sycamore compilation fault"),
        _ => panic!("expected a failure"),
    }
    assert!(matches!(GcpQuantumDriver::job_progress("SUCCESS", None), JobProgress::Completed));
}

#[test]
fn azure_job_ids_and_status() {
    assert_eq!(AzureQuantumDriver::job_id_for("abc"), "hadamard-job-abc");
    let id = AzureQuantumDriver::new_job_id();
    assert!(id.starts_with("hadamard-job-"));
    assert_eq!(id.len(), "hadamard-job-".len() + 36);
    let u: Vec<char> = id["hadamard-job-".len()..].chars().collect();
    for (i, c) in u.iter().enumerate() {
        if [8, 13, 18, 23].contains(&i) {
            assert_eq!(*c, '-');
        } else {
            assert!(c.is_ascii_hexdigit() && !c.is_ascii_uppercase(), "{}", id);
        }
    }
    assert_eq!(u[14], '4');
    assert!(['8', '9', 'a', 'b'].contains(&u[19]));
    assert!(matches!(AzureQuantumDriver::job_progress("Succeeded", None), JobProgress::Completed));
    match AzureQuantumDriver::job_progress("Failed", None) {
        JobProgress::Failed(m) => assert_eq!(m, "Internal cloud system crash"),
        _ => panic!("expected a failure"),
    }
    let d = AzureQuantumDriver::new(config("quantinuum"), "s".to_string(), "g".to_string(), "w".to_string(), "u".to_string());
    assert_eq!(d.location_parts(), ("s".to_string(), "g".to_string(), "w".to_string(), "u".to_string()));
}

#[test]
fn polling_decisions() {
    assert!(poll_allowed(30, 30));
    assert!(!poll_allowed(30, 31));
    assert!(matches!(next_poll_decision(3, JobProgress::Completed), PollDecision::FetchResults));
    assert!(matches!(next_poll_decision(3, JobProgress::Pending), PollDecision::WaitAndRetry { next_attempt: 4 }));
    match next_poll_decision(0, JobProgress::Failed("x".to_string())) {
        PollDecision::Abort(m) => assert_eq!(m, "x"),
        _ => panic!("expected an abort"),
    }
}

// ---------------------------------------------------------------- search and engine

#[test]
fn search_finds_exactly_the_matching_records() {
    let engine = GroverSearchEngine::new(9);
    let ds = vec![
        rec(&[("a", "1")]),
        rec(&[("b", "1")]),
        rec(&[("a", "2"), ("a", "1")]),
        rec(&[("c", "0"), ("a", "1")]),
    ];
    let p = plan(9, vec![]);
    assert_eq!(engine.execute_search(&p, &ds, "a", "1", 1).unwrap(), vec![0, 3]);
    assert_eq!(engine.execute_search(&p, &ds, "a", "9", 1).unwrap(), Vec::<usize>::new());
    // The amplification count does not change what is found.
    assert_eq!(engine.execute_search(&p, &ds, "a", "1", 7).unwrap(), vec![0, 3]);
    match engine.execute_search(&plan(10, vec![]), &ds, "a", "1", 1) {
        Err(QuantumEngineError::QubitOverflow { required, allocated }) => {
            assert_eq!(required, 10);
            assert_eq!(allocated, 9);
        }
        _ => panic!("expected an overflow"),
    }
}

#[test]
fn records_helpers() {
    let r = rec(&[("k", "v"), ("k", "w")]);
    assert_eq!(record_get(&r, "k").unwrap(), "v");
    assert!(record_get(&r, "z").is_none());
    assert_eq!(copy_record(&r), r);
    assert!(text_is("héllo", "héllo"));
    assert!(!text_is("héllo", "hello"));
    assert!(text_contains("abcabd", "abd"));
    assert!(!text_contains("ab", "abc"));
    assert!(text_contains("ab", ""));
    assert_eq!(string_from_chars(&chars_of("ünï")), "ünï");
}

#[test]
fn engine_round_trip_gives_whole_records() {
    let mut engine = HadamardEngine::new(1 << 20, 29);
    let ds = vec![
        rec(&[("id", "1"), ("tag", "x")]),
        rec(&[]),
        rec(&[("id", "2"), ("tag", "y"), ("payload", "ab")]),
        rec(&[("id", "3"), ("tag", "y")]),
    ];
    assert_eq!(engine.load_dataset("w", ds).unwrap(), 1);
    let planned = engine.plan_query("SELECT * FROM w WHERE tag = 'y'").unwrap();
    assert_eq!(
        planned.dataset,
        vec![
            rec(&[("id", "1"), ("tag", "x")]),
            rec(&[("id", "2"), ("tag", "y"), ("payload", "ab")]),
            rec(&[("id", "3"), ("tag", "y")]),
        ]
    );
    let hits = engine.run_planned_query(&planned, 2).unwrap();
    // A hit keeps its other fields.
    assert_eq!(hits, vec![rec(&[("id", "2"), ("tag", "y"), ("payload", "ab")]), rec(&[("id", "3"), ("tag", "y")])]);
    assert_eq!(record_get(&hits[0], "payload").unwrap(), "ab");
}

#[test]
fn engine_round_trip_across_shards() {
    // Capacity 8: every record closes its own shard.
    let mut engine = HadamardEngine::new(8, 29);
    let ds: Vec<Record> = (0..5).map(|i| rec(&[("n", &i.to_string()), ("even", if i % 2 == 0 { "yes" } else { "no" })])).collect();
    assert_eq!(engine.load_dataset("nums", ds.clone()).unwrap(), 5);
    let planned = engine.plan_query("SELECT * FROM nums WHERE even = 'yes'").unwrap();
    assert_eq!(planned.dataset, ds);
    let hits = engine.run_planned_query(&planned, 1).unwrap();
    assert_eq!(hits, vec![ds[0].clone(), ds[2].clone(), ds[4].clone()]);
}

#[test]
fn engine_errors_by_tier() {
    let mut engine = HadamardEngine::new(64, 8);
    assert!(matches!(engine.plan_query("SELECT nothing"), Err(EngineError::CompilerFailure(_))));
    match engine.plan_query("SELECT * FROM missing WHERE a = b") {
        Err(EngineError::StorageFailure(StorageError::PartitionNotFound(n))) => assert_eq!(n, "missing"),
        _ => panic!("expected a missing partition"),
    }
    engine.load_dataset("w", vec![rec(&[("a", "b")])]).unwrap();
    let planned = engine.plan_query("SELECT * FROM w WHERE a = b").unwrap();
    // Nine qubits exceed this engine's eight.
    assert!(matches!(
        engine.run_planned_query(&planned, 1),
        Err(EngineError::ExecutionFailure(QuantumEngineError::QubitOverflow { required: 9, allocated: 8 }))
    ));
}

// ---------------------------------------------------------------- storage

#[test]
fn sharding_layout_and_mapping() {
    let ds = vec![rec(&[("ab", "c")]), rec(&[("ab", "d"), ("x", "y")]), rec(&[("z", "w")])];
    // Record bytes: "ab\x1Fc\x1E" = 5, then "ab\x1Fd\x1Fx\x1Fy\x1E" = 10, then 4.
    let layout = plan_shards(&ds, 12);
    assert_eq!(layout.len(), 2);
    assert_eq!(layout[0].0, vec!["ab".to_string(), "x".to_string()]);
    assert_eq!(layout[0].1, b"ab\x1Fc\x1Eab\x1Fd\x1Fx\x1Fy\x1E".to_vec());
    assert_eq!(layout[1].0, vec!["z".to_string()]);
    assert_eq!(layout[1].1, b"z\x1Fw\x1E".to_vec());
    // Capacity zero closes a shard after every record.
    assert_eq!(plan_shards(&ds, 0).len(), 3);
    // A record without pairs writes nothing.
    let with_empty = vec![rec(&[("a", "b")]), rec(&[])];
    let layout = plan_shards(&with_empty, 100);
    assert_eq!(layout.len(), 1);
    assert_eq!(layout[0].1, b"a\x1Fb\x1E".to_vec());
    assert_eq!(plan_shards(&Vec::new(), 10).len(), 0);
}

#[test]
fn ingestion_appends_to_collections() {
    let mut storage = HybridQramStorage::new(4);
    assert_eq!(storage.ingest_and_shard("c", vec![rec(&[("k", "v")]), rec(&[("a", "bb")])]).unwrap(), 2);
    assert_eq!(storage.ingest_and_shard("c", vec![rec(&[("q", "r")])]).unwrap(), 1);
    assert_eq!(storage.ingest_and_shard("d", vec![]).unwrap(), 0);
    let shards = storage.fetch_shard_buffers("c").unwrap();
    assert_eq!(shards.len(), 3);
    assert_eq!(shards[0].dense_buffer, b"k\x1Fv\x1E".to_vec());
    assert_eq!(shards[0].address_qubit_mapping, vec![("k".to_string(), 0)]);
    assert_eq!(shards[2].dense_buffer, b"q\x1Fr\x1E".to_vec());
    // Ids come from the counter: 0 and 1 for the first call (which then
    // draws 2 for a shard it never opens), 3 for the second.
    assert_eq!(shards.iter().map(|s| s.shard_id).collect::<Vec<_>>(), vec![0, 1, 3]);
    assert_eq!(storage.fetch_shard_buffers("d").unwrap().len(), 0);
    match storage.fetch_shard_buffers("e") {
        Err(StorageError::PartitionNotFound(n)) => assert_eq!(n, "e"),
        _ => panic!("expected a missing partition"),
    }
}

// ---------------------------------------------------------------- cache

#[test]
fn cache_put_get_replace_and_capacity() {
    let mut cache = ZeroCopyCache::new(10);
    assert!(cache.put("a".to_string(), vec![1, 2, 3], 60).is_ok());
    assert_eq!(cache.current_size_bytes, 3);
    assert_eq!(cache.get("a").unwrap(), vec![1, 2, 3]);
    assert!(matches!(cache.get("b"), Err(CacheError::EntryExpired)));
    assert!(cache.put("a".to_string(), vec![9; 7], 60).is_ok());
    assert_eq!(cache.current_size_bytes, 7);
    // 7 + 4 > 10: refused, nothing expired to evict.
    assert!(matches!(cache.put("b".to_string(), vec![0; 4], 60), Err(CacheError::AllocationFailure)));
    assert!(cache.put("b".to_string(), vec![0; 3], 60).is_ok());
    assert_eq!(cache.current_size_bytes, 10);
    assert!(matches!(cache.put("c".to_string(), vec![0; 11], 60), Err(CacheError::AllocationFailure)));
    cache.remove_entry("a");
    assert_eq!(cache.current_size_bytes, 3);
    assert!(matches!(cache.get("a"), Err(CacheError::EntryExpired)));
}

#[test]
fn cache_expiry() {
    let mut cache = ZeroCopyCache::new(8);
    assert!(cache.put("old".to_string(), vec![1; 6], 0).is_ok());
    let start = std::time::Instant::now();
    while start.elapsed() < std::time::Duration::from_millis(5) {}
    // The full cache evicts the expired entry to make room.
    assert!(cache.put("new".to_string(), vec![2; 5], 100).is_ok());
    assert_eq!(cache.current_size_bytes, 5);
    assert!(matches!(cache.get("old"), Err(CacheError::EntryExpired)));
    assert_eq!(cache.get("new").unwrap(), vec![2; 5]);
    let value = CacheValue { payload: vec![], created_at: std::time::Instant::now(), ttl_secs: 1 };
    assert!(!value.expired_after(1_000_000_000));
    assert!(value.expired_after(1_000_000_001));
    assert!(!value.is_expired());
}

#[test]
fn cache_lookup_at_given_ages() {
    let mut cache = ZeroCopyCache::new(10);
    assert!(cache.put("a".to_string(), vec![1, 2, 3], 1).is_ok());
    // A one-second time to live: 10^9 ns is still live, one more is expired.
    assert_eq!(cache.get_at("a", 1_000_000_000).unwrap(), vec![1, 2, 3]);
    assert_eq!(cache.current_size_bytes, 3);
    assert!(matches!(cache.get_at("a", 1_000_000_001), Err(CacheError::EntryExpired)));
    assert_eq!(cache.current_size_bytes, 0);
    assert!(cache.registry.is_empty());
    assert!(matches!(cache.get_at("missing", 0), Err(CacheError::EntryExpired)));
}

fn keys(cache: &ZeroCopyCache) -> Vec<String> {
    cache.registry.iter().map(|(k, _)| k.clone()).collect()
}

#[test]
fn cache_eviction_at_given_ages() {
    let mut cache = ZeroCopyCache::new(100);
    assert!(cache.put("a".to_string(), vec![0; 2], 1).is_ok());
    assert!(cache.put("b".to_string(), vec![0; 3], 5).is_ok());
    assert!(cache.put("c".to_string(), vec![0; 4], 1).is_ok());
    cache.evict_expired_at(&vec![2_000_000_000, 2_000_000_000, 500]);
    assert_eq!(keys(&cache), vec!["b".to_string(), "c".to_string()]);
    assert_eq!(cache.current_size_bytes, 7);
    // The same readings again remove nothing.
    cache.evict_expired_at(&vec![2_000_000_000, 500]);
    assert_eq!(keys(&cache), vec!["b".to_string(), "c".to_string()]);
    assert_eq!(cache.current_size_bytes, 7);
    cache.evict_expired_at(&vec![5_000_000_001, 1_000_000_001]);
    assert!(cache.registry.is_empty());
    assert_eq!(cache.current_size_bytes, 0);
}

#[test]
fn cache_store_at_capacity() {
    let mut cache = ZeroCopyCache::new(10);
    let t = std::time::Instant::now();
    assert!(cache.store_at("a".to_string(), vec![1; 6], 60, t).is_ok());
    assert!(matches!(cache.store_at("b".to_string(), vec![2; 5], 60, t), Err(CacheError::AllocationFailure)));
    assert_eq!(cache.current_size_bytes, 6);
    assert_eq!(keys(&cache), vec!["a".to_string()]);
    assert!(cache.store_at("b".to_string(), vec![2; 4], 60, t).is_ok());
    assert_eq!(cache.current_size_bytes, 10);
    assert_eq!(cache.registry[1].1.created_at, t);
    assert_eq!(cache.registry[1].1.ttl_secs, 60);
    // The room check counts the bytes held now, even those a replacement frees.
    assert!(matches!(cache.store_at("a".to_string(), vec![3; 2], 5, t), Err(CacheError::AllocationFailure)));
    cache.remove_entry("b");
    assert_eq!(cache.current_size_bytes, 6);
    // Replacing a key frees the old payload's bytes.
    assert!(cache.store_at("a".to_string(), vec![3; 2], 5, t).is_ok());
    assert_eq!(cache.current_size_bytes, 2);
    assert_eq!(cache.get_at("a", 0).unwrap(), vec![3; 2]);
}

#[test]
fn cache_put_fails_only_without_room() {
    let mut cache = ZeroCopyCache::new(10);
    assert!(cache.put("a".to_string(), vec![1u8; 6], 60).is_ok());
    assert!(matches!(cache.put("b".to_string(), vec![2u8; 5], 60), Err(CacheError::AllocationFailure)));
    assert_eq!(cache.current_size_bytes, 6);
    assert_eq!(cache.get("a").unwrap(), vec![1u8; 6]);
    assert!(matches!(cache.get("b"), Err(CacheError::EntryExpired)));
    assert!(cache.put("b".to_string(), vec![2u8; 4], 60).is_ok());
    assert_eq!(cache.current_size_bytes, 10);
}

#[test]
fn optimiser_keeps_parities_and_multi_qubit_gates() {
    let g = QuantumCodeGenerator::new(1);
    let mut gates = Vec::new();
    let mut seed: u32 = 7;
    for _ in 0..200 {
        seed = seed.wrapping_mul(1103515245).wrapping_add(12345);
        let q = ((seed >> 8) % 3) as usize;
        gates.push(match (seed >> 16) % 4 {
            0 => QuantumGate::H(q),
            1 => QuantumGate::X(q),
            2 => QuantumGate::CX(q, (q + 1) % 3),
            _ => QuantumGate::H(q),
        });
    }
    let out = g.optimize_circuit(&plan(3, gates.clone())).execution_gates;
    let count = |v: &[QuantumGate], name: &str| gate_names(v).iter().filter(|n| n.as_str() == name).count();
    for name in ["H0", "H1", "H2", "X0", "X1", "X2"] {
        assert!(count(&out, name) <= count(&gates, name));
        assert_eq!((count(&gates, name) - count(&out, name)) % 2, 0);
    }
    assert_eq!((gates.len() - out.len()) % 2, 0);
    let multi = |v: &[QuantumGate]| gate_names(v).into_iter().filter(|n| n.starts_with("CX")).collect::<Vec<_>>();
    assert_eq!(multi(&out), multi(&gates));
}

#[test]
fn shards_keep_every_byte_in_order() {
    let ds: Vec<Record> = (0..40).map(|i| rec(&[("id", &format!("{}", i)), ("v", "payload")])).collect();
    let all: Vec<u8> = plan_shards(&ds, 1 << 20).into_iter().flat_map(|s| s.1).collect();
    let layout = plan_shards(&ds, 64);
    assert!(layout.len() > 1);
    for shard in &layout[..layout.len() - 1] {
        assert!(shard.1.len() >= 64);
    }
    let joined: Vec<u8> = layout.into_iter().flat_map(|s| s.1).collect();
    assert_eq!(joined, all);
}
