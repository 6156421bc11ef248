use hadamard_core::compiler::parser::QuantumCompiler;
use hadamard_core::engine::{EngineError, HadamardEngine};
use hadamard_core::records::Record;

fn optimal_iterations(total_elements: usize) -> usize {
    if total_elements <= 1 {
        return 1;
    }
    let n = total_elements as f64;
    ((std::f64::consts::PI / 4.0) * n.sqrt()).floor() as usize
}

fn query(engine: &HadamardEngine, sql: &str) -> Result<Vec<Record>, EngineError> {
    let planned = engine.plan_query(sql)?;
    let iterations = optimal_iterations(planned.dataset.len());
    engine.run_planned_query(&planned, iterations)
}

#[test]
fn test_monolithic_engine_ingestion_and_sharding_boundaries() {
    // Micro-shards of 100 bytes force the data into several shards.
    let mut engine = HadamardEngine::new(100, 29);

    let mut dataset: Vec<Record> = Vec::new();
    for i in 0..10 {
        let row = vec![
            ("record_id".to_string(), format!("ID_{:04}", i)),
            ("payload_key".to_string(), "LARGE_DENSE_STREAMING_TEST_VALUE_METRIC_DATA".to_string()),
        ];
        dataset.push(row);
    }

    let result = engine.load_dataset("boundary_test_workspace", dataset);

    assert!(result.is_ok(), "Storage tier failed during strict boundary sharding execution.");
    let total_shards = result.unwrap();
    assert!(total_shards > 1, "Engine failed to split data into multiple independent memory shards.");
}

#[test]
fn test_compiler_parser_sql_grammar_integrity() {
    let valid_query = "SELECT * FROM users WHERE status = 'ACTIVE'";
    let parse_result = QuantumCompiler::parse_query(valid_query);

    assert!(parse_result.is_ok(), "Compiler failed to parse valid compliant SQL token sequences.");
    let structured_query = parse_result.unwrap();
    assert_eq!(structured_query.target_collection, "users");
    assert_eq!(structured_query.field, "status");
    assert_eq!(structured_query.value, "ACTIVE");

    // Adversarial invalid syntax.
    let invalid_query = "SELECT STUFF FROM users";
    let invalid_parse_result = QuantumCompiler::parse_query(invalid_query);
    assert!(invalid_parse_result.is_err(), "Parser failed to catch illegal structural grammar breaches.");
}

#[test]
fn test_asynchronous_parallel_query_contention() {
    let mut engine = HadamardEngine::new(1024, 29);

    let mut data: Vec<Record> = Vec::new();
    let row = vec![
        ("node_id".to_string(), "NODE_CORE_77".to_string()),
        ("telemetry".to_string(), "CRITICAL".to_string()),
    ];
    data.push(row);
    engine.load_dataset("concurrent_workspace", data).unwrap();

    // Twenty queries against the same storage, one after the other.
    for _ in 0..20 {
        let statement = "SELECT * FROM concurrent_workspace WHERE telemetry = 'CRITICAL'";
        let query_result = query(&engine, statement);
        assert!(query_result.is_ok(), "HadamardEngine internal locks faulted under active parallel contention loops.");
    }
}
