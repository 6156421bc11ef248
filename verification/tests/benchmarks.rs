use hadamard_core::engine::{EngineError, HadamardEngine};
use hadamard_core::records::{Record, record_get};
use std::time::Instant;

fn optimal_iterations(total_elements: usize) -> usize {
    if total_elements <= 1 {
        return 1;
    }
    let n = total_elements as f64;
    ((std::f64::consts::PI / 4.0) * n.sqrt()).floor() as usize
}

fn query(engine: &HadamardEngine, sql: &str) -> Result<Vec<Record>, EngineError> {
    let planned = engine.plan_query(sql)?;
    let iterations = optimal_iterations(planned.dataset.len());
    engine.run_planned_query(&planned, iterations)
}

/// Approximate payload size of a data set.
fn estimate_memory_usage(dataset: &[Record]) -> usize {
    let mut total_bytes = 0;
    for record in dataset {
        for (k, v) in record {
            total_bytes += k.len() + v.len();
        }
    }
    total_bytes
}

/// Unindexed linear scan.
fn execute_classical_legacy_search(dataset: &[Record], target_field: &str, target_value: &str) -> Vec<Record> {
    let mut results = Vec::new();
    for record in dataset {
        if let Some(val) = record_get(record, target_field) {
            if val == target_value {
                results.push(record.clone());
            }
        }
    }
    results
}

fn set(record: &mut Record, key: &str, value: String) {
    for pair in record.iter_mut() {
        if pair.0 == key {
            pair.1 = value;
            return;
        }
    }
    record.push((key.to_string(), value));
}

#[test]
fn run_monolithic_quantum_vs_classical_benchmark() {
    let scale_factor = 1_000_000;
    let target_anomaly_id = "TXN_ANOMALY_99999";

    println!("[1/4] Fabricating mock dataset ({} records)...", scale_factor);
    let mut mock_database: Vec<Record> = Vec::with_capacity(scale_factor);
    for i in 0..scale_factor {
        let mut record: Record = Vec::new();
        set(&mut record, "transaction_id", format!("TXN_{}", i));
        set(&mut record, "merchant_group", "RETAIL_CORP".to_string());
        if i == 777_777 {
            set(&mut record, "transaction_id", target_anomaly_id.to_string());
            set(&mut record, "fraud_telemetry", "CRITICAL_RISK".to_string());
        } else {
            set(&mut record, "fraud_telemetry", "NORMAL_CLEAR".to_string());
        }
        mock_database.push(record);
    }

    let classical_mem = estimate_memory_usage(&mock_database);
    println!("[+] Classical Memory Allocation: {:.2} MB", (classical_mem as f64) / 1_024_000.0);

    let classical_start = Instant::now();
    let classical_hits = execute_classical_legacy_search(&mock_database, "transaction_id", target_anomaly_id);
    println!("[2/4] Classical scan: {:?}, {} matches", classical_start.elapsed(), classical_hits.len());

    let mut engine = HadamardEngine::new(1_048_576, 29);
    let ingest_start = Instant::now();
    engine.load_dataset("ledger_workspace", mock_database).unwrap();
    println!("[3/4] Ingestion and sharding: {:?}", ingest_start.elapsed());

    let quantum_start = Instant::now();
    let query_statement = format!("SELECT * FROM ledger_workspace WHERE transaction_id = '{}'", target_anomaly_id);
    let quantum_hits = query(&engine, &query_statement).unwrap();
    println!("[4/4] Compiled query: {:?}, {} matches", quantum_start.elapsed(), quantum_hits.len());

    assert_eq!(classical_hits.len(), quantum_hits.len(), "Data integrity violation between calculation tiers.");
}
