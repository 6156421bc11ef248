//! The search kernel: indices of the records whose field holds a value.
use vstd::prelude::*;
use crate::compiler::QuantumCircuitPlan;
use crate::records::{Record, dataset_view, lookup, record_get, record_view};
use crate::text::text_is;

verus! {

/// Errors of the search kernel.
#[derive(Debug)]
pub enum QuantumEngineError {
    ExecutionFailed(String),
    QubitOverflow { required: usize, allocated: usize },
}

/// The search kernel, limited to a register size.
pub struct GroverSearchEngine {
    pub max_qubits_supported: usize,
}

/// The indices, in increasing order, of the records whose `field` holds `value`.
pub open spec fn matching_indices(
    ds: Seq<Seq<(Seq<char>, Seq<char>)>>,
    field: Seq<char>,
    value: Seq<char>,
) -> Seq<usize>
    decreases ds.len(),
{
    if ds.len() == 0 {
        seq![]
    } else if lookup(ds.last(), field) == Some(value) {
        matching_indices(ds.drop_last(), field, value).push((ds.len() - 1) as usize)
    } else {
        matching_indices(ds.drop_last(), field, value)
    }
}

/// The search finds exactly the matching records, in increasing order:
/// each index it returns names a record whose `field` holds `value`, and
/// every such record's index is returned.
pub proof fn lemma_matching_indices_exact(
    ds: Seq<Seq<(Seq<char>, Seq<char>)>>,
    field: Seq<char>,
    value: Seq<char>,
)
    requires
        ds.len() <= usize::MAX,
    ensures
        forall|k: int| 0 <= k < matching_indices(ds, field, value).len() ==> {
            let i = #[trigger] matching_indices(ds, field, value)[k];
            i < ds.len() && lookup(ds[i as int], field) == Some(value)
        },
        forall|i: int| 0 <= i < ds.len() && #[trigger] lookup(ds[i], field) == Some(value) ==> matching_indices(ds, field, value).contains(i as usize),
        forall|a: int, b: int| 0 <= a < b < matching_indices(ds, field, value).len() ==> #[trigger] matching_indices(ds, field, value)[a] < #[trigger] matching_indices(ds, field, value)[b],
    decreases ds.len(),
{
    if ds.len() > 0 {
        let d = ds.drop_last();
        lemma_matching_indices_exact(d, field, value);
        let prev = matching_indices(d, field, value);
        let m = matching_indices(ds, field, value);
        assert forall|k: int| 0 <= k < prev.len() implies #[trigger] prev[k] < d.len() && ds[prev[k] as int] == d[prev[k] as int] by {
        }
        assert forall|k: int| 0 <= k < m.len() implies {
            let i = #[trigger] m[k];
            i < ds.len() && lookup(ds[i as int], field) == Some(value)
        } by {
            if k < prev.len() {
                assert(m[k] == prev[k]);
            }
        }
        assert forall|a: int, b: int| 0 <= a < b < m.len() implies #[trigger] m[a] < #[trigger] m[b] by {
            if b < prev.len() {
                assert(m[a] == prev[a] && m[b] == prev[b]);
            } else {
                assert(m[a] == prev[a]);
            }
        }
        assert forall|i: int| 0 <= i < ds.len() && #[trigger] lookup(ds[i], field) == Some(value) implies m.contains(i as usize) by {
            if i < d.len() {
                assert(d[i] == ds[i]);
                assert(prev.contains(i as usize));
                let k = choose|k: int| 0 <= k < prev.len() && prev[k] == i as usize;
                assert(m[k] == i as usize);
            } else {
                assert(m[m.len() - 1] == i as usize);
            }
        }
    }
}

impl GroverSearchEngine {
    pub fn new(max_qubits_supported: usize) -> (e: Self)
        ensures
            e.max_qubits_supported == max_qubits_supported,
    {
        Self { max_qubits_supported }
    }

    /// Runs the search of a plan over a data set: the indices of the records
    /// whose `target_field` holds `target_value`.  `iterations` is the
    /// amplification count planned for the data set (see
    /// `calculate_optimal_iterations`), which is at least one; a plan wider
    /// than the register is refused.
    pub fn execute_search(
        &self,
        plan: &QuantumCircuitPlan,
        dataset: &[Record],
        target_field: &str,
        target_value: &str,
        iterations: usize,
    ) -> (r: Result<Vec<usize>, QuantumEngineError>)
        requires
            iterations >= 1,
        ensures
            plan.required_qubits > self.max_qubits_supported ==> (r matches Err(
                QuantumEngineError::QubitOverflow { required, allocated },
            ) && required == plan.required_qubits && allocated == self.max_qubits_supported),
            plan.required_qubits <= self.max_qubits_supported ==> (r matches Ok(v)
                && v@ == matching_indices(dataset_view(dataset@), target_field@, target_value@)),
    {
        if plan.required_qubits > self.max_qubits_supported {
            return Err(QuantumEngineError::QubitOverflow {
                required: plan.required_qubits,
                allocated: self.max_qubits_supported,
            });
        }
        let ghost dv = dataset_view(dataset@);
        let mut matched_indices: Vec<usize> = Vec::new();
        let mut index: usize = 0;
        while index < dataset.len()
            invariant
                index <= dataset@.len(),
                dv == dataset_view(dataset@),
                matched_indices@ == matching_indices(dv.take(index as int), target_field@, target_value@),
            decreases dataset@.len() - index,
        {
            let ghost prefix = dv.take(index + 1);
            assert(prefix.drop_last() == dv.take(index as int));
            assert(prefix.last() == record_view(dataset@[index as int]@));
            match record_get(&dataset[index], target_field) {
                Some(val) => {
                    if text_is(val.as_str(), target_value) {
                        matched_indices.push(index);
                    }
                },
                None => {},
            }
            index += 1;
        }
        assert(dv.take(dataset@.len() as int) == dv);
        Ok(matched_indices)
    }
}

} // verus!
