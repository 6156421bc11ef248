//! Record sharding: a record is serialised as its `field 0x1F value` pairs
//! joined by `0x1F` and closed by `0x1E`; records are gathered into shards
//! that close once they reach the capacity.
use vstd::prelude::*;
use vstd::utf8::encode_utf8;
use vstd::string::StringSliceAdditionalSpecFns;
use atomic_counter::{AtomicCounter, ConsistentCounter};
use crate::records::{Record, dataset_view, record_view};
use crate::compiler::parser::strings_view;
use crate::text::text_is;

verus! {

/// `atomic_counter::ConsistentCounter`, a sequentially consistent atomic counter.
#[verifier::external_type_specification]
#[verifier::external_body]
pub struct ExConsistentCounter(ConsistentCounter);

/// The value that a `ConsistentCounter` holds.
pub uninterp spec fn counter_value(counter: ConsistentCounter) -> usize;

/// `ConsistentCounter::new`: a counter holding `initial`.
#[verifier::external_body]
fn counter_new(initial: usize) -> (c: ConsistentCounter)
    ensures
        counter_value(c) == initial,
{
    ConsistentCounter::new(initial)
}

/// The counter's value after one increment: one more, wrapping to zero
/// past `usize::MAX`.
pub open spec fn next_count(c: usize) -> usize {
    if c == usize::MAX {
        0
    } else {
        (c + 1) as usize
    }
}

/// `AtomicCounter::inc` on a `ConsistentCounter` (a sequentially consistent
/// `fetch_add(1)`, which wraps past `usize::MAX`): returns the value held
/// before the call and advances the counter by one.  The counter is
/// borrowed mutably here, so no other increment can come between.
#[verifier::external_body]
fn counter_inc(counter: &mut ConsistentCounter) -> (r: usize)
    ensures
        r == counter_value(*old(counter)),
        counter_value(*final(counter)) == next_count(counter_value(*old(counter))),
{
    counter.inc()
}

/// The counter's value `steps` increments after `start`.
pub open spec fn counted(start: usize, steps: nat) -> usize {
    ((start + steps) % (usize::MAX as int + 1)) as usize
}

proof fn lemma_counted_step(start: usize, steps: nat)
    ensures
        next_count(counted(start, steps)) == counted(start, steps + 1),
        counted(start, 0) == start,
{
    let m = usize::MAX as int + 1;
    let x = start + steps;
    vstd::arithmetic::div_mod::lemma_add_mod_noop(x, 1, m);
    vstd::arithmetic::div_mod::lemma_small_mod(1, m as nat);
    vstd::arithmetic::div_mod::lemma_small_mod(start as nat, m as nat);
    let r = x % m;
    assert(0 <= r < m) by {
        vstd::arithmetic::div_mod::lemma_mod_bound(x, m);
    }
    if r == m - 1 {
        vstd::arithmetic::div_mod::lemma_mod_self_0(m);
    } else {
        vstd::arithmetic::div_mod::lemma_small_mod((r + 1) as nat, m as nat);
    }
}

/// Errors of the storage tier.
#[derive(Debug)]
pub enum StorageError {
    MemoryExhaustion,
    PartitionNotFound(String),
    Corruption(String),
}

/// A shard: its id, the qubit address of each field name, and its bytes.
#[derive(Debug, Clone)]
pub struct QuantumShard {
    pub shard_id: u64,
    pub address_qubit_mapping: Vec<(String, usize)>,
    pub dense_buffer: Vec<u8>,
}

/// The abstract content of a shard.
pub struct ShardView {
    pub shard_id: u64,
    pub mapping: Seq<(Seq<char>, usize)>,
    pub buffer: Seq<u8>,
}

impl View for QuantumShard {
    type V = ShardView;

    open spec fn view(&self) -> ShardView {
        ShardView {
            shard_id: self.shard_id,
            mapping: self.address_qubit_mapping@.map_values(|p: (String, usize)| (p.0@, p.1)),
            buffer: self.dense_buffer@,
        }
    }
}

/// Each shard viewed.
pub open spec fn shards_view(s: Seq<QuantumShard>) -> Seq<ShardView> {
    s.map_values(|sh: QuantumShard| sh@)
}

/// The bytes of one (field, value) pair: field, unit separator, value.
pub open spec fn pair_bytes(f: (Seq<char>, Seq<char>)) -> Seq<u8> {
    encode_utf8(f.0) + seq![0x1Fu8] + encode_utf8(f.1)
}

/// The bytes of the pairs of a record, joined by unit separators.
pub open spec fn joined_pair_bytes(r: Seq<(Seq<char>, Seq<char>)>) -> Seq<u8>
    decreases r.len(),
{
    if r.len() == 0 {
        seq![]
    } else if r.len() == 1 {
        pair_bytes(r[0])
    } else {
        joined_pair_bytes(r.drop_last()) + seq![0x1Fu8] + pair_bytes(r.last())
    }
}

/// The bytes of a record: its pairs joined by unit separators, closed by a
/// record separator (a record without pairs writes nothing).
pub open spec fn record_bytes(r: Seq<(Seq<char>, Seq<char>)>) -> Seq<u8> {
    if r.len() == 0 {
        seq![]
    } else {
        joined_pair_bytes(r) + seq![0x1Eu8]
    }
}

/// `keys` followed by the record's field names not seen before, in order of first appearance.
pub open spec fn with_new_keys(keys: Seq<Seq<char>>, r: Seq<(Seq<char>, Seq<char>)>) -> Seq<Seq<char>>
    decreases r.len(),
{
    if r.len() == 0 {
        keys
    } else {
        let ks = with_new_keys(keys, r.drop_last());
        if ks.contains(r.last().0) {
            ks
        } else {
            ks.push(r.last().0)
        }
    }
}

/// The state of sharding: the closed shards (field names, bytes), and the
/// field names and bytes of the shard being filled.
pub struct ShardingState {
    pub closed: Seq<(Seq<Seq<char>>, Seq<u8>)>,
    pub keys: Seq<Seq<char>>,
    pub buffer: Seq<u8>,
}

/// Adds one record to the open shard; the shard closes once its bytes reach the capacity.
pub open spec fn sharding_step(st: ShardingState, r: Seq<(Seq<char>, Seq<char>)>, capacity: usize) -> ShardingState {
    let keys = with_new_keys(st.keys, r);
    let buffer = st.buffer + record_bytes(r);
    if buffer.len() >= capacity {
        ShardingState { closed: st.closed.push((keys, buffer)), keys: seq![], buffer: seq![] }
    } else {
        ShardingState { closed: st.closed, keys, buffer }
    }
}

/// The sharding state after the records, in order.
pub open spec fn sharding_run(ds: Seq<Seq<(Seq<char>, Seq<char>)>>, capacity: usize) -> ShardingState
    decreases ds.len(),
{
    if ds.len() == 0 {
        ShardingState { closed: seq![], keys: seq![], buffer: seq![] }
    } else {
        sharding_step(sharding_run(ds.drop_last(), capacity), ds.last(), capacity)
    }
}

/// The shards (field names, bytes) that a data set is cut into: the closed
/// shards, then the open one if it holds any byte.
pub open spec fn shard_layout(ds: Seq<Seq<(Seq<char>, Seq<char>)>>, capacity: usize) -> Seq<(Seq<Seq<char>>, Seq<u8>)> {
    let st = sharding_run(ds, capacity);
    if st.buffer.len() > 0 {
        st.closed.push((st.keys, st.buffer))
    } else {
        st.closed
    }
}

/// The qubit address of each field name: its position.
pub open spec fn qubit_mapping(keys: Seq<Seq<char>>) -> Seq<(Seq<char>, usize)> {
    Seq::new(keys.len(), |i: int| (keys[i], i as usize))
}

/// The bytes of all the records, record after record.
pub open spec fn all_record_bytes(ds: Seq<Seq<(Seq<char>, Seq<char>)>>) -> Seq<u8>
    decreases ds.len(),
{
    if ds.len() == 0 {
        seq![]
    } else {
        all_record_bytes(ds.drop_last()) + record_bytes(ds.last())
    }
}

/// The bytes of all the shards of a layout, shard after shard.
pub open spec fn layout_bytes(layout: Seq<(Seq<Seq<char>>, Seq<u8>)>) -> Seq<u8>
    decreases layout.len(),
{
    if layout.len() == 0 {
        seq![]
    } else {
        layout_bytes(layout.drop_last()) + layout.last().1
    }
}

proof fn lemma_sharding_run_bytes(ds: Seq<Seq<(Seq<char>, Seq<char>)>>, capacity: usize)
    ensures
        layout_bytes(sharding_run(ds, capacity).closed) + sharding_run(ds, capacity).buffer == all_record_bytes(ds),
        forall|i: int| 0 <= i < sharding_run(ds, capacity).closed.len() ==> #[trigger] sharding_run(ds, capacity).closed[i].1.len() >= capacity,
        sharding_run(ds, capacity).buffer.len() < capacity || (sharding_run(ds, capacity).buffer.len() == 0 && capacity == 0),
    decreases ds.len(),
{
    if ds.len() > 0 {
        let prev = sharding_run(ds.drop_last(), capacity);
        lemma_sharding_run_bytes(ds.drop_last(), capacity);
        let st = sharding_run(ds, capacity);
        let buffer = prev.buffer + record_bytes(ds.last());
        if buffer.len() >= capacity {
            assert(st.closed.drop_last() == prev.closed);
            assert(layout_bytes(st.closed) == layout_bytes(prev.closed) + buffer);
            assert(layout_bytes(st.closed) + st.buffer =~= all_record_bytes(ds));
        } else {
            assert(layout_bytes(st.closed) + st.buffer =~= all_record_bytes(ds));
        }
    }
}

/// Sharding neither drops nor reorders a byte: the shards' bytes, shard
/// after shard, are the records' serialised bytes, record after record.
/// Every shard but the last holds at least `capacity` bytes, the last one
/// holds fewer than `capacity` bytes unless it closed full, and no shard is
/// empty unless the capacity is zero.
pub proof fn lemma_shard_layout_bytes(ds: Seq<Seq<(Seq<char>, Seq<char>)>>, capacity: usize)
    ensures
        layout_bytes(shard_layout(ds, capacity)) == all_record_bytes(ds),
        forall|i: int| 0 <= i < shard_layout(ds, capacity).len() - 1 ==> #[trigger] shard_layout(ds, capacity)[i].1.len() >= capacity,
        forall|i: int| 0 <= i < shard_layout(ds, capacity).len() ==> #[trigger] shard_layout(ds, capacity)[i].1.len() > 0 || capacity == 0,
{
    lemma_sharding_run_bytes(ds, capacity);
    let st = sharding_run(ds, capacity);
    let layout = shard_layout(ds, capacity);
    if st.buffer.len() > 0 {
        assert(layout.drop_last() == st.closed);
        assert(layout_bytes(layout) == layout_bytes(st.closed) + st.buffer);
        assert forall|i: int| 0 <= i < layout.len() - 1 implies #[trigger] layout[i].1.len() >= capacity by {
            assert(layout[i] == st.closed[i]);
        }
        assert forall|i: int| 0 <= i < layout.len() implies #[trigger] layout[i].1.len() > 0 || capacity == 0 by {
            if i < layout.len() - 1 {
                assert(layout[i] == st.closed[i]);
            }
        }
    } else {
        assert(layout_bytes(layout) =~= all_record_bytes(ds));
    }
}

/// Whether shards have the given layout, whatever their ids.
pub open spec fn has_layout(shards: Seq<ShardView>, layout: Seq<(Seq<Seq<char>>, Seq<u8>)>) -> bool {
    &&& shards.len() == layout.len()
    &&& forall|i: int| 0 <= i < shards.len() ==> #[trigger] shards[i].mapping == qubit_mapping(layout[i].0)
        && shards[i].buffer == layout[i].1
}

/// The shards of a layout numbered from `first`: shard `i` gets id
/// `counted(first, i)`, the qubit mapping of its field names and its bytes.
pub open spec fn numbered_shards(layout: Seq<(Seq<Seq<char>>, Seq<u8>)>, first: usize) -> Seq<ShardView> {
    Seq::new(
        layout.len(),
        |i: int| ShardView { shard_id: counted(first, i as nat) as u64, mapping: qubit_mapping(layout[i].0), buffer: layout[i].1 },
    )
}

/// Which shards of a layout are full: exactly the closed ones, which come first.
proof fn lemma_full_shards(ds: Seq<Seq<(Seq<char>, Seq<char>)>>, capacity: usize)
    ensures
        sharding_run(ds, capacity).closed.len() <= shard_layout(ds, capacity).len() <= sharding_run(ds, capacity).closed.len() + 1,
        forall|i: int| 0 <= i < shard_layout(ds, capacity).len() ==> (#[trigger] shard_layout(ds, capacity)[i].1.len() >= capacity
            <==> i < sharding_run(ds, capacity).closed.len()),
{
    lemma_sharding_run_bytes(ds, capacity);
    let st = sharding_run(ds, capacity);
    let layout = shard_layout(ds, capacity);
    assert forall|i: int| 0 <= i < layout.len() implies (#[trigger] layout[i].1.len() >= capacity <==> i < st.closed.len()) by {
        if i < st.closed.len() {
            assert(layout[i] == st.closed[i]);
        }
    }
}

/// A planned shard: its field names in order of first appearance, and its bytes.
pub type PlannedShard = (Vec<String>, Vec<u8>);

/// Each planned shard viewed.
pub open spec fn planned_view(p: Seq<PlannedShard>) -> Seq<(Seq<Seq<char>>, Seq<u8>)> {
    p.map_values(|s: PlannedShard| (strings_view(s.0@), s.1@))
}

fn append_bytes(buf: &mut Vec<u8>, bytes: &[u8])
    ensures
        final(buf)@ == old(buf)@ + bytes@,
{
    let ghost start = buf@;
    let mut i: usize = 0;
    while i < bytes.len()
        invariant
            i <= bytes@.len(),
            buf@ == start + bytes@.take(i as int),
        decreases bytes@.len() - i,
    {
        buf.push(bytes[i]);
        assert(buf@ =~= start + bytes@.take(i + 1));
        i += 1;
    }
    assert(bytes@.take(bytes@.len() as int) =~= bytes@);
}

fn contains_key(keys: &Vec<String>, key: &String) -> (r: bool)
    ensures
        r == strings_view(keys@).contains(key@),
{
    let ghost kv = strings_view(keys@);
    let mut i: usize = 0;
    while i < keys.len()
        invariant
            i <= keys@.len(),
            kv == strings_view(keys@),
            forall|j: int| 0 <= j < i ==> #[trigger] kv[j] != key@,
        decreases keys@.len() - i,
    {
        if keys[i] == *key {
            assert(kv[i as int] == key@);
            return true;
        }
        i += 1;
    }
    false
}

fn push_string(v: &mut Vec<String>, s: String)
    ensures
        strings_view(final(v)@) == strings_view(old(v)@).push(s@),
{
    v.push(s);
    assert(strings_view(v@) =~= strings_view(old(v)@).push(s@));
}

/// Cuts records into shards of at least `capacity` bytes (the last one may
/// be shorter), recording the field names of each shard in order of first
/// appearance.
pub fn plan_shards(records: &Vec<Record>, capacity: usize) -> (plan: Vec<PlannedShard>)
    ensures
        planned_view(plan@) == shard_layout(dataset_view(records@), capacity),
{
    let ghost dv = dataset_view(records@);
    let mut closed: Vec<PlannedShard> = Vec::new();
    let mut keys: Vec<String> = Vec::new();
    let mut buffer: Vec<u8> = Vec::new();
    let mut i: usize = 0;
    while i < records.len()
        invariant
            i <= records@.len(),
            dv == dataset_view(records@),
            planned_view(closed@) == sharding_run(dv.take(i as int), capacity).closed,
            strings_view(keys@) == sharding_run(dv.take(i as int), capacity).keys,
            buffer@ == sharding_run(dv.take(i as int), capacity).buffer,
        decreases records@.len() - i,
    {
        assert(dv.take(i + 1).drop_last() == dv.take(i as int));
        let record = &records[i];
        let ghost rv = record_view(record@);
        assert(dv.take(i + 1).last() == rv);
        let ghost keys0 = strings_view(keys@);
        let ghost buf0 = buffer@;
        let mut j: usize = 0;
        while j < record.len()
            invariant
                j <= record@.len(),
                rv == record_view(record@),
                strings_view(keys@) == with_new_keys(keys0, rv.take(j as int)),
                buffer@ == buf0 + joined_pair_bytes(rv.take(j as int)),
            decreases record@.len() - j,
        {
            assert(rv.take(j + 1).drop_last() == rv.take(j as int));
            assert(rv.take(j + 1).last() == (record@[j as int].0@, record@[j as int].1@));
            let key = &record[j].0;
            let value = &record[j].1;
            let ghost b = buffer@;
            if j > 0 {
                buffer.push(0x1F);
            }
            append_bytes(&mut buffer, key.as_str().as_bytes());
            buffer.push(0x1F);
            append_bytes(&mut buffer, value.as_str().as_bytes());
            proof {
                let t = rv.take(j + 1);
                if j == 0 {
                    assert(t.len() == 1 && t[0] == (key@, value@));
                    assert(buffer@ =~= buf0 + joined_pair_bytes(t));
                } else {
                    assert(buffer@ =~= b + seq![0x1Fu8] + pair_bytes((key@, value@)));
                }
            }
            if !contains_key(&keys, key) {
                push_string(&mut keys, key.clone());
            }
            j += 1;
        }
        assert(rv.take(record@.len() as int) == rv);
        if record.len() > 0 {
            buffer.push(0x1E);
        }
        assert(buffer@ =~= buf0 + record_bytes(rv));
        if buffer.len() >= capacity {
            let full_keys = keys;
            let full_buffer = buffer;
            let ghost before = closed@;
            closed.push((full_keys, full_buffer));
            assert(planned_view(closed@) =~= planned_view(before).push((strings_view(full_keys@), full_buffer@)));
            keys = Vec::new();
            buffer = Vec::new();
            assert(strings_view(keys@) =~= Seq::<Seq<char>>::empty());
        }
        i += 1;
    }
    assert(dv.take(records@.len() as int) == dv);
    if buffer.len() > 0 {
        let ghost before = closed@;
        let last_keys = keys;
        let last_buffer = buffer;
        closed.push((last_keys, last_buffer));
        assert(planned_view(closed@) =~= planned_view(before).push((strings_view(last_keys@), last_buffer@)));
    }
    closed
}

/// Hybrid storage: named collections of shards, and the counter that hands out shard ids.
pub struct HybridQramStorage {
    pub shard_capacity: usize,
    pub active_shards: Vec<(String, Vec<QuantumShard>)>,
    pub global_transaction_counter: ConsistentCounter,
}

/// The abstract content of the collections, in order of creation.
pub open spec fn collections_view(c: Seq<(String, Vec<QuantumShard>)>) -> Seq<(Seq<char>, Seq<ShardView>)> {
    c.map_values(|e: (String, Vec<QuantumShard>)| (e.0@, shards_view(e.1@)))
}

/// The position of the first collection with the given name, if any.
pub open spec fn find_collection(c: Seq<(Seq<char>, Seq<ShardView>)>, name: Seq<char>) -> Option<int>
    decreases c.len(),
{
    if c.len() == 0 {
        None
    } else {
        match find_collection(c.drop_last(), name) {
            Some(j) => Some(j),
            None => if c.last().0 == name { Some(c.len() - 1) } else { None },
        }
    }
}

/// The shards stored under a name, if a collection has that name.
pub open spec fn stored_shards(c: Seq<(Seq<char>, Seq<ShardView>)>, name: Seq<char>) -> Option<Seq<ShardView>> {
    match find_collection(c, name) {
        Some(j) => Some(c[j].1),
        None => None,
    }
}

/// The collections after `added` is appended to the collection `name`
/// (which is created, empty, when it does not exist yet).
pub open spec fn after_ingest(
    c: Seq<(Seq<char>, Seq<ShardView>)>,
    name: Seq<char>,
    added: Seq<ShardView>,
) -> Seq<(Seq<char>, Seq<ShardView>)> {
    match find_collection(c, name) {
        Some(j) => c.update(j, (name, c[j].1 + added)),
        None => c.push((name, added)),
    }
}

proof fn lemma_find_collection_bounds(c: Seq<(Seq<char>, Seq<ShardView>)>, name: Seq<char>)
    ensures
        match find_collection(c, name) {
            Some(j) => 0 <= j < c.len() && c[j].0 == name && forall|k: int| 0 <= k < j ==> #[trigger] c[k].0 != name,
            None => forall|k: int| 0 <= k < c.len() ==> #[trigger] c[k].0 != name,
        },
    decreases c.len(),
{
    if c.len() > 0 {
        let d = c.drop_last();
        lemma_find_collection_bounds(d, name);
        assert(forall|k: int| 0 <= k < d.len() ==> #[trigger] d[k] == c[k]);
        match find_collection(d, name) {
            Some(j) => {
                assert forall|k: int| 0 <= k < j implies #[trigger] c[k].0 != name by {
                    assert(d[k] == c[k]);
                }
            },
            None => {
                if c.last().0 == name {
                    assert forall|k: int| 0 <= k < c.len() - 1 implies #[trigger] c[k].0 != name by {
                        assert(d[k] == c[k]);
                    }
                } else {
                    assert forall|k: int| 0 <= k < c.len() implies #[trigger] c[k].0 != name by {
                        if k < d.len() {
                            assert(d[k] == c[k]);
                        }
                    }
                }
            },
        }
    }
}

proof fn lemma_find_collection_first(c: Seq<(Seq<char>, Seq<ShardView>)>, name: Seq<char>, j: int)
    requires
        0 <= j < c.len(),
        c[j].0 == name,
        forall|k: int| 0 <= k < j ==> #[trigger] c[k].0 != name,
    ensures
        find_collection(c, name) == Some(j),
    decreases c.len(),
{
    if j < c.len() - 1 {
        lemma_find_collection_first(c.drop_last(), name, j);
    } else {
        lemma_find_collection_bounds(c.drop_last(), name);
    }
}

proof fn lemma_find_collection_none(c: Seq<(Seq<char>, Seq<ShardView>)>, name: Seq<char>)
    requires
        forall|k: int| 0 <= k < c.len() ==> #[trigger] c[k].0 != name,
    ensures
        find_collection(c, name) is None,
    decreases c.len(),
{
    if c.len() > 0 {
        lemma_find_collection_none(c.drop_last(), name);
    }
}

/// What a read gives back of a write: after shards are appended to a
/// collection, that collection holds its former shards (none if it did not
/// exist) followed by the new ones, and every other collection is unchanged.
pub proof fn lemma_stored_after_ingest(
    c: Seq<(Seq<char>, Seq<ShardView>)>,
    name: Seq<char>,
    added: Seq<ShardView>,
    other: Seq<char>,
)
    ensures
        stored_shards(after_ingest(c, name, added), name) == Some(
            match stored_shards(c, name) {
                Some(prior) => prior + added,
                None => added,
            },
        ),
        other != name ==> stored_shards(after_ingest(c, name, added), other) == stored_shards(c, other),
{
    let c2 = after_ingest(c, name, added);
    lemma_find_collection_bounds(c, name);
    lemma_find_collection_bounds(c, other);
    match find_collection(c, name) {
        Some(j) => {
            assert forall|k: int| 0 <= k < j implies #[trigger] c2[k].0 != name by {
                assert(c2[k] == c[k]);
            }
            lemma_find_collection_first(c2, name, j);
            if other != name {
                match find_collection(c, other) {
                    Some(o) => {
                        assert forall|k: int| 0 <= k < o implies #[trigger] c2[k].0 != other by {
                            if k != j {
                                assert(c2[k] == c[k]);
                            }
                        }
                        lemma_find_collection_first(c2, other, o);
                    },
                    None => {
                        assert forall|k: int| 0 <= k < c2.len() implies #[trigger] c2[k].0 != other by {
                            if k != j {
                                assert(c2[k] == c[k]);
                            }
                        }
                        lemma_find_collection_none(c2, other);
                    },
                }
            }
        },
        None => {
            assert forall|k: int| 0 <= k < c.len() implies #[trigger] c2[k].0 != name by {
                assert(c2[k] == c[k]);
            }
            lemma_find_collection_first(c2, name, c.len() as int);
            if other != name {
                match find_collection(c, other) {
                    Some(o) => {
                        assert forall|k: int| 0 <= k < o implies #[trigger] c2[k].0 != other by {
                            assert(c2[k] == c[k]);
                        }
                        lemma_find_collection_first(c2, other, o);
                    },
                    None => {
                        assert forall|k: int| 0 <= k < c2.len() implies #[trigger] c2[k].0 != other by {
                            if k < c.len() {
                                assert(c2[k] == c[k]);
                            }
                        }
                        lemma_find_collection_none(c2, other);
                    },
                }
            }
        },
    }
}

/// Shard ids within one ingestion: the shards are numbered consecutively
/// from the counter's value, and the counter ends past every one of them;
/// unless the counter wraps, the ids rise strictly in shard order.
pub proof fn lemma_shard_ids_increase(layout: Seq<(Seq<Seq<char>>, Seq<u8>)>, first: usize, closed: nat)
    requires
        closed <= layout.len() <= closed + 1,
        first + closed + 1 <= usize::MAX,
    ensures
        forall|a: int, b: int| 0 <= a < b < layout.len() ==> #[trigger] numbered_shards(layout, first)[a].shard_id
            < #[trigger] numbered_shards(layout, first)[b].shard_id,
        forall|a: int| 0 <= a < layout.len() ==> first <= #[trigger] numbered_shards(layout, first)[a].shard_id
            && numbered_shards(layout, first)[a].shard_id < counted(first, closed + 1),
        counted(first, closed + 1) == first + closed + 1,
{
    let m = usize::MAX as int + 1;
    assert forall|i: nat| i <= closed + 1 implies #[trigger] counted(first, i) == first + i by {
        vstd::arithmetic::div_mod::lemma_small_mod((first + i) as nat, m as nat);
    }
    let s = numbered_shards(layout, first);
    assert forall|a: int| 0 <= a < layout.len() implies #[trigger] s[a].shard_id == first + a by {
        assert(counted(first, a as nat) == first + a);
    }
}

/// Shard ids across ingestions: the next ingestion numbers its shards from
/// where the counter ended, so (unless the counter wraps) each of its
/// shards gets a larger id than every shard of the earlier one.
pub proof fn lemma_shard_ids_across_ingestions(
    layout1: Seq<(Seq<Seq<char>>, Seq<u8>)>,
    first: usize,
    closed1: nat,
    layout2: Seq<(Seq<Seq<char>>, Seq<u8>)>,
    closed2: nat,
)
    requires
        closed1 <= layout1.len() <= closed1 + 1,
        closed2 <= layout2.len() <= closed2 + 1,
        first + closed1 + closed2 + 2 <= usize::MAX,
    ensures
        forall|a: int, b: int| 0 <= a < layout1.len() && 0 <= b < layout2.len() ==> #[trigger] numbered_shards(layout1, first)[a].shard_id
            < #[trigger] numbered_shards(layout2, counted(first, closed1 + 1))[b].shard_id,
{
    lemma_shard_ids_increase(layout1, first, closed1);
    let second = counted(first, closed1 + 1);
    lemma_shard_ids_increase(layout2, second, closed2);
    assert forall|a: int, b: int| 0 <= a < layout1.len() && 0 <= b < layout2.len() implies #[trigger] numbered_shards(layout1, first)[a].shard_id
        < #[trigger] numbered_shards(layout2, second)[b].shard_id by {
        assert(numbered_shards(layout1, first)[a].shard_id < second);
        assert(second <= numbered_shards(layout2, second)[b].shard_id);
    }
}

/// How far the counter moves over ingestions that close `closed[s]` shards
/// at step `s`: each ingestion draws one id per closed shard and one more.
pub open spec fn counter_advance(closed: Seq<nat>) -> nat
    decreases closed.len(),
{
    if closed.len() == 0 {
        0
    } else {
        counter_advance(closed.drop_last()) + closed.last() + 1
    }
}

proof fn lemma_counter_advance_grows(closed: Seq<nat>, s1: int, s2: int)
    requires
        0 <= s1 < s2 <= closed.len(),
    ensures
        counter_advance(closed.take(s1)) + closed[s1] + 1 <= counter_advance(closed.take(s2)),
    decreases s2,
{
    assert(closed.take(s2).drop_last() =~= closed.take(s2 - 1));
    assert(closed.take(s2).last() == closed[s2 - 1]);
    if s1 < s2 - 1 {
        lemma_counter_advance_grows(closed, s1, s2 - 1);
    } else {
        assert(closed.take(s1) =~= closed.take(s2 - 1));
    }
}

proof fn lemma_counter_advance_prefix(closed: Seq<nat>, s: int)
    requires
        0 <= s <= closed.len(),
    ensures
        counter_advance(closed.take(s)) <= counter_advance(closed),
    decreases closed.len() - s,
{
    if s < closed.len() {
        lemma_counter_advance_grows(closed, s, closed.len() as int);
        assert(closed.take(closed.len() as int) =~= closed);
    } else {
        assert(closed.take(s) =~= closed);
    }
}

/// Shard ids over any run of ingestions on one storage: when the counter
/// starts at `first` and ingestion `s` makes the shards of `layouts[s]`,
/// closing `closed[s]` of them, its shards are numbered from where the
/// previous one left the counter.  Unless the counter wraps, ids rise
/// strictly in the order the shards are made, across every collection, so
/// no two shards share an id.
pub proof fn lemma_shard_ids_over_ingestions(
    layouts: Seq<Seq<(Seq<Seq<char>>, Seq<u8>)>>,
    closed: Seq<nat>,
    first: usize,
    s1: int,
    a1: int,
    s2: int,
    a2: int,
)
    requires
        layouts.len() == closed.len(),
        forall|s: int| 0 <= s < closed.len() ==> closed[s] <= #[trigger] layouts[s].len() <= closed[s] + 1,
        first + counter_advance(closed) <= usize::MAX,
        0 <= s1 < closed.len(),
        0 <= s2 < closed.len(),
        0 <= a1 < layouts[s1].len(),
        0 <= a2 < layouts[s2].len(),
        s1 < s2 || (s1 == s2 && a1 < a2),
    ensures
        numbered_shards(layouts[s1], counted(first, counter_advance(closed.take(s1))))[a1].shard_id
            < numbered_shards(layouts[s2], counted(first, counter_advance(closed.take(s2))))[a2].shard_id,
{
    let m = usize::MAX as int + 1;
    let o1 = counter_advance(closed.take(s1));
    let o2 = counter_advance(closed.take(s2));
    lemma_counter_advance_prefix(closed, s1);
    lemma_counter_advance_prefix(closed, s2);
    if s1 < s2 {
        lemma_counter_advance_grows(closed, s1, s2);
    }
    assert(layouts[s1].len() <= closed[s1] + 1);
    assert(o1 + a1 < first + counter_advance(closed) + 1 - first) by {
        if s1 + 1 <= closed.len() {
            lemma_counter_advance_grows(closed, s1, closed.len() as int);
            assert(closed.take(closed.len() as int) =~= closed);
        }
    }
    vstd::arithmetic::div_mod::lemma_small_mod((first + o1) as nat, m as nat);
    vstd::arithmetic::div_mod::lemma_small_mod((first + o2) as nat, m as nat);
    let start1 = counted(first, o1);
    let start2 = counted(first, o2);
    vstd::arithmetic::div_mod::lemma_small_mod((start1 + a1) as nat, m as nat);
    assert(o2 + a2 < counter_advance(closed) + 1) by {
        assert(layouts[s2].len() <= closed[s2] + 1);
        lemma_counter_advance_grows(closed, s2, closed.len() as int);
        assert(closed.take(closed.len() as int) =~= closed);
    }
    vstd::arithmetic::div_mod::lemma_small_mod((start2 + a2) as nat, m as nat);
    assert(numbered_shards(layouts[s1], start1)[a1].shard_id == first + o1 + a1);
    assert(numbered_shards(layouts[s2], start2)[a2].shard_id == first + o2 + a2);
}

/// Ingestions chain: numbering from `counted(first, n)` and then moving the
/// counter `k` more is numbering from `first` moved `n + k`, as long as the
/// counter does not wrap.
pub proof fn lemma_counted_chain(first: usize, n: nat, k: nat)
    requires
        first + n + k <= usize::MAX,
    ensures
        counted(counted(first, n), k) == counted(first, n + k),
{
    let m = usize::MAX as int + 1;
    vstd::arithmetic::div_mod::lemma_small_mod((first + n) as nat, m as nat);
    vstd::arithmetic::div_mod::lemma_small_mod((first + n + k) as nat, m as nat);
}

/// The collections after ingestions, in order: each step names a
/// collection and the shards appended to it.
pub open spec fn after_ingests(
    c: Seq<(Seq<char>, Seq<ShardView>)>,
    steps: Seq<(Seq<char>, Seq<ShardView>)>,
) -> Seq<(Seq<char>, Seq<ShardView>)>
    decreases steps.len(),
{
    if steps.len() == 0 {
        c
    } else {
        after_ingest(after_ingests(c, steps.drop_last()), steps.last().0, steps.last().1)
    }
}

/// The shards that the steps appended under `name`, in order.
pub open spec fn shards_added(steps: Seq<(Seq<char>, Seq<ShardView>)>, name: Seq<char>) -> Seq<ShardView>
    decreases steps.len(),
{
    if steps.len() == 0 {
        seq![]
    } else if steps.last().0 == name {
        shards_added(steps.drop_last(), name) + steps.last().1
    } else {
        shards_added(steps.drop_last(), name)
    }
}

/// Whether some step names the collection.
pub open spec fn ingested_into(steps: Seq<(Seq<char>, Seq<ShardView>)>, name: Seq<char>) -> bool {
    exists|i: int| 0 <= i < steps.len() && #[trigger] steps[i].0 == name
}

/// What a fetch gives back after any ingestions into a new storage: a
/// collection exists exactly when some ingestion named it (even one that
/// made no shard), and it holds every shard made for it, in creation order.
pub proof fn lemma_fetch_after_ingests(steps: Seq<(Seq<char>, Seq<ShardView>)>, name: Seq<char>)
    ensures
        stored_shards(after_ingests(seq![], steps), name) == if ingested_into(steps, name) {
            Some(shards_added(steps, name))
        } else {
            None::<Seq<ShardView>>
        },
    decreases steps.len(),
{
    if steps.len() == 0 {
        assert(find_collection(seq![], name) is None);
    } else {
        let d = steps.drop_last();
        let (n, added) = steps.last();
        lemma_fetch_after_ingests(d, name);
        lemma_stored_after_ingest(after_ingests(seq![], d), n, added, name);
        assert(ingested_into(steps, name) == (ingested_into(d, name) || n == name)) by {
            if ingested_into(steps, name) && n != name {
                let i = choose|i: int| 0 <= i < steps.len() && #[trigger] steps[i].0 == name;
                assert(i < d.len());
                assert(d[i] == steps[i]);
            }
            if ingested_into(d, name) {
                let i = choose|i: int| 0 <= i < d.len() && #[trigger] d[i].0 == name;
                assert(steps[i] == d[i]);
            }
            if n == name {
                assert(steps[steps.len() - 1].0 == name);
            }
        }
        if n == name && !ingested_into(d, name) {
            assert(shards_added(d, name) =~= Seq::<ShardView>::empty()) by {
                lemma_shards_added_none(d, name);
            }
            assert(shards_added(steps, name) =~= added);
        }
    }
}

proof fn lemma_shards_added_none(steps: Seq<(Seq<char>, Seq<ShardView>)>, name: Seq<char>)
    requires
        !ingested_into(steps, name),
    ensures
        shards_added(steps, name) == Seq::<ShardView>::empty(),
    decreases steps.len(),
{
    if steps.len() > 0 {
        let d = steps.drop_last();
        assert(!ingested_into(d, name)) by {
            if ingested_into(d, name) {
                let i = choose|i: int| 0 <= i < d.len() && #[trigger] d[i].0 == name;
                assert(steps[i] == d[i]);
            }
        }
        assert(steps[steps.len() - 1].0 != name);
        lemma_shards_added_none(d, name);
    }
}

/// A copy of a shard.
pub fn copy_shard(s: &QuantumShard) -> (r: QuantumShard)
    ensures
        r@ == s@,
{
    let mut mapping: Vec<(String, usize)> = Vec::new();
    let ghost mv = s@.mapping;
    let mut i: usize = 0;
    while i < s.address_qubit_mapping.len()
        invariant
            i <= s.address_qubit_mapping@.len(),
            mv == s@.mapping,
            mapping@.map_values(|p: (String, usize)| (p.0@, p.1)) == mv.take(i as int),
        decreases s.address_qubit_mapping@.len() - i,
    {
        let key = s.address_qubit_mapping[i].0.clone();
        let pos = s.address_qubit_mapping[i].1;
        let ghost before = mapping@;
        mapping.push((key, pos));
        assert(mapping@.map_values(|p: (String, usize)| (p.0@, p.1)) =~= before.map_values(
            |p: (String, usize)| (p.0@, p.1),
        ).push((key@, pos)));
        assert(mv.take(i + 1) =~= mv.take(i as int).push((key@, pos)));
        i += 1;
    }
    assert(mv.take(mv.len() as int) =~= mv);
    let mut buffer: Vec<u8> = Vec::new();
    append_bytes(&mut buffer, s.dense_buffer.as_slice());
    assert(buffer@ =~= s.dense_buffer@);
    QuantumShard { shard_id: s.shard_id, address_qubit_mapping: mapping, dense_buffer: buffer }
}

/// A copy of a list of shards.
pub fn copy_shards(v: &Vec<QuantumShard>) -> (r: Vec<QuantumShard>)
    ensures
        shards_view(r@) == shards_view(v@),
{
    let mut out: Vec<QuantumShard> = Vec::new();
    let mut i: usize = 0;
    while i < v.len()
        invariant
            i <= v@.len(),
            shards_view(out@) == shards_view(v@).take(i as int),
        decreases v@.len() - i,
    {
        let ghost before = out@;
        let s = copy_shard(&v[i]);
        out.push(s);
        assert(shards_view(out@) =~= shards_view(before).push(s@));
        assert(shards_view(v@).take(i + 1) =~= shards_view(v@).take(i as int).push(v@[i as int]@));
        i += 1;
    }
    assert(shards_view(v@).take(v@.len() as int) =~= shards_view(v@));
    out
}

fn mapping_from_keys(keys: &Vec<String>) -> (m: Vec<(String, usize)>)
    ensures
        m@.map_values(|p: (String, usize)| (p.0@, p.1)) == qubit_mapping(strings_view(keys@)),
{
    let ghost kv = strings_view(keys@);
    let mut m: Vec<(String, usize)> = Vec::new();
    let mut i: usize = 0;
    while i < keys.len()
        invariant
            i <= keys@.len(),
            kv == strings_view(keys@),
            m@.map_values(|p: (String, usize)| (p.0@, p.1)) == qubit_mapping(kv).take(i as int),
        decreases keys@.len() - i,
    {
        let key = keys[i].clone();
        let ghost before = m@;
        m.push((key, i));
        assert(m@.map_values(|p: (String, usize)| (p.0@, p.1)) =~= before.map_values(
            |p: (String, usize)| (p.0@, p.1),
        ).push((key@, i)));
        assert(qubit_mapping(kv).take(i + 1) =~= qubit_mapping(kv).take(i as int).push((kv[i as int], i)));
        i += 1;
    }
    assert(qubit_mapping(kv).take(kv.len() as int) =~= qubit_mapping(kv));
    m
}

fn collection_slot(entries: &Vec<(String, Vec<QuantumShard>)>, name: &str) -> (r: Option<usize>)
    ensures
        match r {
            Some(j) => find_collection(collections_view(entries@), name@) == Some(j as int),
            None => find_collection(collections_view(entries@), name@) is None,
        },
{
    let ghost cv = collections_view(entries@);
    let mut i: usize = 0;
    while i < entries.len()
        invariant
            i <= entries@.len(),
            cv == collections_view(entries@),
            forall|k: int| 0 <= k < i ==> #[trigger] cv[k].0 != name@,
        decreases entries@.len() - i,
    {
        if text_is(entries[i].0.as_str(), name) {
            proof { lemma_find_collection_first(cv, name@, i as int); }
            return Some(i);
        }
        i += 1;
    }
    proof { lemma_find_collection_none(cv, name@); }
    None
}

/// Appends shards to the named collection, creating it at the end when it
/// does not exist.
fn append_to_collection(entries: &mut Vec<(String, Vec<QuantumShard>)>, collection_name: &str, made: Vec<QuantumShard>)
    ensures
        collections_view(final(entries)@) == after_ingest(collections_view(old(entries)@), collection_name@, shards_view(made@)),
{
    let ghost added = shards_view(made@);
    match collection_slot(entries, collection_name) {
        Some(j) => {
            let ghost before = collections_view(entries@);
            proof { lemma_find_collection_bounds(before, collection_name@); }
            let (name, mut list) = entries.remove(j);
            let ghost old_list = shards_view(list@);
            let mut m: usize = 0;
            while m < made.len()
                invariant
                    m <= made@.len(),
                    added == shards_view(made@),
                    shards_view(list@) == old_list + added.take(m as int),
                decreases made@.len() - m,
            {
                let ghost bl = list@;
                let s = copy_shard(&made[m]);
                list.push(s);
                assert(shards_view(list@) =~= shards_view(bl).push(s@));
                assert(added.take(m + 1) =~= added.take(m as int).push(added[m as int]));
                m += 1;
            }
            assert(added.take(made@.len() as int) =~= added);
            entries.insert(j, (name, list));
            assert(collections_view(entries@) =~= before.update(j as int, (collection_name@, before[j as int].1 + added)));
        },
        None => {
            let ghost before = collections_view(entries@);
            entries.push((collection_name.to_owned(), made));
            assert(collections_view(entries@) =~= before.push((collection_name@, added)));
        },
    }
}

impl HybridQramStorage {
    /// The value of the transaction counter: the id the next shard would get.
    pub open spec fn transaction_count(&self) -> usize {
        counter_value(self.global_transaction_counter)
    }

    pub fn new(shard_capacity: usize) -> (s: Self)
        ensures
            s.shard_capacity == shard_capacity,
            s.active_shards@.len() == 0,
            s.transaction_count() == 0,
    {
        Self {
            shard_capacity,
            active_shards: Vec::new(),
            global_transaction_counter: counter_new(0),
        }
    }

    /// Serialises records into shards of the storage's capacity and appends
    /// them to the named collection (created when missing); each shard gets
    /// an id from the transaction counter.  Returns the number of shards made.
    pub fn ingest_and_shard(&mut self, collection_name: &str, records: Vec<Record>) -> (r: Result<usize, StorageError>)
        ensures
            final(self).shard_capacity == old(self).shard_capacity,
            ({
                let layout = shard_layout(dataset_view(records@), old(self).shard_capacity);
                let first = old(self).transaction_count();
                &&& r matches Ok(n) && n == layout.len()
                &&& collections_view(final(self).active_shards@) == after_ingest(
                    collections_view(old(self).active_shards@),
                    collection_name@,
                    numbered_shards(layout, first),
                )
                &&& final(self).transaction_count() == counted(
                    first,
                    sharding_run(dataset_view(records@), old(self).shard_capacity).closed.len() + 1,
                )
            }),
    {
        let capacity = self.shard_capacity;
        let plan = plan_shards(&records, capacity);
        let ghost layout = planned_view(plan@);
        let ghost first = counter_value(self.global_transaction_counter);
        let ghost closed = sharding_run(dataset_view(records@), capacity).closed.len();
        proof {
            lemma_full_shards(dataset_view(records@), capacity);
            lemma_counted_step(first, 0);
        }
        let mut current_shard_id = counter_inc(&mut self.global_transaction_counter) as u64;
        let mut made: Vec<QuantumShard> = Vec::new();
        let total = plan.len();
        let mut k: usize = 0;
        while k < total
            invariant
                k <= total,
                total == plan@.len(),
                layout == planned_view(plan@),
                layout == shard_layout(dataset_view(records@), capacity),
                capacity == self.shard_capacity,
                self.active_shards == old(self).active_shards,
                self.shard_capacity == old(self).shard_capacity,
                closed <= total <= closed + 1,
                forall|i: int| 0 <= i < total ==> (#[trigger] layout[i].1.len() >= capacity <==> i < closed),
                shards_view(made@) == numbered_shards(layout.take(k as int), first),
                k <= closed ==> current_shard_id == counted(first, k as nat) as u64,
                counter_value(self.global_transaction_counter) == counted(first, (if k <= closed { k as nat } else { closed }) + 1),
            decreases total - k,
        {
            let keys = &plan[k].0;
            let bytes = &plan[k].1;
            assert(layout[k as int] == (strings_view(keys@), bytes@));
            let full = bytes.len() >= capacity;
            let mapping = mapping_from_keys(keys);
            let mut buffer: Vec<u8> = Vec::new();
            append_bytes(&mut buffer, bytes.as_slice());
            assert(buffer@ =~= bytes@);
            let shard = QuantumShard { shard_id: current_shard_id, address_qubit_mapping: mapping, dense_buffer: buffer };
            let ghost before_made = made@;
            made.push(shard);
            assert(shards_view(made@) =~= shards_view(before_made).push(shard@));
            assert(layout[k as int].1.len() >= capacity <==> k < closed);
            assert(k <= closed);
            assert(shards_view(made@) =~= numbered_shards(layout.take(k + 1), first));
            if full {
                proof { lemma_counted_step(first, (k + 1) as nat); }
                current_shard_id = counter_inc(&mut self.global_transaction_counter) as u64;
            }
            k += 1;
        }
        assert(layout.take(k as int) =~= layout);
        assert(shards_view(made@) == numbered_shards(layout, first));
        append_to_collection(&mut self.active_shards, collection_name, made);
        Ok(total)
    }

    /// The shards of a collection (copies), or `PartitionNotFound` with its name.
    pub fn fetch_shard_buffers(&self, collection_name: &str) -> (r: Result<Vec<QuantumShard>, StorageError>)
        ensures
            match stored_shards(collections_view(self.active_shards@), collection_name@) {
                Some(shards) => r matches Ok(v) && shards_view(v@) == shards,
                None => r matches Err(StorageError::PartitionNotFound(n)) && n@ == collection_name@,
            },
    {
        match collection_slot(&self.active_shards, collection_name) {
            Some(j) => {
                proof { lemma_find_collection_bounds(collections_view(self.active_shards@), collection_name@); }
                let v = copy_shards(&self.active_shards[j].1);
                Ok(v)
            },
            None => Err(StorageError::PartitionNotFound(collection_name.to_owned())),
        }
    }
}

} // verus!
