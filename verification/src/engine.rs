//! The query pipeline: stored shard bytes decoded back into records, and the
//! search of a compiled query over them.
use vstd::prelude::*;
use vstd::utf8::{valid_utf8, decode_utf8, encode_utf8};
use crate::compiler::{QuantumCircuitPlan, QuantumQuery, QueryOperator, QueryView};
use crate::compiler::parser::{CompilerError, QuantumCompiler};
use crate::algorithms::grover::{GroverSearchEngine, QuantumEngineError};
use crate::storage::qram::{
    HybridQramStorage, QuantumShard, ShardView, StorageError, after_ingest, counted, numbered_shards, all_record_bytes, collections_view,
    has_layout, joined_pair_bytes, pair_bytes, qubit_mapping, record_bytes, shard_layout, sharding_run, shards_view, stored_shards,
    with_new_keys,
};
use crate::compiler::parser::{
    ParseOutcome, lemma_parse_select, no_white_space, oracle_signature, parse_result_is, plain_word, query_outcome, search_circuit_gates,
    select_words, spaced,
};
use crate::algorithms::grover::{lemma_matching_indices_exact, matching_indices};
use crate::records::{distinct_fields, lookup};
use crate::records::{Record, copy_record, dataset_view, record_view};
use crate::text::{chars_of, string_from_chars};

verus! {

/// `String::from_utf8_lossy` (made owned): the text of the bytes, with
/// U+FFFD in place of each ill-formed sequence.
pub uninterp spec fn lossy_text(bytes: Seq<u8>) -> Seq<char>;

/// `String::from_utf8_lossy`, made owned.  Its result is `lossy_text` of the
/// bytes; on well-formed UTF-8 that is the decoded text, as the
/// documentation states.  How ill-formed sequences are replaced is not
/// written out here.
#[verifier::external_body]
fn utf8_lossy(bytes: &[u8]) -> (r: String)
    ensures
        r@ == lossy_text(bytes@),
        valid_utf8(bytes@) ==> r@ == decode_utf8(bytes@),
{
    String::from_utf8_lossy(bytes).into_owned()
}

/// Errors of the engine, by tier.
#[derive(Debug)]
pub enum EngineError {
    CompilerFailure(CompilerError),
    StorageFailure(StorageError),
    ExecutionFailure(QuantumEngineError),
}

impl From<CompilerError> for EngineError {
    fn from(e: CompilerError) -> (r: Self) {
        EngineError::CompilerFailure(e)
    }
}

impl vstd::std_specs::convert::FromSpecImpl<CompilerError> for EngineError {
    open spec fn obeys_from_spec() -> bool {
        true
    }

    open spec fn from_spec(e: CompilerError) -> Self {
        EngineError::CompilerFailure(e)
    }
}

impl From<StorageError> for EngineError {
    fn from(e: StorageError) -> (r: Self) {
        EngineError::StorageFailure(e)
    }
}

impl vstd::std_specs::convert::FromSpecImpl<StorageError> for EngineError {
    open spec fn obeys_from_spec() -> bool {
        true
    }

    open spec fn from_spec(e: StorageError) -> Self {
        EngineError::StorageFailure(e)
    }
}

impl From<QuantumEngineError> for EngineError {
    fn from(e: QuantumEngineError) -> (r: Self) {
        EngineError::ExecutionFailure(e)
    }
}

impl vstd::std_specs::convert::FromSpecImpl<QuantumEngineError> for EngineError {
    open spec fn obeys_from_spec() -> bool {
        true
    }

    open spec fn from_spec(e: QuantumEngineError) -> Self {
        EngineError::ExecutionFailure(e)
    }
}

/// Record separator: closes each serialised record.
pub const RECORD_SEPARATOR: char = '\u{1E}';

/// Unit separator: between a field and its value, and between the pairs of a record.
pub const UNIT_SEPARATOR: char = '\u{1F}';

/// The pieces of `s` between occurrences of `sep` (as `str::split` with a
/// character pattern: `n` separators give `n + 1` pieces, empty ones included).
pub open spec fn split_on(s: Seq<char>, sep: char) -> Seq<Seq<char>>
    decreases s.len(),
{
    if s.len() == 0 {
        seq![seq![]]
    } else {
        let p = split_on(s.drop_last(), sep);
        if s.last() == sep {
            p.push(seq![])
        } else {
            p.update(p.len() - 1, p.last().push(s.last()))
        }
    }
}

proof fn lemma_split_on_nonempty(s: Seq<char>, sep: char)
    ensures
        split_on(s, sep).len() >= 1,
    decreases s.len(),
{
    if s.len() > 0 {
        lemma_split_on_nonempty(s.drop_last(), sep);
    }
}

/// The position of the first pair with the given field, if any.
pub open spec fn key_position(fields: Seq<(Seq<char>, Seq<char>)>, key: Seq<char>) -> Option<int>
    decreases fields.len(),
{
    if fields.len() == 0 {
        None
    } else {
        match key_position(fields.drop_last(), key) {
            Some(i) => Some(i),
            None => if fields.last().0 == key { Some(fields.len() - 1) } else { None },
        }
    }
}

proof fn lemma_key_position_first(fields: Seq<(Seq<char>, Seq<char>)>, key: Seq<char>, i: int)
    requires
        0 <= i < fields.len(),
        fields[i].0 == key,
        forall|j: int| 0 <= j < i ==> #[trigger] fields[j].0 != key,
    ensures
        key_position(fields, key) == Some(i),
    decreases fields.len(),
{
    if i < fields.len() - 1 {
        lemma_key_position_first(fields.drop_last(), key, i);
    } else {
        lemma_key_position_none(fields.drop_last(), key);
    }
}

proof fn lemma_key_position_none(fields: Seq<(Seq<char>, Seq<char>)>, key: Seq<char>)
    requires
        forall|j: int| 0 <= j < fields.len() ==> #[trigger] fields[j].0 != key,
    ensures
        key_position(fields, key) is None,
    decreases fields.len(),
{
    if fields.len() > 0 {
        lemma_key_position_none(fields.drop_last(), key);
    }
}

/// `fields` with `key` set to `value`: the first pair with that field gets
/// the new value, or the pair is appended (as `HashMap::insert` keeps one
/// value per key).
pub open spec fn insert_field(
    fields: Seq<(Seq<char>, Seq<char>)>,
    key: Seq<char>,
    value: Seq<char>,
) -> Seq<(Seq<char>, Seq<char>)> {
    match key_position(fields, key) {
        Some(i) => fields.update(i, (key, value)),
        None => fields.push((key, value)),
    }
}

/// The record of a piece: its unit-separated parts taken two by two as
/// (field, value), a trailing odd part ignored.
pub open spec fn piece_record_upto(parts: Seq<Seq<char>>, pairs: nat) -> Seq<(Seq<char>, Seq<char>)>
    decreases pairs,
{
    if pairs == 0 {
        seq![]
    } else {
        let prev = piece_record_upto(parts, (pairs - 1) as nat);
        insert_field(prev, parts[2 * (pairs - 1)], parts[2 * (pairs - 1) + 1])
    }
}

/// The record of one record-separated piece.
pub open spec fn piece_record(piece: Seq<char>) -> Seq<(Seq<char>, Seq<char>)> {
    let parts = split_on(piece, '\u{1F}');
    piece_record_upto(parts, parts.len() / 2)
}

/// The records of pieces: one for each non-empty piece whose record is non-empty.
pub open spec fn pieces_records(pieces: Seq<Seq<char>>) -> Seq<Seq<(Seq<char>, Seq<char>)>>
    decreases pieces.len(),
{
    if pieces.len() == 0 {
        seq![]
    } else {
        let prev = pieces_records(pieces.drop_last());
        let piece = pieces.last();
        if piece.len() > 0 && piece_record(piece).len() > 0 {
            prev.push(piece_record(piece))
        } else {
            prev
        }
    }
}

/// The records stored in a decoded shard text.
pub open spec fn text_records(text: Seq<char>) -> Seq<Seq<(Seq<char>, Seq<char>)>> {
    pieces_records(split_on(text, '\u{1E}'))
}

/// The records of all shards, shard after shard.
pub open spec fn shards_records(buffers: Seq<Seq<u8>>) -> Seq<Seq<(Seq<char>, Seq<char>)>>
    decreases buffers.len(),
{
    if buffers.len() == 0 {
        seq![]
    } else {
        shards_records(buffers.drop_last()) + text_records(lossy_text(buffers.last()))
    }
}

/// The byte buffers of shards.
pub open spec fn shard_buffers(shards: Seq<ShardView>) -> Seq<Seq<u8>> {
    shards.map_values(|s: ShardView| s.buffer)
}
/// The text of one stored pair: field, unit separator, value.
pub open spec fn pair_text(f: (Seq<char>, Seq<char>)) -> Seq<char> {
    f.0 + seq!['\u{1F}'] + f.1
}

/// The text of the pairs of a record, joined by unit separators.
pub open spec fn joined_pair_text(r: Seq<(Seq<char>, Seq<char>)>) -> Seq<char>
    decreases r.len(),
{
    if r.len() == 0 {
        seq![]
    } else if r.len() == 1 {
        pair_text(r[0])
    } else {
        joined_pair_text(r.drop_last()) + seq!['\u{1F}'] + pair_text(r.last())
    }
}

/// The text of a stored record: its joined pairs closed by a record
/// separator (a record without pairs writes nothing).
pub open spec fn record_text(r: Seq<(Seq<char>, Seq<char>)>) -> Seq<char> {
    if r.len() == 0 {
        seq![]
    } else {
        joined_pair_text(r) + seq!['\u{1E}']
    }
}

/// The text of stored records, record after record.
pub open spec fn records_text(ds: Seq<Seq<(Seq<char>, Seq<char>)>>) -> Seq<char>
    decreases ds.len(),
{
    if ds.len() == 0 {
        seq![]
    } else {
        records_text(ds.drop_last()) + record_text(ds.last())
    }
}

/// The records that hold at least one pair, in order.
pub open spec fn nonempty_records(ds: Seq<Seq<(Seq<char>, Seq<char>)>>) -> Seq<Seq<(Seq<char>, Seq<char>)>>
    decreases ds.len(),
{
    if ds.len() == 0 {
        seq![]
    } else {
        let p = nonempty_records(ds.drop_last());
        if ds.last().len() > 0 {
            p.push(ds.last())
        } else {
            p
        }
    }
}

/// Whether no record names a field twice (as a map from field to value).
pub open spec fn records_distinct_fields(ds: Seq<Seq<(Seq<char>, Seq<char>)>>) -> bool {
    forall|i: int| 0 <= i < ds.len() ==> #[trigger] distinct_fields(ds[i])
}

/// The unit-separated parts of a record's joined text: field, value, field, value, ...
pub open spec fn pair_parts(r: Seq<(Seq<char>, Seq<char>)>) -> Seq<Seq<char>> {
    Seq::new(2 * r.len(), |i: int| if i % 2 == 0 { r[i / 2].0 } else { r[i / 2].1 })
}

/// Whether a text holds neither separator.
pub open spec fn separator_free(t: Seq<char>) -> bool {
    !t.contains('\u{1E}') && !t.contains('\u{1F}')
}

/// Whether no field name or value of the pairs holds a separator.
pub open spec fn fields_separator_free(fs: Seq<(Seq<char>, Seq<char>)>) -> bool {
    forall|j: int| 0 <= j < fs.len() ==> #[trigger] separator_free(fs[j].0) && separator_free(fs[j].1)
}

/// Whether no field name or value of the records holds a separator.
pub open spec fn records_separator_free(ds: Seq<Seq<(Seq<char>, Seq<char>)>>) -> bool {
    forall|i: int| 0 <= i < ds.len() ==> #[trigger] fields_separator_free(ds[i])
}

/// The records of shard buffers read as well-formed UTF-8.
pub open spec fn decoded_shards_records(buffers: Seq<Seq<u8>>) -> Seq<Seq<(Seq<char>, Seq<char>)>>
    decreases buffers.len(),
{
    if buffers.len() == 0 {
        seq![]
    } else {
        decoded_shards_records(buffers.drop_last()) + text_records(decode_utf8(buffers.last()))
    }
}

proof fn lemma_encode_concat(a: Seq<char>, b: Seq<char>)
    ensures
        encode_utf8(a + b) == encode_utf8(a) + encode_utf8(b),
    decreases a.len(),
{
    if a.len() == 0 {
        assert(a + b == b);
    } else {
        assert((a + b).drop_first() == a.drop_first() + b);
        lemma_encode_concat(a.drop_first(), b);
        assert((a + b)[0] == a[0]);
    }
}

proof fn lemma_encode_separators()
    ensures
        encode_utf8(seq!['\u{1F}']) == seq![0x1Fu8],
        encode_utf8(seq!['\u{1E}']) == seq![0x1Eu8],
{
    assert(0x1Fu32 & 0x7F == 0x1F) by (bit_vector);
    assert(0x1Eu32 & 0x7F == 0x1E) by (bit_vector);
    assert(seq!['\u{1F}'].drop_first() =~= Seq::<char>::empty());
    assert(seq!['\u{1E}'].drop_first() =~= Seq::<char>::empty());
    assert(('\u{1F}' as u32) == 0x1F);
    assert(('\u{1E}' as u32) == 0x1E);
    assert(encode_utf8(Seq::<char>::empty()) =~= Seq::<u8>::empty());
    assert(seq!['\u{1F}'][0] == '\u{1F}');
    assert(seq!['\u{1E}'][0] == '\u{1E}');
    assert(encode_utf8(seq!['\u{1F}']) =~= seq![0x1Fu8]);
    assert(encode_utf8(seq!['\u{1E}']) =~= seq![0x1Eu8]);
}

proof fn lemma_split_on_append_free(a: Seq<char>, b: Seq<char>, sep: char)
    requires
        !b.contains(sep),
    ensures
        split_on(a + b, sep) == split_on(a, sep).update(
            split_on(a, sep).len() - 1,
            split_on(a, sep).last() + b,
        ),
        split_on(a + b, sep).len() == split_on(a, sep).len(),
    decreases b.len(),
{
    lemma_split_on_nonempty(a, sep);
    let p = split_on(a, sep);
    if b.len() == 0 {
        assert(a + b == a);
        assert(p.update(p.len() - 1, p.last() + b) =~= p);
    } else {
        let b2 = b.drop_last();
        assert(!b2.contains(sep)) by {
            if b2.contains(sep) {
                let i = choose|i: int| 0 <= i < b2.len() && b2[i] == sep;
                assert(b[i] == sep);
            }
        }
        lemma_split_on_append_free(a, b2, sep);
        assert((a + b).drop_last() == a + b2);
        assert((a + b).last() == b.last());
        assert(b.last() != sep) by {
            assert(b[b.len() - 1] == b.last());
        }
        let q = split_on(a + b2, sep);
        let x = (p.last() + b2).push(b.last());
        assert(x =~= p.last() + b);
        assert(q.last() == p.last() + b2);
        assert(q.update(q.len() - 1, x) =~= p.update(p.len() - 1, x));
    }
}

/// The bytes of each shard of a layout.
pub open spec fn layout_buffers(layout: Seq<(Seq<Seq<char>>, Seq<u8>)>) -> Seq<Seq<u8>> {
    layout.map_values(|c: (Seq<Seq<char>>, Seq<u8>)| c.1)
}

/// The number of records already in closed shards after sharding `ds`.
pub open spec fn open_shard_start(ds: Seq<Seq<(Seq<char>, Seq<char>)>>, capacity: usize) -> int
    decreases ds.len(),
{
    if ds.len() == 0 {
        0
    } else {
        let prev = sharding_run(ds.drop_last(), capacity);
        if (prev.buffer + record_bytes(ds.last())).len() >= capacity {
            ds.len() as int
        } else {
            open_shard_start(ds.drop_last(), capacity)
        }
    }
}

proof fn lemma_split_on_push_sep(a: Seq<char>, sep: char)
    ensures
        split_on(a.push(sep), sep) == split_on(a, sep).push(seq![]),
{
    assert(a.push(sep).drop_last() =~= a);
    assert(a.push(sep).last() == sep);
}

proof fn lemma_pair_bytes(f: (Seq<char>, Seq<char>))
    ensures
        pair_bytes(f) == encode_utf8(pair_text(f)),
{
    lemma_encode_separators();
    lemma_encode_concat(f.0, seq!['\u{1F}']);
    lemma_encode_concat(f.0 + seq!['\u{1F}'], f.1);
}

proof fn lemma_joined_bytes(r: Seq<(Seq<char>, Seq<char>)>)
    ensures
        joined_pair_bytes(r) == encode_utf8(joined_pair_text(r)),
    decreases r.len(),
{
    if r.len() == 0 {
        assert(encode_utf8(seq![]) =~= Seq::<u8>::empty());
    } else if r.len() == 1 {
        lemma_pair_bytes(r[0]);
    } else {
        lemma_joined_bytes(r.drop_last());
        lemma_pair_bytes(r.last());
        lemma_encode_separators();
        let t = joined_pair_text(r.drop_last());
        lemma_encode_concat(t, seq!['\u{1F}']);
        lemma_encode_concat(t + seq!['\u{1F}'], pair_text(r.last()));
    }
}

proof fn lemma_record_bytes_text(r: Seq<(Seq<char>, Seq<char>)>)
    ensures
        record_bytes(r) == encode_utf8(record_text(r)),
{
    if r.len() == 0 {
        assert(encode_utf8(seq![]) =~= Seq::<u8>::empty());
    } else {
        lemma_joined_bytes(r);
        lemma_encode_separators();
        lemma_encode_concat(joined_pair_text(r), seq!['\u{1E}']);
    }
}

proof fn lemma_all_record_bytes_text(ds: Seq<Seq<(Seq<char>, Seq<char>)>>)
    ensures
        all_record_bytes(ds) == encode_utf8(records_text(ds)),
    decreases ds.len(),
{
    if ds.len() == 0 {
        assert(encode_utf8(seq![]) =~= Seq::<u8>::empty());
    } else {
        lemma_all_record_bytes_text(ds.drop_last());
        lemma_record_bytes_text(ds.last());
        lemma_encode_concat(records_text(ds.drop_last()), record_text(ds.last()));
    }
}

proof fn lemma_free_concat(a: Seq<char>, b: Seq<char>, c: char)
    requires
        !a.contains(c),
        !b.contains(c),
    ensures
        !(a + b).contains(c),
{
    if (a + b).contains(c) {
        let i = choose|i: int| 0 <= i < (a + b).len() && (a + b)[i] == c;
        if i < a.len() {
            assert(a[i] == c);
        } else {
            assert(b[i - a.len()] == c);
        }
    }
}

proof fn lemma_joined_text_free(r: Seq<(Seq<char>, Seq<char>)>)
    requires
        fields_separator_free(r),
    ensures
        !joined_pair_text(r).contains('\u{1E}'),
        r.len() > 0 ==> joined_pair_text(r).len() > 0,
    decreases r.len(),
{
    let rs = '\u{1E}';
    let us = '\u{1F}';
    assert(!seq![us].contains(rs)) by {
        if seq![us].contains(rs) {
            let i = choose|i: int| 0 <= i < 1 && seq![us][i] == rs;
        }
    }
    if r.len() > 0 {
        let last = r.len() - 1;
        assert(separator_free(r[last].0) && separator_free(r[last].1));
        let f = r.last();
        lemma_free_concat(f.0, seq![us], rs);
        lemma_free_concat(f.0 + seq![us], f.1, rs);
        if r.len() > 1 {
            let d = r.drop_last();
            assert forall|j: int| 0 <= j < d.len() implies #[trigger] separator_free(d[j].0) && separator_free(d[j].1) by {
                assert(d[j] == r[j]);
            }
            lemma_joined_text_free(d);
            lemma_free_concat(joined_pair_text(d), seq![us], rs);
            lemma_free_concat(joined_pair_text(d) + seq![us], pair_text(f), rs);
        } else {
            assert(r[0] == f);
        }
    }
}

proof fn lemma_split_records(ds: Seq<Seq<(Seq<char>, Seq<char>)>>)
    requires
        records_separator_free(ds),
    ensures
        split_on(records_text(ds), '\u{1E}') == nonempty_records(ds).map_values(
            |r: Seq<(Seq<char>, Seq<char>)>| joined_pair_text(r),
        ).push(seq![]),
    decreases ds.len(),
{
    let rs = '\u{1E}';
    if ds.len() == 0 {
        assert(split_on(seq![], rs) == seq![Seq::<char>::empty()]);
        assert(nonempty_records(ds).map_values(|r: Seq<(Seq<char>, Seq<char>)>| joined_pair_text(r)).push(seq![])
            =~= seq![Seq::<char>::empty()]);
    } else {
        let d = ds.drop_last();
        let r = ds.last();
        assert forall|i: int| 0 <= i < d.len() implies #[trigger] fields_separator_free(d[i]) by {
            assert(d[i] == ds[i]);
        }
        lemma_split_records(d);
        let t = records_text(d);
        let pd = nonempty_records(d).map_values(|r: Seq<(Seq<char>, Seq<char>)>| joined_pair_text(r));
        if r.len() == 0 {
            assert(records_text(ds) =~= t);
        } else {
            assert(fields_separator_free(ds[ds.len() - 1]));
            lemma_joined_text_free(r);
            let jt = joined_pair_text(r);
            lemma_split_on_append_free(t, jt, rs);
            assert(split_on(t + jt, rs) =~= pd.push(jt));
            assert(records_text(ds) =~= (t + jt).push(rs));
            lemma_split_on_push_sep(t + jt, rs);
            assert(nonempty_records(ds).map_values(|r: Seq<(Seq<char>, Seq<char>)>| joined_pair_text(r)) =~= pd.push(jt));
        }
    }
}

proof fn lemma_split_pairs(r: Seq<(Seq<char>, Seq<char>)>)
    requires
        fields_separator_free(r),
        r.len() > 0,
    ensures
        split_on(joined_pair_text(r), '\u{1F}') == pair_parts(r),
    decreases r.len(),
{
    let us = '\u{1F}';
    let last = r.len() - 1;
    assert(separator_free(r[last].0) && separator_free(r[last].1));
    let f = r.last();
    assert(!f.0.contains(us) && !f.1.contains(us));
    let prefix = if r.len() == 1 { Seq::<char>::empty() } else { joined_pair_text(r.drop_last()) + seq![us] };
    let before = if r.len() == 1 { Seq::<Seq<char>>::empty() } else { pair_parts(r.drop_last()) };
    if r.len() == 1 {
        assert(split_on(prefix, us) == seq![Seq::<char>::empty()]);
        assert(split_on(prefix, us) =~= before.push(seq![]));
    } else {
        let d = r.drop_last();
        assert forall|j: int| 0 <= j < d.len() implies #[trigger] separator_free(d[j].0) && separator_free(d[j].1) by {
            assert(d[j] == r[j]);
        }
        lemma_split_pairs(d);
        assert(prefix =~= joined_pair_text(d).push(us));
        lemma_split_on_push_sep(joined_pair_text(d), us);
    }
    // prefix + field
    lemma_split_on_append_free(prefix, f.0, us);
    assert(split_on(prefix + f.0, us) =~= before.push(f.0));
    // ... + unit separator
    lemma_split_on_push_sep(prefix + f.0, us);
    assert((prefix + f.0).push(us) =~= prefix + f.0 + seq![us]);
    // ... + value
    lemma_split_on_append_free(prefix + f.0 + seq![us], f.1, us);
    assert(split_on(prefix + f.0 + seq![us] + f.1, us) =~= before.push(f.0).push(f.1));
    if r.len() == 1 {
        assert(joined_pair_text(r) == pair_text(r[0]));
        assert(r[0] == f);
        assert(prefix + f.0 + seq![us] + f.1 =~= pair_text(f));
    } else {
        assert(joined_pair_text(r) =~= prefix + f.0 + seq![us] + f.1);
    }
    assert(before.push(f.0).push(f.1) =~= pair_parts(r)) by {
        assert forall|i: int| 0 <= i < 2 * r.len() implies #[trigger] before.push(f.0).push(f.1)[i] == pair_parts(r)[i] by {
            if i < 2 * r.len() - 2 {
                assert(i / 2 < r.len() - 1);
                assert(r.drop_last()[i / 2] == r[i / 2]);
            } else if i == 2 * r.len() - 2 {
                assert(i / 2 == r.len() - 1);
            } else {
                assert(i / 2 == r.len() - 1);
            }
        }
    }
}

proof fn lemma_piece_record_parts(r: Seq<(Seq<char>, Seq<char>)>, m: nat)
    requires
        distinct_fields(r),
        m <= r.len(),
    ensures
        piece_record_upto(pair_parts(r), m) == r.take(m as int),
    decreases m,
{
    if m == 0 {
        assert(r.take(0) =~= Seq::<(Seq<char>, Seq<char>)>::empty());
    } else {
        lemma_piece_record_parts(r, (m - 1) as nat);
        let p = r.take(m - 1);
        let parts = pair_parts(r);
        let k = m - 1;
        assert(parts[2 * k] == r[k].0);
        assert(parts[2 * k + 1] == r[k].1);
        assert forall|j: int| 0 <= j < p.len() implies #[trigger] p[j].0 != r[k].0 by {
            assert(p[j] == r[j]);
            if r[j].0 == r[k].0 {
                assert(j == k);
            }
        }
        lemma_key_position_none(p, r[k].0);
        assert(p.push((r[k].0, r[k].1)) =~= r.take(m as int));
    }
}

proof fn lemma_piece_record_joined(r: Seq<(Seq<char>, Seq<char>)>)
    requires
        fields_separator_free(r),
        distinct_fields(r),
        r.len() > 0,
    ensures
        piece_record(joined_pair_text(r)) == r,
{
    lemma_split_pairs(r);
    assert(pair_parts(r).len() / 2 == r.len());
    lemma_piece_record_parts(r, r.len());
    assert(r.take(r.len() as int) =~= r);
}

proof fn lemma_pieces_records_joined(ds: Seq<Seq<(Seq<char>, Seq<char>)>>)
    requires
        records_separator_free(ds),
        records_distinct_fields(ds),
    ensures
        pieces_records(nonempty_records(ds).map_values(|r: Seq<(Seq<char>, Seq<char>)>| joined_pair_text(r)))
            == nonempty_records(ds),
    decreases ds.len(),
{
    if ds.len() == 0 {
        assert(nonempty_records(ds).map_values(|r: Seq<(Seq<char>, Seq<char>)>| joined_pair_text(r))
            =~= Seq::<Seq<char>>::empty());
    } else {
        let d = ds.drop_last();
        let r = ds.last();
        assert forall|i: int| 0 <= i < d.len() implies #[trigger] fields_separator_free(d[i]) && distinct_fields(d[i]) by {
            assert(d[i] == ds[i]);
            assert(fields_separator_free(ds[i]));
            assert(distinct_fields(ds[i]));
        }
        lemma_pieces_records_joined(d);
        if r.len() > 0 {
            assert(fields_separator_free(ds[ds.len() - 1]));
            assert(distinct_fields(ds[ds.len() - 1]));
            lemma_piece_record_joined(r);
            lemma_joined_text_free(r);
            let pd = nonempty_records(d).map_values(|r: Seq<(Seq<char>, Seq<char>)>| joined_pair_text(r));
            let pieces = nonempty_records(ds).map_values(|r: Seq<(Seq<char>, Seq<char>)>| joined_pair_text(r));
            assert(pieces =~= pd.push(joined_pair_text(r)));
            assert(pieces.drop_last() =~= pd);
            assert(pieces.last() == joined_pair_text(r));
        }
    }
}

/// Reading back stored text: the text of stored records (none of whose
/// field names or values holds a separator, none naming a field twice)
/// reads back as the records, in order; a record without pairs leaves no
/// trace.
pub proof fn lemma_text_records_of_records(ds: Seq<Seq<(Seq<char>, Seq<char>)>>)
    requires
        records_separator_free(ds),
        records_distinct_fields(ds),
    ensures
        text_records(records_text(ds)) == nonempty_records(ds),
{
    lemma_split_records(ds);
    lemma_pieces_records_joined(ds);
    let pieces = nonempty_records(ds).map_values(|r: Seq<(Seq<char>, Seq<char>)>| joined_pair_text(r));
    let empty = Seq::<char>::empty();
    assert(pieces.push(empty).drop_last() =~= pieces);
    assert(pieces.push(empty).last() == empty);
}

proof fn lemma_nonempty_concat(a: Seq<Seq<(Seq<char>, Seq<char>)>>, b: Seq<Seq<(Seq<char>, Seq<char>)>>)
    ensures
        nonempty_records(a + b) == nonempty_records(a) + nonempty_records(b),
    decreases b.len(),
{
    if b.len() == 0 {
        assert(a + b =~= a);
        assert(nonempty_records(a) + nonempty_records(b) =~= nonempty_records(a));
    } else {
        lemma_nonempty_concat(a, b.drop_last());
        assert((a + b).drop_last() =~= a + b.drop_last());
        assert((a + b).last() == b.last());
        assert(nonempty_records(a + b) =~= nonempty_records(a) + nonempty_records(b));
    }
}

proof fn lemma_no_bytes_no_records(ds: Seq<Seq<(Seq<char>, Seq<char>)>>)
    requires
        all_record_bytes(ds).len() == 0,
    ensures
        nonempty_records(ds).len() == 0,
    decreases ds.len(),
{
    if ds.len() > 0 {
        lemma_no_bytes_no_records(ds.drop_last());
        assert(record_bytes(ds.last()).len() == 0);
    }
}

proof fn lemma_separator_rules_sub(ds: Seq<Seq<(Seq<char>, Seq<char>)>>, lo: int, hi: int)
    requires
        records_separator_free(ds),
        records_distinct_fields(ds),
        0 <= lo <= hi <= ds.len(),
    ensures
        records_separator_free(ds.subrange(lo, hi)),
        records_distinct_fields(ds.subrange(lo, hi)),
{
    let s = ds.subrange(lo, hi);
    assert forall|i: int| 0 <= i < s.len() implies #[trigger] fields_separator_free(s[i]) && distinct_fields(s[i]) by {
        assert(s[i] == ds[i + lo]);
        assert(fields_separator_free(ds[i + lo]));
        assert(distinct_fields(ds[i + lo]));
    }
}

proof fn lemma_block_reads_back(block: Seq<Seq<(Seq<char>, Seq<char>)>>)
    requires
        records_separator_free(block),
        records_distinct_fields(block),
    ensures
        valid_utf8(all_record_bytes(block)),
        text_records(decode_utf8(all_record_bytes(block))) == nonempty_records(block),
{
    broadcast use vstd::utf8::encode_utf8_valid_utf8, vstd::utf8::encode_utf8_decode_utf8;
    lemma_all_record_bytes_text(block);
    lemma_text_records_of_records(block);
}

proof fn lemma_sharding_run_blocks(ds: Seq<Seq<(Seq<char>, Seq<char>)>>, capacity: usize)
    requires
        records_separator_free(ds),
        records_distinct_fields(ds),
    ensures
        0 <= open_shard_start(ds, capacity) <= ds.len(),
        sharding_run(ds, capacity).buffer == all_record_bytes(ds.skip(open_shard_start(ds, capacity))),
        forall|i: int| 0 <= i < sharding_run(ds, capacity).closed.len() ==> valid_utf8(#[trigger] sharding_run(ds, capacity).closed[i].1),
        decoded_shards_records(layout_buffers(sharding_run(ds, capacity).closed)) == nonempty_records(
            ds.take(open_shard_start(ds, capacity)),
        ),
    decreases ds.len(),
{
    if ds.len() == 0 {
        assert(ds.skip(0) =~= ds);
        assert(ds.take(0) =~= ds);
        assert(layout_buffers(sharding_run(ds, capacity).closed) =~= Seq::<Seq<u8>>::empty());
    } else {
        let d = ds.drop_last();
        let r = ds.last();
        lemma_separator_rules_sub(ds, 0, ds.len() - 1);
        assert(d =~= ds.subrange(0, ds.len() - 1));
        lemma_sharding_run_blocks(d, capacity);
        let prev = sharding_run(d, capacity);
        let s0 = open_shard_start(d, capacity);
        let st = sharding_run(ds, capacity);
        let buffer = prev.buffer + record_bytes(r);
        assert(ds.skip(s0) =~= d.skip(s0).push(r));
        assert(all_record_bytes(ds.skip(s0)) == buffer) by {
            assert(ds.skip(s0).drop_last() =~= d.skip(s0));
            assert(ds.skip(s0).last() == r);
        }
        if buffer.len() >= capacity {
            let block = ds.skip(s0);
            lemma_separator_rules_sub(ds, s0, ds.len() as int);
            assert(block =~= ds.subrange(s0, ds.len() as int));
            lemma_block_reads_back(block);
            assert(st.closed == prev.closed.push((with_new_keys(prev.keys, r), buffer)));
            assert(layout_buffers(st.closed) =~= layout_buffers(prev.closed).push(buffer));
            assert(layout_buffers(st.closed).drop_last() =~= layout_buffers(prev.closed));
            assert forall|i: int| 0 <= i < st.closed.len() implies valid_utf8(#[trigger] st.closed[i].1) by {
                if i < prev.closed.len() {
                    assert(st.closed[i] == prev.closed[i]);
                }
            }
            assert(ds.take(s0) =~= d.take(s0));
            assert(ds =~= ds.take(s0) + block);
            lemma_nonempty_concat(ds.take(s0), block);
            assert(ds.take(ds.len() as int) =~= ds);
            assert(ds.skip(ds.len() as int) =~= Seq::<Seq<(Seq<char>, Seq<char>)>>::empty());
        } else {
            assert(ds.take(s0) =~= d.take(s0));
        }
    }
}

/// What a read gives back of a write: when records are sharded (none of
/// their field names or values holding a separator, none naming a field
/// twice), every shard's bytes are well-formed UTF-8, and decoding the
/// shards, shard after shard, gives back the records, whole and in order
/// (a record without pairs leaves no trace).
pub proof fn lemma_shards_read_back(ds: Seq<Seq<(Seq<char>, Seq<char>)>>, capacity: usize)
    requires
        records_separator_free(ds),
        records_distinct_fields(ds),
    ensures
        forall|i: int| 0 <= i < shard_layout(ds, capacity).len() ==> valid_utf8(#[trigger] shard_layout(ds, capacity)[i].1),
        decoded_shards_records(layout_buffers(shard_layout(ds, capacity))) == nonempty_records(ds),
{
    lemma_sharding_run_blocks(ds, capacity);
    let st = sharding_run(ds, capacity);
    let s0 = open_shard_start(ds, capacity);
    let layout = shard_layout(ds, capacity);
    let block = ds.skip(s0);
    lemma_separator_rules_sub(ds, s0, ds.len() as int);
    assert(block =~= ds.subrange(s0, ds.len() as int));
    lemma_block_reads_back(block);
    assert(ds =~= ds.take(s0) + block);
    lemma_nonempty_concat(ds.take(s0), block);
    if st.buffer.len() > 0 {
        assert(layout_buffers(layout) =~= layout_buffers(st.closed).push(st.buffer));
        assert(layout_buffers(layout).drop_last() =~= layout_buffers(st.closed));
        assert forall|i: int| 0 <= i < layout.len() implies valid_utf8(#[trigger] layout[i].1) by {
            if i < st.closed.len() {
                assert(layout[i] == st.closed[i]);
            }
        }
    } else {
        lemma_no_bytes_no_records(block);
        assert(nonempty_records(ds) =~= nonempty_records(ds.take(s0)));
    }
}

/// Stored shards read back: shards stored with the layout of a data set
/// (none of whose field names or values holds a separator, no record naming
/// a field twice) decode, shard after shard, into the data set's records,
/// whole and in order.
pub proof fn lemma_stored_shards_read_back(added: Seq<ShardView>, ds: Seq<Seq<(Seq<char>, Seq<char>)>>, capacity: usize)
    requires
        has_layout(added, shard_layout(ds, capacity)),
        records_separator_free(ds),
        records_distinct_fields(ds),
    ensures
        forall|i: int| 0 <= i < added.len() ==> valid_utf8(#[trigger] shard_buffers(added)[i]),
        decoded_shards_records(shard_buffers(added)) == nonempty_records(ds),
{
    let layout = shard_layout(ds, capacity);
    lemma_shards_read_back(ds, capacity);
    assert forall|i: int| 0 <= i < added.len() implies #[trigger] shard_buffers(added)[i] == layout_buffers(layout)[i] by {
        assert(added[i].mapping == qubit_mapping(layout[i].0));
    }
    assert(shard_buffers(added) =~= layout_buffers(layout));
    assert forall|i: int| 0 <= i < added.len() implies valid_utf8(#[trigger] shard_buffers(added)[i]) by {
        assert(shard_buffers(added)[i] == layout[i].1);
    }
}

/// Loading then reading a new collection: once records (none of whose field
/// names or values holds a separator, none naming a field twice) are
/// sharded into a collection that did not exist, the collection's shards
/// decode into the records, whole and in order.
pub proof fn lemma_load_then_read_back(
    c: Seq<(Seq<char>, Seq<ShardView>)>,
    name: Seq<char>,
    added: Seq<ShardView>,
    ds: Seq<Seq<(Seq<char>, Seq<char>)>>,
    capacity: usize,
)
    requires
        stored_shards(c, name) is None,
        has_layout(added, shard_layout(ds, capacity)),
        records_separator_free(ds),
        records_distinct_fields(ds),
    ensures
        stored_shards(after_ingest(c, name, added), name) == Some(added),
        forall|i: int| 0 <= i < added.len() ==> valid_utf8(#[trigger] shard_buffers(added)[i]),
        decoded_shards_records(shard_buffers(added)) == nonempty_records(ds),
{
    crate::storage::qram::lemma_stored_after_ingest(c, name, added, name);
    lemma_stored_shards_read_back(added, ds, capacity);
}

/// Each character list viewed.
pub open spec fn char_lists_view(v: Seq<Vec<char>>) -> Seq<Seq<char>> {
    v.map_values(|c: Vec<char>| c@)
}

/// Splits characters at each separator.
pub fn split_chars(cs: &Vec<char>, sep: char) -> (parts: Vec<Vec<char>>)
    ensures
        char_lists_view(parts@) == split_on(cs@, sep),
{
    let mut done: Vec<Vec<char>> = Vec::new();
    let mut cur: Vec<char> = Vec::new();
    let mut i: usize = 0;
    while i < cs.len()
        invariant
            i <= cs@.len(),
            char_lists_view(done@).push(cur@) == split_on(cs@.take(i as int), sep),
        decreases cs@.len() - i,
    {
        let ghost before = char_lists_view(done@).push(cur@);
        assert(cs@.take(i + 1).drop_last() == cs@.take(i as int));
        assert(cs@.take(i + 1).last() == cs@[i as int]);
        proof { lemma_split_on_nonempty(cs@.take(i as int), sep); }
        if cs[i] == sep {
            let finished = cur;
            let ghost d0 = done@;
            done.push(finished);
            assert(char_lists_view(done@) =~= char_lists_view(d0).push(finished@));
            cur = Vec::new();
            assert(char_lists_view(done@).push(cur@) =~= before.push(seq![]));
        } else {
            cur.push(cs[i]);
            assert(char_lists_view(done@).push(cur@) =~= before.update(before.len() - 1, before.last().push(cs@[i as int])));
        }
        i += 1;
    }
    assert(cs@.take(cs@.len() as int) == cs@);
    let ghost d0 = done@;
    done.push(cur);
    assert(char_lists_view(done@) =~= char_lists_view(d0).push(cur@));
    done
}

fn set_field(fields: &mut Record, key: String, value: String)
    ensures
        record_view(final(fields)@) == insert_field(record_view(old(fields)@), key@, value@),
{
    let ghost fv = record_view(fields@);
    let mut i: usize = 0;
    while i < fields.len()
        invariant
            i <= fields@.len(),
            fv == record_view(fields@),
            fields@ == old(fields)@,
            forall|j: int| 0 <= j < i ==> #[trigger] fv[j].0 != key@,
        decreases fields@.len() - i,
    {
        if fields[i].0 == key {
            proof { lemma_key_position_first(fv, key@, i as int); }
            fields.set(i, (key, value));
            assert(record_view(fields@) =~= fv.update(i as int, (key@, value@)));
            return;
        }
        i += 1;
    }
    proof { lemma_key_position_none(fv, key@); }
    fields.push((key, value));
    assert(record_view(fields@) =~= fv.push((key@, value@)));
}

fn piece_to_record(piece: &Vec<char>) -> (r: Record)
    ensures
        record_view(r@) == piece_record(piece@),
{
    let parts = split_chars(piece, UNIT_SEPARATOR);
    let ghost pv = char_lists_view(parts@);
    let pairs = parts.len() / 2;
    let mut rec: Record = Vec::new();
    let mut k: usize = 0;
    while k < pairs
        invariant
            k <= pairs,
            pairs == pv.len() / 2,
            pv == char_lists_view(parts@),
            pv.len() == parts@.len(),
            parts@.len() <= usize::MAX,
            record_view(rec@) == piece_record_upto(pv, k as nat),
        decreases pairs - k,
    {
        let key = string_from_chars(parts[2 * k].as_slice());
        let value = string_from_chars(parts[2 * k + 1].as_slice());
        set_field(&mut rec, key, value);
        k += 1;
    }
    rec
}

fn text_to_records(text: &String) -> (r: Vec<Record>)
    ensures
        dataset_view(r@) == text_records(text@),
{
    let cs = chars_of(text.as_str());
    let pieces = split_chars(&cs, RECORD_SEPARATOR);
    let ghost pv = char_lists_view(pieces@);
    let mut out: Vec<Record> = Vec::new();
    let mut i: usize = 0;
    while i < pieces.len()
        invariant
            i <= pieces@.len(),
            pv == char_lists_view(pieces@),
            dataset_view(out@) == pieces_records(pv.take(i as int)),
        decreases pieces@.len() - i,
    {
        assert(pv.take(i + 1).drop_last() == pv.take(i as int));
        assert(pv.take(i + 1).last() == pieces@[i as int]@);
        if pieces[i].len() > 0 {
            let rec = piece_to_record(&pieces[i]);
            if rec.len() > 0 {
                let ghost before = out@;
                out.push(rec);
                assert(dataset_view(out@) =~= dataset_view(before).push(record_view(rec@)));
            }
        }
        i += 1;
    }
    assert(pv.take(pv.len() as int) == pv);
    out
}

/// The records held in shards: each shard's bytes are decoded as text, cut
/// at record separators, and each non-empty piece becomes a record of its
/// (field, value) pairs.
pub fn decode_shard_records(shards: &Vec<QuantumShard>) -> (r: Vec<Record>)
    ensures
        dataset_view(r@) == shards_records(shard_buffers(shards_view(shards@))),
        (forall|i: int| 0 <= i < shards@.len() ==> valid_utf8(#[trigger] shard_buffers(shards_view(shards@))[i]))
            ==> dataset_view(r@) == decoded_shards_records(shard_buffers(shards_view(shards@))),
{
    let ghost bufs = shard_buffers(shards_view(shards@));
    let mut out: Vec<Record> = Vec::new();
    let mut i: usize = 0;
    while i < shards.len()
        invariant
            i <= shards@.len(),
            bufs == shard_buffers(shards_view(shards@)),
            dataset_view(out@) == shards_records(bufs.take(i as int)),
            (forall|j: int| 0 <= j < i ==> valid_utf8(#[trigger] bufs[j])) ==> dataset_view(out@) == decoded_shards_records(bufs.take(i as int)),
        decreases shards@.len() - i,
    {
        assert(bufs.take(i + 1).drop_last() == bufs.take(i as int));
        assert(bufs.take(i + 1).last() == shards@[i as int].dense_buffer@);
        let text = utf8_lossy(shards[i].dense_buffer.as_slice());
        let mut recs = text_to_records(&text);
        let ghost before = out@;
        let ghost added = recs@;
        out.append(&mut recs);
        assert(dataset_view(out@) =~= dataset_view(before) + dataset_view(added));
        proof {
            if forall|j: int| 0 <= j < i + 1 ==> valid_utf8(#[trigger] bufs[j]) {
                assert(valid_utf8(bufs[i as int]));
                assert(forall|j: int| 0 <= j < i ==> valid_utf8(#[trigger] bufs[j]));
            }
        }
        i += 1;
    }
    assert(bufs.take(bufs.len() as int) == bufs);
    out
}

/// The records at the given positions, in order (positions past the end are skipped).
pub open spec fn select_records(
    ds: Seq<Seq<(Seq<char>, Seq<char>)>>,
    positions: Seq<usize>,
) -> Seq<Seq<(Seq<char>, Seq<char>)>>
    decreases positions.len(),
{
    if positions.len() == 0 {
        seq![]
    } else if positions.last() < ds.len() {
        select_records(ds, positions.drop_last()).push(ds[positions.last() as int])
    } else {
        select_records(ds, positions.drop_last())
    }
}

proof fn lemma_select_in_range(ds: Seq<Seq<(Seq<char>, Seq<char>)>>, positions: Seq<usize>)
    requires
        forall|k: int| 0 <= k < positions.len() ==> #[trigger] positions[k] < ds.len(),
    ensures
        select_records(ds, positions).len() == positions.len(),
        forall|k: int| 0 <= k < positions.len() ==> #[trigger] select_records(ds, positions)[k] == ds[positions[k] as int],
    decreases positions.len(),
{
    if positions.len() > 0 {
        let p = positions.drop_last();
        assert forall|k: int| 0 <= k < p.len() implies #[trigger] p[k] < ds.len() by {
            assert(p[k] == positions[k]);
        }
        lemma_select_in_range(ds, p);
        assert(positions.last() == positions[positions.len() - 1]);
        assert forall|k: int| 0 <= k < positions.len() implies #[trigger] select_records(ds, positions)[k] == ds[positions[k] as int] by {
            if k < p.len() {
                assert(p[k] == positions[k]);
            }
        }
    }
}

/// Every record a query returns holds the queried value in the queried
/// field: the results are the matching records, one per match, in order.
pub proof fn lemma_query_results_match(ds: Seq<Seq<(Seq<char>, Seq<char>)>>, field: Seq<char>, value: Seq<char>)
    requires
        ds.len() <= usize::MAX,
    ensures
        select_records(ds, matching_indices(ds, field, value)).len() == matching_indices(ds, field, value).len(),
        forall|k: int| 0 <= k < matching_indices(ds, field, value).len() ==> #[trigger] select_records(ds, matching_indices(ds, field, value))[k] == ds[matching_indices(ds, field, value)[k] as int]
            && lookup(select_records(ds, matching_indices(ds, field, value))[k], field) == Some(value),
{
    lemma_matching_indices_exact(ds, field, value);
    let hits = matching_indices(ds, field, value);
    assert forall|k: int| 0 <= k < hits.len() implies #[trigger] hits[k] < ds.len() by {
        let i = hits[k];
    }
    lemma_select_in_range(ds, hits);
}

/// Copies of the records at the given positions.
pub fn collect_records(dataset: &Vec<Record>, positions: &Vec<usize>) -> (r: Vec<Record>)
    ensures
        dataset_view(r@) == select_records(dataset_view(dataset@), positions@),
{
    let mut out: Vec<Record> = Vec::new();
    let mut i: usize = 0;
    while i < positions.len()
        invariant
            i <= positions@.len(),
            dataset_view(out@) == select_records(dataset_view(dataset@), positions@.take(i as int)),
        decreases positions@.len() - i,
    {
        assert(positions@.take(i + 1).drop_last() == positions@.take(i as int));
        let idx = positions[i];
        if idx < dataset.len() {
            let rec = copy_record(&dataset[idx]);
            let ghost before = out@;
            out.push(rec);
            assert(dataset_view(out@) =~= dataset_view(before).push(record_view(rec@)));
        }
        i += 1;
    }
    assert(positions@.take(positions@.len() as int) == positions@);
    out
}

/// The engine: sharded storage and the search kernel.
pub struct HadamardEngine {
    pub storage: HybridQramStorage,
    pub quantum_runtime: GroverSearchEngine,
}

/// A query ready to run: the parsed query, its circuit, and the records of
/// its collection.
pub struct PlannedQuery {
    pub query: QuantumQuery,
    pub circuit: QuantumCircuitPlan,
    pub dataset: Vec<Record>,
}

/// What preparing a query text against stored collections comes to.
pub open spec fn plan_outcome_holds(
    r: Result<PlannedQuery, EngineError>,
    text: Seq<char>,
    collections: Seq<(Seq<char>, Seq<ShardView>)>,
) -> bool {
    match query_outcome(text) {
        ParseOutcome::Parsed(qv) => match stored_shards(collections, qv.target_collection) {
            Some(shards) => r matches Ok(p) && p.query@ == qv && p.circuit@.required_qubits == 9
                && p.circuit@.gates == search_circuit_gates(oracle_signature(qv))
                && dataset_view(p.dataset@) == shards_records(shard_buffers(shards))
                && ((forall|i: int| 0 <= i < shards.len() ==> valid_utf8(#[trigger] shard_buffers(shards)[i]))
                    ==> dataset_view(p.dataset@) == decoded_shards_records(shard_buffers(shards))),
            None => r matches Err(EngineError::StorageFailure(StorageError::PartitionNotFound(n)))
                && n@ == qv.target_collection,
        },
        other => r matches Err(EngineError::CompilerFailure(e)) && parse_result_is(Err(e), other),
    }
}

/// The records whose `field` holds `value`, in order (a classical scan).
pub open spec fn matching_records(
    ds: Seq<Seq<(Seq<char>, Seq<char>)>>,
    field: Seq<char>,
    value: Seq<char>,
) -> Seq<Seq<(Seq<char>, Seq<char>)>>
    decreases ds.len(),
{
    if ds.len() == 0 {
        seq![]
    } else if lookup(ds.last(), field) == Some(value) {
        matching_records(ds.drop_last(), field, value).push(ds.last())
    } else {
        matching_records(ds.drop_last(), field, value)
    }
}

proof fn lemma_select_prefix(ds: Seq<Seq<(Seq<char>, Seq<char>)>>, positions: Seq<usize>, n: int)
    requires
        0 <= n <= ds.len(),
        forall|k: int| 0 <= k < positions.len() ==> #[trigger] positions[k] < n,
    ensures
        select_records(ds, positions) == select_records(ds.take(n), positions),
    decreases positions.len(),
{
    if positions.len() > 0 {
        let p = positions.drop_last();
        assert forall|k: int| 0 <= k < p.len() implies #[trigger] p[k] < n by {
            assert(p[k] == positions[k]);
        }
        lemma_select_prefix(ds, p, n);
        assert(positions.last() == positions[positions.len() - 1]);
    }
}

/// The search finds what a classical scan finds: the records at the
/// matching positions are the matching records, in order.
pub proof fn lemma_search_is_scan(ds: Seq<Seq<(Seq<char>, Seq<char>)>>, field: Seq<char>, value: Seq<char>)
    requires
        ds.len() <= usize::MAX,
    ensures
        select_records(ds, matching_indices(ds, field, value)) == matching_records(ds, field, value),
    decreases ds.len(),
{
    if ds.len() > 0 {
        let d = ds.drop_last();
        lemma_search_is_scan(d, field, value);
        lemma_matching_indices_exact(d, field, value);
        let prev = matching_indices(d, field, value);
        assert forall|k: int| 0 <= k < prev.len() implies #[trigger] prev[k] < d.len() by {
            let i = prev[k];
        }
        lemma_select_prefix(ds, prev, d.len() as int);
        assert(ds.take(d.len() as int) =~= d);
        if lookup(ds.last(), field) == Some(value) {
            let m = prev.push((ds.len() - 1) as usize);
            assert(m.drop_last() =~= prev);
            assert(m.last() == (ds.len() - 1) as usize);
        }
    }
}

proof fn lemma_matching_nonempty(ds: Seq<Seq<(Seq<char>, Seq<char>)>>, field: Seq<char>, value: Seq<char>)
    ensures
        matching_records(nonempty_records(ds), field, value) == matching_records(ds, field, value),
    decreases ds.len(),
{
    if ds.len() > 0 {
        lemma_matching_nonempty(ds.drop_last(), field, value);
        let r = ds.last();
        let p = nonempty_records(ds.drop_last());
        if r.len() > 0 {
            assert(p.push(r).drop_last() =~= p);
            assert(p.push(r).last() == r);
        } else {
            assert(lookup(r, field) is None);
        }
    }
}

proof fn lemma_nonempty_len(ds: Seq<Seq<(Seq<char>, Seq<char>)>>)
    ensures
        nonempty_records(ds).len() <= ds.len(),
    decreases ds.len(),
{
    if ds.len() > 0 {
        lemma_nonempty_len(ds.drop_last());
    }
}

/// What a select query gives back of a load: when a query
/// `SELECT * FROM c WHERE f = 'v'` is planned against a collection `c`
/// whose shards hold the layout of records `ds` (none of whose field names
/// or values holds a separator, none naming a field twice), the planned
/// data set is the records of `ds`, whole and in order, and the search
/// selects exactly the records of `ds` whose field `f` holds `v`, in load
/// order: as many hits as a classical scan finds.
pub proof fn lemma_select_after_load(
    planned: PlannedQuery,
    collections: Seq<(Seq<char>, Seq<ShardView>)>,
    collection: Seq<char>,
    field: Seq<char>,
    value: Seq<char>,
    shards: Seq<ShardView>,
    ds: Seq<Seq<(Seq<char>, Seq<char>)>>,
    capacity: usize,
)
    requires
        plan_outcome_holds(Ok(planned), spaced(select_words(collection, field, value)), collections),
        stored_shards(collections, collection) == Some(shards),
        has_layout(shards, shard_layout(ds, capacity)),
        records_separator_free(ds),
        records_distinct_fields(ds),
        ds.len() <= usize::MAX,
        plain_word(collection),
        plain_word(field),
        no_white_space(value),
        forall|i: int| 0 <= i < value.len() ==> #[trigger] value[i] != '\'' && value[i] != '"',
    ensures
        planned.query@ == (QueryView { target_collection: collection, field, operator: QueryOperator::Equal, value }),
        dataset_view(planned.dataset@) == nonempty_records(ds),
        select_records(dataset_view(planned.dataset@), matching_indices(dataset_view(planned.dataset@), field, value))
            == matching_records(ds, field, value),
{
    lemma_parse_select(collection, field, value);
    lemma_stored_shards_read_back(shards, ds, capacity);
    lemma_nonempty_len(ds);
    lemma_search_is_scan(nonempty_records(ds), field, value);
    lemma_matching_nonempty(ds, field, value);
}

/// What running a planned query on a register of `max_qubits` comes to: a
/// circuit wider than the register is refused with both sizes; otherwise
/// the records of the data set whose queried field holds the queried value,
/// in order.
pub open spec fn run_outcome(planned: PlannedQuery, max_qubits: usize, r: Result<Vec<Record>, EngineError>) -> bool {
    let dv = dataset_view(planned.dataset@);
    if planned.circuit.required_qubits > max_qubits {
        r matches Err(EngineError::ExecutionFailure(QuantumEngineError::QubitOverflow { required, allocated }))
            && required == planned.circuit.required_qubits && allocated == max_qubits
    } else {
        r matches Ok(recs) && dataset_view(recs@) == select_records(
            dv,
            matching_indices(dv, planned.query@.field, planned.query@.value),
        )
    }
}

/// A query after a load, end to end: in storage where collection `c` did
/// not exist and then received the shards of records `ds` (none of whose
/// field names or values holds a separator, none naming a field twice),
/// planning `SELECT * FROM c WHERE f = 'v'` and running it on a register of
/// at least nine qubits gives exactly the records of `ds` whose field `f`
/// holds `v`, whole and in load order, as many as a classical scan finds.
pub proof fn lemma_query_after_load(
    planned: PlannedQuery,
    result: Result<Vec<Record>, EngineError>,
    max_qubits: usize,
    before: Seq<(Seq<char>, Seq<ShardView>)>,
    collection: Seq<char>,
    first: usize,
    ds: Seq<Seq<(Seq<char>, Seq<char>)>>,
    capacity: usize,
    field: Seq<char>,
    value: Seq<char>,
)
    requires
        stored_shards(before, collection) is None,
        plan_outcome_holds(
            Ok(planned),
            spaced(select_words(collection, field, value)),
            after_ingest(before, collection, numbered_shards(shard_layout(ds, capacity), first)),
        ),
        run_outcome(planned, max_qubits, result),
        max_qubits >= 9,
        records_separator_free(ds),
        records_distinct_fields(ds),
        ds.len() <= usize::MAX,
        plain_word(collection),
        plain_word(field),
        no_white_space(value),
        forall|i: int| 0 <= i < value.len() ==> #[trigger] value[i] != '\'' && value[i] != '"',
    ensures
        result matches Ok(recs) && dataset_view(recs@) == matching_records(ds, field, value),
{
    let shards = numbered_shards(shard_layout(ds, capacity), first);
    crate::storage::qram::lemma_stored_after_ingest(before, collection, shards, collection);
    lemma_parse_select(collection, field, value);
    lemma_select_after_load(
        planned,
        after_ingest(before, collection, shards),
        collection,
        field,
        value,
        shards,
        ds,
        capacity,
    );
}

impl HadamardEngine {
    pub fn new(shard_capacity: usize, max_qubits_supported: usize) -> (e: Self)
        ensures
            e.storage.shard_capacity == shard_capacity,
            e.storage.active_shards@.len() == 0,
            e.storage.transaction_count() == 0,
            e.quantum_runtime.max_qubits_supported == max_qubits_supported,
    {
        Self {
            storage: HybridQramStorage::new(shard_capacity),
            quantum_runtime: GroverSearchEngine::new(max_qubits_supported),
        }
    }

    /// Shards a data set into the named collection; returns the number of shards made.
    pub fn load_dataset(&mut self, collection_name: &str, dataset: Vec<Record>) -> (r: Result<usize, EngineError>)
        ensures
            final(self).storage.shard_capacity == old(self).storage.shard_capacity,
            final(self).quantum_runtime == old(self).quantum_runtime,
            ({
                let layout = shard_layout(dataset_view(dataset@), old(self).storage.shard_capacity);
                let first = old(self).storage.transaction_count();
                &&& r matches Ok(n) && n == layout.len()
                &&& collections_view(final(self).storage.active_shards@) == after_ingest(
                    collections_view(old(self).storage.active_shards@),
                    collection_name@,
                    numbered_shards(layout, first),
                )
                &&& final(self).storage.transaction_count() == counted(
                    first,
                    sharding_run(dataset_view(dataset@), old(self).storage.shard_capacity).closed.len() + 1,
                )
            }),
    {
        match self.storage.ingest_and_shard(collection_name, dataset) {
            Ok(n) => Ok(n),
            Err(e) => Err(EngineError::StorageFailure(e)),
        }
    }

    /// Parses and compiles a query, and decodes the records of its collection.
    pub fn plan_query(&self, raw_sql_query: &str) -> (r: Result<PlannedQuery, EngineError>)
        ensures
            plan_outcome_holds(r, raw_sql_query@, collections_view(self.storage.active_shards@)),
    {
        let structured_query = match QuantumCompiler::parse_query(raw_sql_query) {
            Ok(q) => q,
            Err(e) => return Err(EngineError::CompilerFailure(e)),
        };
        let circuit_plan = QuantumCompiler::compile_to_circuit(&structured_query);
        let shards = match self.storage.fetch_shard_buffers(structured_query.target_collection.as_str()) {
            Ok(s) => s,
            Err(e) => return Err(EngineError::StorageFailure(e)),
        };
        let universal_dataset = decode_shard_records(&shards);
        Ok(PlannedQuery { query: structured_query, circuit: circuit_plan, dataset: universal_dataset })
    }

    /// Runs a planned query with the amplification count planned for its
    /// data set (at least one): the records whose field holds the queried
    /// value, in order, unless the circuit is wider than the register.
    pub fn run_planned_query(&self, planned: &PlannedQuery, iterations: usize) -> (r: Result<Vec<Record>, EngineError>)
        requires
            iterations >= 1,
        ensures
            run_outcome(*planned, self.quantum_runtime.max_qubits_supported, r),
    {
        let hit_indices = match self.quantum_runtime.execute_search(
            &planned.circuit,
            planned.dataset.as_slice(),
            planned.query.field.as_str(),
            planned.query.value.as_str(),
            iterations,
        ) {
            Ok(h) => h,
            Err(e) => return Err(EngineError::ExecutionFailure(e)),
        };
        Ok(collect_records(&planned.dataset, &hit_indices))
    }
}

} // verus!
