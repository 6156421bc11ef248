//! Records: ordered lists of (field, value) pairs.
use vstd::prelude::*;
use crate::text::text_is;

verus! {

/// A record: its (field, value) pairs in order.
pub type Record = Vec<(String, String)>;

/// The characters of each field name and value of a record.
pub open spec fn record_view(r: Seq<(String, String)>) -> Seq<(Seq<char>, Seq<char>)> {
    r.map_values(|p: (String, String)| (p.0@, p.1@))
}

/// The records of a data set, each viewed.
pub open spec fn dataset_view(ds: Seq<Record>) -> Seq<Seq<(Seq<char>, Seq<char>)>> {
    ds.map_values(|r: Record| record_view(r@))
}

/// The value of the first pair whose field is `key`, if any.
pub open spec fn lookup(fields: Seq<(Seq<char>, Seq<char>)>, key: Seq<char>) -> Option<Seq<char>>
    decreases fields.len(),
{
    if fields.len() == 0 {
        None
    } else if fields[0].0 == key {
        Some(fields[0].1)
    } else {
        lookup(fields.drop_first(), key)
    }
}

/// Whether no field name occurs twice.
pub open spec fn distinct_fields(fields: Seq<(Seq<char>, Seq<char>)>) -> bool {
    forall|a: int, b: int| 0 <= a < fields.len() && 0 <= b < fields.len() && #[trigger] fields[a].0 == #[trigger] fields[b].0 ==> a == b
}

proof fn lemma_lookup_index(fields: Seq<(Seq<char>, Seq<char>)>, key: Seq<char>, i: int)
    requires
        0 <= i < fields.len(),
        fields[i].0 == key,
        forall|j: int| 0 <= j < i ==> #[trigger] fields[j].0 != key,
    ensures
        lookup(fields, key) == Some(fields[i].1),
    decreases i,
{
    if i > 0 {
        assert(fields[0].0 != key);
        lemma_lookup_index(fields.drop_first(), key, i - 1);
    }
}

proof fn lemma_lookup_none(fields: Seq<(Seq<char>, Seq<char>)>, key: Seq<char>)
    requires
        forall|j: int| 0 <= j < fields.len() ==> #[trigger] fields[j].0 != key,
    ensures
        lookup(fields, key) is None,
    decreases fields.len(),
{
    if fields.len() > 0 {
        assert(fields[0].0 != key);
        lemma_lookup_none(fields.drop_first(), key);
    }
}

/// The value stored under `key` (the first pair with that field).
pub fn record_get<'a>(record: &'a Record, key: &str) -> (r: Option<&'a String>)
    ensures
        match r {
            Some(v) => lookup(record_view(record@), key@) == Some(v@),
            None => lookup(record_view(record@), key@) is None,
        },
{
    let ghost rv = record_view(record@);
    let mut i: usize = 0;
    while i < record.len()
        invariant
            i <= record@.len(),
            rv == record_view(record@),
            forall|j: int| 0 <= j < i ==> #[trigger] rv[j].0 != key@,
        decreases record@.len() - i,
    {
        if text_is(record[i].0.as_str(), key) {
            proof { lemma_lookup_index(rv, key@, i as int); }
            return Some(&record[i].1);
        }
        i += 1;
    }
    proof { lemma_lookup_none(rv, key@); }
    None
}

/// A copy of a record.
pub fn copy_record(record: &Record) -> (r: Record)
    ensures
        record_view(r@) == record_view(record@),
{
    let mut out: Record = Vec::new();
    let mut i: usize = 0;
    while i < record.len()
        invariant
            i <= record@.len(),
            record_view(out@) == record_view(record@).take(i as int),
        decreases record@.len() - i,
    {
        let field = record[i].0.clone();
        let value = record[i].1.clone();
        let ghost before = out@;
        out.push((field, value));
        assert(out@ == before.push((field, value)));
        assert(record_view(out@) =~= record_view(before).push((field@, value@)));
        assert(record_view(out@) =~= record_view(record@).take(i + 1));
        i += 1;
    }
    assert(record_view(record@).take(record@.len() as int) =~= record_view(record@));
    out
}

} // verus!
