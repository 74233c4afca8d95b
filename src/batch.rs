//! Laying the drained table out as three parallel columns, and as an arrow
//! record batch.
use std::sync::Arc;
use arrow::array::{ArrayRef, RecordBatch, UInt64Array};
use arrow::datatypes::{DataType, Field, Schema};
use arrow::error::ArrowError;
use vstd::prelude::*;
use crate::line::StateEntry;
use crate::table::{FrequencyTable, drained_from};

verus! {

/// An arrow record batch. Verus cannot take arrow's type itself, so it stands
/// here in a field that verified code does not see; the writer reads it.
#[verifier::external_body]
pub struct Batch {
    pub record_batch: RecordBatch,
}

#[verifier::external_type_specification]
#[verifier::external_body]
pub struct ExArrowError(ArrowError);

/// The values of each column of a batch, in column order: every column is a
/// `UInt64Array` under a field of type `UInt64`.
pub uninterp spec fn batch_columns(b: Batch) -> Seq<Seq<u64>>;

/// The names of the fields of a batch's schema, in column order.
pub uninterp spec fn batch_field_names(b: Batch) -> Seq<Seq<char>>;

/// Whether each field of a batch's schema is nullable, in column order.
pub uninterp spec fn batch_field_nullable(b: Batch) -> Seq<bool>;

/// How many nulls each column of a batch holds, in column order.
pub uninterp spec fn batch_null_counts(b: Batch) -> Seq<nat>;

/// Relies on arrow's `RecordBatch::try_new`, handed a schema of three `UInt64`
/// fields with the given names and nullability, and three `UInt64Array` columns
/// built from the vectors (`From<Vec<u64>>` makes no nulls). It checks the column
/// count, nulls, lengths and types against the schema: here only the lengths can
/// differ. The batch keeps the schema and the columns as given.
#[verifier::external_body]
fn u64_batch(
    n0: &str,
    f0: bool,
    c0: Vec<u64>,
    n1: &str,
    f1: bool,
    c1: Vec<u64>,
    n2: &str,
    f2: bool,
    c2: Vec<u64>,
) -> (r: Result<Batch, ArrowError>)
    ensures
        r is Ok <==> (c0.len() == c1.len() && c1.len() == c2.len()),
        r matches Ok(b) ==> batch_columns(b) == seq![c0@, c1@, c2@],
        r matches Ok(b) ==> batch_field_names(b) == seq![n0@, n1@, n2@],
        r matches Ok(b) ==> batch_field_nullable(b) == seq![f0, f1, f2],
        r matches Ok(b) ==> batch_null_counts(b) == seq![0nat, 0nat, 0nat],
{
    let schema = Schema::new(vec![
        Field::new(n0, DataType::UInt64, f0),
        Field::new(n1, DataType::UInt64, f1),
        Field::new(n2, DataType::UInt64, f2),
    ]);
    let columns: Vec<ArrayRef> = vec![
        Arc::new(UInt64Array::from(c0)),
        Arc::new(UInt64Array::from(c1)),
        Arc::new(UInt64Array::from(c2)),
    ];
    RecordBatch::try_new(Arc::new(schema), columns).map(|record_batch| Batch { record_batch })
}

/// The three columns of the output: row `i` of each describes one table entry.
pub struct Columns {
    pub region_ids: Vec<u64>,
    pub topic_ids: Vec<u64>,
    pub values: Vec<u64>,
}

/// Row `i` of the columns is entry `i`: its region id, topic id and count.
pub open spec fn encodes(
    entries: Seq<(StateEntry, u64)>,
    region_ids: Seq<u64>,
    topic_ids: Seq<u64>,
    values: Seq<u64>,
) -> bool {
    &&& region_ids.len() == entries.len()
    &&& topic_ids.len() == entries.len()
    &&& values.len() == entries.len()
    &&& forall|i: int|
        0 <= i < entries.len() ==> {
            &&& region_ids[i] == (#[trigger] entries[i]).0.region_id
            &&& topic_ids[i] == entries[i].0.topic_id
            &&& values[i] == entries[i].1
        }
}

/// The key in row `i` of the columns.
pub open spec fn row_key(region_ids: Seq<u64>, topic_ids: Seq<u64>, i: int) -> StateEntry {
    StateEntry { region_id: region_ids[i], topic_id: topic_ids[i] }
}

/// The columns hold one row per entry of `m`: as many rows as keys, each row a
/// key of `m` with its count, no key twice, and every key of `m` in some row.
pub open spec fn columns_hold(
    m: Map<StateEntry, u64>,
    region_ids: Seq<u64>,
    topic_ids: Seq<u64>,
    values: Seq<u64>,
) -> bool {
    &&& region_ids.len() == m.dom().len()
    &&& topic_ids.len() == m.dom().len()
    &&& values.len() == m.dom().len()
    &&& forall|i: int|
        0 <= i < region_ids.len() ==> m.contains_key(#[trigger] row_key(region_ids, topic_ids, i))
            && m[row_key(region_ids, topic_ids, i)] == values[i]
    &&& forall|i: int, j: int|
        0 <= i < j < region_ids.len() ==> #[trigger] row_key(region_ids, topic_ids, i)
            != #[trigger] row_key(region_ids, topic_ids, j)
    &&& forall|e: StateEntry| #[trigger]
        m.contains_key(e) ==> exists|i: int|
            0 <= i < region_ids.len() && #[trigger] row_key(region_ids, topic_ids, i) == e
}

/// Drained entries, laid out as columns, hold one row per key of the table,
/// and each row carries that key's count.
pub proof fn lemma_drained_columns_hold_table(
    m: Map<StateEntry, u64>,
    entries: Seq<(StateEntry, u64)>,
    region_ids: Seq<u64>,
    topic_ids: Seq<u64>,
    values: Seq<u64>,
)
    requires
        drained_from(m, entries),
        encodes(entries, region_ids, topic_ids, values),
    ensures
        columns_hold(m, region_ids, topic_ids, values),
{
    assert forall|i: int| 0 <= i < region_ids.len() implies #[trigger] row_key(
        region_ids,
        topic_ids,
        i,
    ) == entries[i].0 by {}
    assert forall|e: StateEntry| #[trigger] m.contains_key(e) implies exists|i: int|
        0 <= i < region_ids.len() && #[trigger] row_key(region_ids, topic_ids, i) == e by {
        let i = choose|i: int| 0 <= i < entries.len() && #[trigger] entries[i].0 == e;
        assert(row_key(region_ids, topic_ids, i) == entries[i].0);
    }
}

/// Projects each entry onto the three columns, keeping the order of the entries.
pub fn encode(entries: &Vec<(StateEntry, u64)>) -> (r: Columns)
    ensures
        encodes(entries@, r.region_ids@, r.topic_ids@, r.values@),
{
    let mut region_ids: Vec<u64> = Vec::new();
    let mut topic_ids: Vec<u64> = Vec::new();
    let mut values: Vec<u64> = Vec::new();
    for i in 0..entries.len()
        invariant
            encodes(entries@.take(i as int), region_ids@, topic_ids@, values@),
    {
        let (key, value) = entries[i];
        region_ids.push(key.region_id);
        topic_ids.push(key.topic_id);
        values.push(value);
        assert(entries@.take(i + 1) =~= entries@.take(i as int).push(entries[i as int]));
    }
    assert(entries@.take(entries.len() as int) =~= entries@);
    Columns { region_ids, topic_ids, values }
}

/// The record batch of the columns, under the schema
/// `(region_id, topic_id, occurence)`, all `UInt64` and non-nullable.
pub fn columns_to_recordbatch(columns: Columns) -> (r: Batch)
    requires
        columns.region_ids.len() == columns.topic_ids.len(),
        columns.topic_ids.len() == columns.values.len(),
    ensures
        batch_field_names(r) == seq!["region_id"@, "topic_id"@, "occurence"@],
        batch_field_nullable(r) == seq![false, false, false],
        batch_null_counts(r) == seq![0nat, 0nat, 0nat],
        batch_columns(r) == seq![columns.region_ids@, columns.topic_ids@, columns.values@],
{
    let Columns { region_ids, topic_ids, values } = columns;
    let r = u64_batch(
        "region_id",
        false,
        region_ids,
        "topic_id",
        false,
        topic_ids,
        "occurence",
        false,
        values,
    );
    r.unwrap()
}

/// Drains the table and lays it out as a record batch with one row per key.
pub fn occurence_to_recordbatch(occurence: FrequencyTable) -> (r: Batch)
    requires
        occurence.wf(),
    ensures
        batch_field_names(r) == seq!["region_id"@, "topic_id"@, "occurence"@],
        batch_field_nullable(r) == seq![false, false, false],
        batch_null_counts(r) == seq![0nat, 0nat, 0nat],
        batch_columns(r).len() == 3,
        columns_hold(occurence@, batch_columns(r)[0], batch_columns(r)[1], batch_columns(r)[2]),
{
    let ghost m = occurence@;
    let entries = occurence.drain();
    let columns = encode(&entries);
    proof {
        lemma_drained_columns_hold_table(
            m,
            entries@,
            columns.region_ids@,
            columns.topic_ids@,
            columns.values@,
        );
    }
    columns_to_recordbatch(columns)
}

} // verus!
