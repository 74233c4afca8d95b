use arrow::array::{Array, RecordBatch, UInt64Array};
use arrow::datatypes::DataType;
use bytes::Bytes;
use parquet::arrow::arrow_reader::ParquetRecordBatchReaderBuilder;
use parquet::arrow::ArrowWriter;
use parquet::basic::Compression;
use parquet::file::properties::WriterProperties;
use topic_counts::batch::{columns_to_recordbatch, encode, occurence_to_recordbatch, Columns};
use topic_counts::line::StateEntry;
use topic_counts::table::{update_occurence, FrequencyTable};

fn count_lines(lines: &[&str]) -> FrequencyTable {
    let mut table = FrequencyTable::new();
    for line in lines {
        let _ = update_occurence(line, &mut table);
    }
    table
}

fn column(batch: &RecordBatch, i: usize) -> Vec<u64> {
    let array = batch.column(i).as_any().downcast_ref::<UInt64Array>().expect("a UInt64 column");
    assert_eq!(array.null_count(), 0);
    array.values().to_vec()
}

fn rows(batch: &RecordBatch) -> Vec<(u64, u64, u64)> {
    let (a, b, c) = (column(batch, 0), column(batch, 1), column(batch, 2));
    let mut r: Vec<(u64, u64, u64)> = (0..a.len()).map(|i| (a[i], b[i], c[i])).collect();
    r.sort();
    r
}

fn assert_schema(batch: &RecordBatch) {
    let schema = batch.schema();
    let fields = schema.fields();
    assert_eq!(fields.len(), 3);
    for (field, name) in fields.iter().zip(["region_id", "topic_id", "occurence"]) {
        assert_eq!(field.name(), name);
        assert_eq!(field.data_type(), &DataType::UInt64);
        assert!(!field.is_nullable());
    }
}

fn write_parquet(batch: &RecordBatch) -> Vec<u8> {
    let props = WriterProperties::builder().set_compression(Compression::SNAPPY).build();
    let mut out: Vec<u8> = Vec::new();
    let mut writer = ArrowWriter::try_new(&mut out, batch.schema(), Some(props)).unwrap();
    writer.write(batch).unwrap();
    writer.close().unwrap();
    out
}

fn read_parquet(bytes: Vec<u8>) -> Vec<RecordBatch> {
    let reader = ParquetRecordBatchReaderBuilder::try_new(Bytes::from(bytes)).unwrap().build().unwrap();
    reader.map(|b| b.unwrap()).collect()
}

#[test]
fn scenario_repeated_line_and_malformed_line() {
    let table = count_lines(&["a b c d 10 20\n", "a b c d 10 20\n", "a b c d 10 20\n", "x y\n"]);
    let batch = occurence_to_recordbatch(table).record_batch;
    assert_schema(&batch);
    assert_eq!(batch.num_rows(), 1);
    assert_eq!(rows(&batch), vec![(10, 20, 3)]);
}

#[test]
fn scenario_empty_input() {
    let batch = occurence_to_recordbatch(FrequencyTable::new()).record_batch;
    assert_schema(&batch);
    assert_eq!(batch.num_rows(), 0);
    let back = read_parquet(write_parquet(&batch));
    let total: usize = back.iter().map(|b| b.num_rows()).sum();
    assert_eq!(total, 0);
    for b in &back {
        assert_schema(b);
    }
}

#[test]
fn scenario_two_keys() {
    let table = count_lines(&["a b c d 1 1", "a b c d 2 2", "a b c d 1 1"]);
    let batch = occurence_to_recordbatch(table).record_batch;
    assert_eq!(batch.num_rows(), 2);
    assert_eq!(rows(&batch), vec![(1, 1, 2), (2, 2, 1)]);
}

#[test]
fn batch_has_one_row_per_key_with_its_count() {
    let lines = ["a b c d 3 4", "a b c d 4 3", "junk", "a b c d 3 4", "a b c d 0 0", "a b c d 3 4"];
    let table = count_lines(&lines);
    let keys = table.len();
    let expected: Vec<(u64, u64, u64)> = vec![(0, 0, 1), (3, 4, 3), (4, 3, 1)];
    let batch = occurence_to_recordbatch(table).record_batch;
    assert_eq!(batch.num_rows(), keys);
    assert_eq!(rows(&batch), expected);
}

#[test]
fn encode_keeps_entry_order_in_every_column() {
    let entries = vec![(StateEntry::new(5, 6), 7), (StateEntry::new(1, 2), 3), (StateEntry::new(9, 9), 1)];
    let c = encode(&entries);
    assert_eq!(c.region_ids, vec![5, 1, 9]);
    assert_eq!(c.topic_ids, vec![6, 2, 9]);
    assert_eq!(c.values, vec![7, 3, 1]);
}

#[test]
fn columns_become_batch_columns_in_order() {
    let columns = Columns { region_ids: vec![1, 2, 3], topic_ids: vec![4, 5, 6], values: vec![7, 8, 9] };
    let batch = columns_to_recordbatch(columns).record_batch;
    assert_schema(&batch);
    assert_eq!(column(&batch, 0), vec![1, 2, 3]);
    assert_eq!(column(&batch, 1), vec![4, 5, 6]);
    assert_eq!(column(&batch, 2), vec![7, 8, 9]);
}

#[test]
fn parquet_round_trip_keeps_rows_and_schema() {
    let table = count_lines(&["a b c d 1 1", "a b c d 2 2", "a b c d 1 1", "a b c d 18446744073709551615 3"]);
    let batch = occurence_to_recordbatch(table).record_batch;
    let before = rows(&batch);
    let back = read_parquet(write_parquet(&batch));
    let mut after: Vec<(u64, u64, u64)> = Vec::new();
    for b in &back {
        assert_schema(b);
        after.extend(rows(b));
    }
    after.sort();
    assert_eq!(after, before);
    assert_eq!(after, vec![(1, 1, 2), (2, 2, 1), (u64::MAX, 3, 1)]);
}
