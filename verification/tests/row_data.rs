use std::sync::Arc;

use cass_store::db::{
    ColumnKeyType, ColumnMetaData, ColumnType, KeyBound, RegularRowData, RowDetails, RowTombstoneData, TableCell,
    TableCellData, TableMetaData, TableRow,
};
use cass_store::io::{CassRead, CassWrite};
use cass_store::sstable::row_data::{RowDataFileCreator, RowDataReader};
use cass_store::sstable::SstableMetaData;
use cass_store::util::CassError;
use uuid::Uuid;

fn sstable_metadata() -> SstableMetaData {
    let col_partition_key = ColumnMetaData {
        name: "id".to_string(),
        id: Uuid::new_v4().as_u128(),
        key_type: ColumnKeyType::PartitionKey,
        col_type: ColumnType::Long,
    };
    let col_name = ColumnMetaData {
        name: "name".to_string(),
        id: Uuid::new_v4().as_u128(),
        key_type: ColumnKeyType::Regular,
        col_type: ColumnType::Text,
    };
    let columns = vec![Arc::new(col_partition_key), Arc::new(col_name)];
    let table_metadata =
        TableMetaData::new("person".to_string(), Uuid::new_v4().as_u128(), columns, 0, Vec::new());
    SstableMetaData {
        table_metadata: Arc::new(table_metadata),
        sstable_uuid: Uuid::new_v4().as_u128(),
        folder: "/tmp".to_string(),
    }
}

/// id (Long, partition key), city (Text, cluster key), zip (Int, cluster
/// key), name (Text), tags (Tuple(Text, Boolean, Tuple(Int, Text))).
fn wide_metadata() -> SstableMetaData {
    let col = |name: &str, id: u128, key_type: ColumnKeyType, col_type: ColumnType| {
        Arc::new(ColumnMetaData { name: name.to_string(), id, key_type, col_type })
    };
    let columns = vec![
        col("id", 1, ColumnKeyType::PartitionKey, ColumnType::Long),
        col("city", 2, ColumnKeyType::ClusterKey, ColumnType::Text),
        col("zip", 3, ColumnKeyType::ClusterKey, ColumnType::Int),
        col("name", 4, ColumnKeyType::Regular, ColumnType::Text),
        col(
            "tags",
            5,
            ColumnKeyType::Regular,
            ColumnType::Tuple(vec![
                ColumnType::Text,
                ColumnType::Boolean,
                ColumnType::Tuple(vec![ColumnType::Int, ColumnType::Text]),
            ]),
        ),
    ];
    let table_metadata = TableMetaData::new("place".to_string(), 77, columns, 0, vec![1, 2]);
    assert!(table_metadata.is_valid());
    SstableMetaData {
        table_metadata: Arc::new(table_metadata),
        sstable_uuid: 88,
        folder: "/tmp".to_string(),
    }
}

fn ser_utf8(s: &str) -> Vec<u8> {
    let mut w = CassWrite::new(Vec::new());
    w.write_utf8(s).unwrap();
    w.into_inner()
}

fn ser_u64(n: u64) -> Vec<u8> {
    let mut w = CassWrite::new(Vec::new());
    w.write_u64(n).unwrap();
    w.into_inner()
}

fn ser_u32(n: u32) -> Vec<u8> {
    let mut w = CassWrite::new(Vec::new());
    w.write_u32(n).unwrap();
    w.into_inner()
}

fn written(meta_data: &SstableMetaData, rows: &[&TableRow]) -> Vec<u8> {
    let mut creator = RowDataFileCreator::new(meta_data.clone()).unwrap();
    for row in rows {
        creator.append_row(row).unwrap();
    }
    creator.finalize().unwrap()
}

#[test]
pub fn test_write_read() {
    let meta_data = sstable_metadata();
    let table_metadata = meta_data.table_metadata.clone();

    let mut creator = RowDataFileCreator::new(meta_data.clone()).unwrap();

    let id_buf = ser_u64(99);
    let name_buf = ser_utf8("Arno");

    let id_cell = &id_buf;
    let name_cell = TableCell {
        meta_data: table_metadata.columns.get(0).unwrap().clone(),
        timestamp: 8888,
        expiry: 7777,
        data: TableCellData::Regular(&name_buf),
    };

    let row = TableRow::new(
        table_metadata.clone(),
        id_cell,
        RowDetails::Regular(RegularRowData {
            pk_expiry: 9999u32,
            cluster_key: Vec::new(),
            regular_cols: vec![name_cell],
        }),
    );

    creator.append_row(&row).unwrap();
    let m = creator.finalize().unwrap();

    let mut reader = RowDataReader::new(meta_data, CassRead::wrap(&m));
    let read_row = reader.read_row().unwrap();

    assert_eq!(*read_row.partition_key, *id_buf);

    match read_row.details {
        RowDetails::Regular(row_data) => {
            assert_eq!(9999, row_data.pk_expiry);
            assert!(row_data.cluster_key.is_empty());
            assert_eq!(1, row_data.regular_cols.len());

            let col = row_data.regular_cols.get(0).unwrap();
            assert_eq!(8888, col.timestamp);
            assert_eq!(7777, col.expiry);
            match col.data {
                TableCellData::Regular(buf) => assert_eq!(*buf, *name_buf),
                _ => assert!(false),
            }
        }
        _ => assert!(false),
    }
}

#[test]
fn regular_row_has_the_documented_layout() {
    let meta_data = wide_metadata();
    let schema = meta_data.table_metadata.clone();
    let id_buf = ser_u64(7);
    let city = ser_utf8("Ulm");
    let zip = ser_u32(89073);
    let name = ser_utf8("x");
    let row = TableRow::new(
        schema.clone(),
        &id_buf,
        RowDetails::Regular(RegularRowData {
            pk_expiry: 5,
            cluster_key: vec![&city, &zip],
            regular_cols: vec![
                TableCell {
                    meta_data: schema.columns[3].clone(),
                    timestamp: 0x0102030405060708,
                    expiry: 9,
                    data: TableCellData::Regular(&name),
                },
                TableCell {
                    meta_data: schema.columns[4].clone(),
                    timestamp: 1,
                    expiry: 0,
                    data: TableCellData::Tombstone,
                },
            ],
        }),
    );
    let bytes = written(&meta_data, &[&row]);
    let mut expected: Vec<u8> = vec![0, 0, 0, 0, 0, 0, 0, 7];
    expected.push(1);
    expected.extend_from_slice(&[0, 0, 0, 5]);
    expected.extend_from_slice(&[0, 0, 0, 3, b'U', b'l', b'm']);
    expected.extend_from_slice(&[0x00, 0x01, 0x5b, 0xf1]);
    expected.extend_from_slice(&[0, 0, 0, 2]);
    expected.extend_from_slice(&[0, 0, 0, 0, 0, 0, 0, 0, 0, 0, 0, 0, 0, 0, 0, 4]);
    expected.extend_from_slice(&[1, 2, 3, 4, 5, 6, 7, 8]);
    expected.extend_from_slice(&[0, 0, 0, 9]);
    expected.extend_from_slice(&[1, 0, 0, 0, 1, b'x']);
    expected.extend_from_slice(&[0, 0, 0, 0, 0, 0, 0, 0, 0, 0, 0, 0, 0, 0, 0, 5]);
    expected.extend_from_slice(&[0, 0, 0, 0, 0, 0, 0, 1]);
    expected.extend_from_slice(&[0, 0, 0, 0]);
    expected.push(0);
    assert_eq!(bytes, expected);
}

#[test]
fn regular_row_round_trips_with_cluster_key_and_sparse_cells() {
    let meta_data = wide_metadata();
    let schema = meta_data.table_metadata.clone();
    let id_buf = ser_u64(7);
    let city = ser_utf8("Ulm");
    let zip = ser_u32(89073);
    let name = ser_utf8("Münster");
    let mut tags = ser_utf8("a");
    tags.push(1);
    tags.extend_from_slice(&ser_u32(12));
    tags.extend_from_slice(&ser_utf8("bc"));
    let row = TableRow::new(
        schema.clone(),
        &id_buf,
        RowDetails::Regular(RegularRowData {
            pk_expiry: 0,
            cluster_key: vec![&city, &zip],
            regular_cols: vec![
                TableCell {
                    meta_data: schema.columns[4].clone(),
                    timestamp: 11,
                    expiry: 12,
                    data: TableCellData::Regular(&tags),
                },
                TableCell {
                    meta_data: schema.columns[3].clone(),
                    timestamp: 21,
                    expiry: 22,
                    data: TableCellData::Tombstone,
                },
                TableCell {
                    meta_data: schema.columns[3].clone(),
                    timestamp: 31,
                    expiry: 32,
                    data: TableCellData::Regular(&name),
                },
            ],
        }),
    );
    let mut bytes = written(&meta_data, &[&row]);
    let row_len = bytes.len();
    bytes.extend_from_slice(&[0xff, 0xff, 0xff]);

    let mut reader = RowDataReader::new(meta_data, CassRead::wrap(&bytes));
    let read = reader.read_row().unwrap();
    assert_eq!(reader.buf.pos, row_len);
    assert_eq!(read.partition_key, &id_buf[..]);
    assert_eq!(read.token, row.token);
    match read.details {
        RowDetails::Regular(data) => {
            assert_eq!(data.pk_expiry, 0);
            assert_eq!(data.cluster_key, vec![&city[..], &zip[..]]);
            assert_eq!(data.regular_cols.len(), 3);
            assert_eq!(data.regular_cols[0].meta_data.id, 5);
            assert_eq!(data.regular_cols[0].timestamp, 11);
            assert_eq!(data.regular_cols[0].expiry, 12);
            assert!(matches!(data.regular_cols[0].data, TableCellData::Regular(b) if b == &tags[..]));
            assert_eq!(data.regular_cols[1].meta_data.id, 4);
            assert_eq!(data.regular_cols[1].timestamp, 21);
            assert_eq!(data.regular_cols[1].expiry, 22);
            assert!(matches!(data.regular_cols[1].data, TableCellData::Tombstone));
            assert_eq!(data.regular_cols[2].meta_data.id, 4);
            assert_eq!(data.regular_cols[2].timestamp, 31);
            assert_eq!(data.regular_cols[2].expiry, 32);
            assert!(matches!(data.regular_cols[2].data, TableCellData::Regular(b) if b == &name[..]));
        }
        RowDetails::RowTombstone(_) => panic!("a regular row was written"),
    }
}

#[test]
fn tombstone_row_round_trips_with_partial_bounds() {
    let meta_data = wide_metadata();
    let schema = meta_data.table_metadata.clone();
    let id_buf = ser_u64(3);
    let city = ser_utf8("Bonn");
    let zip = ser_u32(53111);
    let row = TableRow::new(
        schema.clone(),
        &id_buf,
        RowDetails::RowTombstone(RowTombstoneData {
            lower_bound: Some(KeyBound { cluster_key_prefix: vec![&city], is_inclusive: true }),
            upper_bound: Some(KeyBound {
                cluster_key_prefix: vec![&city, &zip],
                is_inclusive: false,
            }),
        }),
    );
    let bytes = written(&meta_data, &[&row]);
    let mut expected: Vec<u8> = vec![0, 0, 0, 0, 0, 0, 0, 3, 0];
    expected.extend_from_slice(&[1, 1, 0, 0, 0, 4, b'B', b'o', b'n', b'n']);
    expected.extend_from_slice(&[2, 2, 0, 0, 0, 4, b'B', b'o', b'n', b'n', 0x00, 0x00, 0xcf, 0x77]);
    assert_eq!(bytes, expected);

    let mut reader = RowDataReader::new(meta_data, CassRead::wrap(&bytes));
    let read = reader.read_row().unwrap();
    assert_eq!(reader.buf.pos, bytes.len());
    assert_eq!(read.partition_key, &id_buf[..]);
    match read.details {
        RowDetails::RowTombstone(data) => {
            let lower = data.lower_bound.unwrap();
            assert!(lower.is_inclusive);
            assert_eq!(lower.cluster_key_prefix, vec![&city[..]]);
            let upper = data.upper_bound.unwrap();
            assert!(!upper.is_inclusive);
            assert_eq!(upper.cluster_key_prefix, vec![&city[..], &zip[..]]);
        }
        RowDetails::Regular(_) => panic!("a tombstone row was written"),
    }
}

#[test]
fn tombstone_row_round_trips_without_bounds() {
    let meta_data = wide_metadata();
    let id_buf = ser_u64(3);
    let row = TableRow::new(
        meta_data.table_metadata.clone(),
        &id_buf,
        RowDetails::RowTombstone(RowTombstoneData { lower_bound: None, upper_bound: None }),
    );
    let bytes = written(&meta_data, &[&row]);
    assert_eq!(bytes, vec![0, 0, 0, 0, 0, 0, 0, 3, 0, 0, 0]);
    let mut reader = RowDataReader::new(meta_data, CassRead::wrap(&bytes));
    match reader.read_row().unwrap().details {
        RowDetails::RowTombstone(data) => {
            assert!(data.lower_bound.is_none());
            assert!(data.upper_bound.is_none());
        }
        RowDetails::Regular(_) => panic!("a tombstone row was written"),
    }
}

#[test]
fn rows_are_read_one_after_the_other() {
    let meta_data = sstable_metadata();
    let schema = meta_data.table_metadata.clone();
    let first_id = ser_u64(1);
    let second_id = ser_u64(2);
    let first = TableRow::new(
        schema.clone(),
        &first_id,
        RowDetails::Regular(RegularRowData {
            pk_expiry: 1,
            cluster_key: Vec::new(),
            regular_cols: Vec::new(),
        }),
    );
    let second = TableRow::new(
        schema.clone(),
        &second_id,
        RowDetails::RowTombstone(RowTombstoneData { lower_bound: None, upper_bound: None }),
    );
    let bytes = written(&meta_data, &[&first, &second]);
    let mut reader = RowDataReader::new(meta_data, CassRead::wrap(&bytes));
    let a = reader.read_row().unwrap();
    assert_eq!(a.partition_key, &first_id[..]);
    assert!(matches!(a.details, RowDetails::Regular(_)));
    let b = reader.read_row().unwrap();
    assert_eq!(b.partition_key, &second_id[..]);
    assert!(matches!(b.details, RowDetails::RowTombstone(_)));
    assert_eq!(reader.buf.pos, bytes.len());
    assert_eq!(reader.read_row().err(), Some(CassError::UnexpectedEnd));
}

#[test]
fn tuple_size_is_the_sum_of_its_parts() {
    let meta_data = wide_metadata();
    let tuple = ColumnType::Tuple(vec![
        ColumnType::Text,
        ColumnType::Boolean,
        ColumnType::Tuple(vec![ColumnType::Int, ColumnType::Text]),
        ColumnType::Uuid,
        ColumnType::Long,
        ColumnType::Timestamp,
    ]);
    let mut bytes = vec![0xaa, 0xbb];
    bytes.extend_from_slice(&ser_utf8("hello"));
    bytes.push(0);
    bytes.extend_from_slice(&ser_u32(1));
    bytes.extend_from_slice(&ser_utf8(""));
    bytes.extend_from_slice(&[0u8; 16]);
    bytes.extend_from_slice(&ser_u64(2));
    bytes.extend_from_slice(&ser_u64(3));
    let reader = RowDataReader::new(meta_data.clone(), CassRead::wrap(&bytes));
    assert_eq!(reader.size(&tuple, 2), Ok(9 + 1 + (4 + 4) + 16 + 8 + 8));
    assert_eq!(reader.size(&ColumnType::Tuple(Vec::new()), 2), Ok(0));
    assert_eq!(reader.size(&ColumnType::Text, 2), Ok(9));
    assert_eq!(reader.size(&ColumnType::Boolean, 0), Ok(1));
    assert_eq!(reader.size(&ColumnType::Int, 0), Ok(4));
    assert_eq!(reader.size(&ColumnType::Long, 0), Ok(8));
    assert_eq!(reader.size(&ColumnType::Timestamp, 0), Ok(8));
    assert_eq!(reader.size(&ColumnType::Uuid, 0), Ok(16));

    let short = &bytes[..bytes.len() - 1];
    let reader = RowDataReader::new(meta_data, CassRead::wrap(short));
    assert_eq!(reader.size(&tuple, 2), Err(CassError::UnexpectedEnd));
}

#[test]
fn malformed_tags_are_decode_errors() {
    let meta_data = wide_metadata();
    let mut row_kind = ser_u64(1);
    row_kind.push(2);
    let mut reader = RowDataReader::new(meta_data.clone(), CassRead::wrap(&row_kind));
    assert_eq!(reader.read_row().err(), Some(CassError::InvalidRowKind(2)));

    let mut bound_kind = ser_u64(1);
    bound_kind.extend_from_slice(&[0, 3]);
    let mut reader = RowDataReader::new(meta_data.clone(), CassRead::wrap(&bound_kind));
    assert_eq!(reader.read_row().err(), Some(CassError::InvalidKeyBound(3)));

    let mut prefix = ser_u64(1);
    prefix.extend_from_slice(&[0, 1, 3]);
    let mut reader = RowDataReader::new(meta_data.clone(), CassRead::wrap(&prefix));
    assert_eq!(reader.read_row().err(), Some(CassError::KeyPrefixOutOfRange(3)));

    let mut cell = ser_u64(1);
    cell.push(1);
    cell.extend_from_slice(&ser_u32(0));
    cell.extend_from_slice(&ser_utf8("Ulm"));
    cell.extend_from_slice(&ser_u32(1));
    cell.extend_from_slice(&ser_u32(1));
    let header = cell.clone();
    cell.extend_from_slice(&[0u8; 15]);
    cell.push(4);
    cell.extend_from_slice(&[0u8; 12]);
    cell.push(9);
    let mut reader = RowDataReader::new(meta_data.clone(), CassRead::wrap(&cell));
    assert_eq!(reader.read_row().err(), Some(CassError::InvalidCellData(9)));

    let mut unknown = header.clone();
    unknown.extend_from_slice(&[0u8; 15]);
    unknown.push(99);
    unknown.extend_from_slice(&[0u8; 13]);
    let mut reader = RowDataReader::new(meta_data.clone(), CassRead::wrap(&unknown));
    assert_eq!(reader.read_row().err(), Some(CassError::UnknownColumn(99)));

    let mut reader = RowDataReader::new(meta_data, CassRead::wrap(&header));
    assert_eq!(reader.read_row().err(), Some(CassError::UnexpectedEnd));
}

#[test]
fn too_long_key_prefix_is_refused_and_nothing_is_written() {
    let meta_data = wide_metadata();
    let id_buf = ser_u64(3);
    let zip = ser_u32(1);
    let prefix: Vec<&[u8]> = (0..256).map(|_| &zip[..]).collect();
    let row = TableRow::new(
        meta_data.table_metadata.clone(),
        &id_buf,
        RowDetails::RowTombstone(RowTombstoneData {
            lower_bound: None,
            upper_bound: Some(KeyBound { cluster_key_prefix: prefix, is_inclusive: true }),
        }),
    );
    let mut creator = RowDataFileCreator::new(meta_data).unwrap();
    assert_eq!(creator.append_row(&row), Err(CassError::KeyPrefixTooLong));
    assert_eq!(creator.finalize().unwrap(), Vec::<u8>::new());
}

#[test]
fn schema_validity_is_checked() {
    let col = |name: &str, id: u128, key_type: ColumnKeyType| {
        Arc::new(ColumnMetaData { name: name.to_string(), id, key_type, col_type: ColumnType::Int })
    };
    let pk = || col("a", 1, ColumnKeyType::PartitionKey);
    let ck = || col("b", 2, ColumnKeyType::ClusterKey);
    let table = |columns, idx_partition_key, idx_cluster_keys| {
        TableMetaData::new("t".to_string(), 1, columns, idx_partition_key, idx_cluster_keys)
    };
    assert!(table(vec![pk(), ck()], 0, vec![1]).is_valid());
    assert!(table(vec![pk(), col("b", 2, ColumnKeyType::Regular)], 0, vec![]).is_valid());
    assert!(!table(vec![pk(), col("b", 1, ColumnKeyType::ClusterKey)], 0, vec![1]).is_valid());
    assert!(!table(vec![pk(), col("a", 2, ColumnKeyType::ClusterKey)], 0, vec![1]).is_valid());
    assert!(!table(vec![pk(), ck()], 2, vec![1]).is_valid());
    assert!(!table(vec![pk(), ck()], 0, vec![0]).is_valid());
    assert!(!table(vec![pk(), ck()], 0, vec![2]).is_valid());
    assert!(!table(vec![pk(), ck()], 1, vec![]).is_valid());
    assert!(!table(vec![pk(), col("b", 2, ColumnKeyType::Regular)], 0, vec![1]).is_valid());
    let schema = table(vec![pk(), ck()], 0, vec![1]);
    assert_eq!(schema.partition_key().id, 1);
    assert_eq!(schema.cluster_key(0).id, 2);
    assert_eq!(schema.column_by_id(2).unwrap().id, 2);
    assert!(schema.column_by_id(3).is_none());
}

#[test]
fn token_is_the_murmur3_hash_of_the_partition_key() {
    let meta_data = sstable_metadata();
    let id_buf = ser_u64(99);
    let details = || RowDetails::RowTombstone(RowTombstoneData { lower_bound: None, upper_bound: None });
    let row = TableRow::new(meta_data.table_metadata.clone(), &id_buf, details());
    assert_eq!(row.token, fasthash::murmur3::hash128(&id_buf));
    assert_ne!(row.token, 0);
    let known = TableRow::new_with_known_token(meta_data.table_metadata.clone(), &id_buf, 42, details());
    assert_eq!(known.token, 42);
    assert_eq!(known.partition_key, &id_buf[..]);
}

#[test]
fn file_names_are_derived_from_the_ids() {
    let columns = vec![Arc::new(ColumnMetaData {
        name: "id".to_string(),
        id: 1,
        key_type: ColumnKeyType::PartitionKey,
        col_type: ColumnType::Long,
    })];
    let table = TableMetaData::new(
        "person".to_string(),
        0x936da01f9abd4d9d80c702af85c822a8,
        columns,
        0,
        Vec::new(),
    );
    let meta_data = SstableMetaData {
        table_metadata: Arc::new(table),
        sstable_uuid: 0x1f,
        folder: "/var/data".to_string(),
    };
    assert_eq!(meta_data.clone().folder, "/var/data");
    assert_eq!(
        meta_data.data_filename(),
        "00000000-0000-0000-0000-00000000001f_person_936da01f-9abd-4d9d-80c7-02af85c822a8.data"
    );
    assert_eq!(
        meta_data.index_filename(),
        "00000000-0000-0000-0000-00000000001f_person_936da01f-9abd-4d9d-80c7-02af85c822a8.index"
    );
}

#[test]
fn columns_are_found_through_the_id_map() {
    let col = |name: &str, id: u128, key_type: ColumnKeyType| {
        Arc::new(ColumnMetaData { name: name.to_string(), id, key_type, col_type: ColumnType::Int })
    };
    let columns = vec![
        col("a", 7, ColumnKeyType::PartitionKey),
        col("b", 9, ColumnKeyType::Regular),
        col("c", 8, ColumnKeyType::Regular),
    ];
    let schema = TableMetaData::new("t".to_string(), 1, columns, 0, Vec::new());
    assert!(schema.is_valid());
    assert_eq!(schema.columns_by_id.len(), 3);
    assert_eq!(schema.column_by_id(7).unwrap().name, "a");
    assert_eq!(schema.column_by_id(9).unwrap().name, "b");
    assert_eq!(schema.column_by_id(8).unwrap().name, "c");
    assert!(schema.column_by_id(0).is_none());

    let mut broken = TableMetaData::new(
        "t".to_string(),
        1,
        vec![col("a", 7, ColumnKeyType::PartitionKey), col("b", 9, ColumnKeyType::Regular)],
        0,
        Vec::new(),
    );
    broken.columns_by_id.insert(9, 0);
    assert!(!broken.is_valid());
    assert!(broken.column_by_id(9).is_none());
    broken.columns_by_id.insert(9, 5);
    assert!(broken.column_by_id(9).is_none());
}
