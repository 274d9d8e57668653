use std::collections::HashMap;
use std::sync::Arc;
use vstd::prelude::*;
use crate::util::{DbExpiryTimestamp, DbTimestamp, Token};

verus! {

/// The type of a column's values, which fixes how a value is laid out.
#[derive(Debug)]
pub enum ColumnType {
    /// A 32-bit length prefix, then that many UTF-8 bytes.
    Text,
    /// Sixteen bytes.
    Uuid,
    /// Four bytes.
    Int,
    /// Eight bytes.
    Long,
    /// Eight bytes: milliseconds since the epoch.
    Timestamp,
    /// One byte.
    Boolean,
    /// The parts' encodings one after the other, with no framing of its own.
    Tuple(Vec<ColumnType>),
}

/// A column's role in the primary key.
#[derive(Debug, Clone, Copy, PartialEq, Eq, Structural)]
pub enum ColumnKeyType {
    PartitionKey,
    ClusterKey,
    Regular,
}

/// A column of a table. Immutable once the table exists.
#[derive(Debug)]
pub struct ColumnMetaData {
    pub name: String,
    pub id: u128,
    pub key_type: ColumnKeyType,
    pub col_type: ColumnType,
}

pub type ClusterKeys = Vec<usize>;

/// A table's schema: its columns, which of them is the partition key,
/// which of them, in which order, make up the cluster key, and where each
/// column id is found among the columns.
pub struct TableMetaData {
    pub name: String,
    pub id: u128,
    pub columns: Vec<Arc<ColumnMetaData>>,
    pub idx_partition_key: usize,
    pub idx_cluster_keys: ClusterKeys,
    pub columns_by_id: HashMap<u128, usize>,
}

/// The id map of the first `k` columns: each id with the position of the
/// last of them that has it.
pub open spec fn id_map(columns: Seq<Arc<ColumnMetaData>>, k: int) -> Map<u128, usize>
    decreases k,
{
    if k <= 0 || k > columns.len() {
        Map::empty()
    } else {
        id_map(columns, k - 1).insert(columns[k - 1].id, (k - 1) as usize)
    }
}

/// Where no two columns share an id, the id map of all columns holds every
/// column's id with that column's position.
pub proof fn lemma_id_map_finds(columns: Seq<Arc<ColumnMetaData>>, k: int, i: int)
    requires
        0 <= i < k <= columns.len(),
        columns.len() <= usize::MAX,
        forall|a: int, b: int|
            0 <= a < b < columns.len() ==> (#[trigger] columns[a]).id != (#[trigger] columns[b]).id,
    ensures
        id_map(columns, k).contains_key(columns[i].id),
        id_map(columns, k)[columns[i].id] == i,
    decreases k,
{
    if i < k - 1 {
        lemma_id_map_finds(columns, k - 1, i);
    }
}

impl TableMetaData {
    /// The schema's invariant: column ids and column names are unique, the
    /// id map finds every column under its id, the partition key and every
    /// cluster key name a column of that role, no cluster key is the
    /// partition key, and the cluster keys fit the one-byte count of a key
    /// bound.
    pub open spec fn wf(&self) -> bool {
        &&& forall|i: int|
            0 <= i < self.columns@.len() ==> self.columns_by_id@.contains_key(
                (#[trigger] self.columns@[i]).id,
            ) && self.columns_by_id@[self.columns@[i].id] == i
        &&& self.idx_partition_key < self.columns@.len()
        &&& self.columns@[self.idx_partition_key as int].key_type == ColumnKeyType::PartitionKey
        &&& self.idx_cluster_keys@.len() <= 255
        &&& forall|i: int|
            0 <= i < self.idx_cluster_keys@.len() ==> {
                &&& (#[trigger] self.idx_cluster_keys@[i]) < self.columns@.len()
                &&& self.idx_cluster_keys@[i] != self.idx_partition_key
                &&& self.columns@[self.idx_cluster_keys@[i] as int].key_type
                    == ColumnKeyType::ClusterKey
            }
        &&& forall|i: int, j: int|
            0 <= i < j < self.columns@.len() ==> {
                &&& (#[trigger] self.columns@[i]).id != (#[trigger] self.columns@[j]).id
                &&& self.columns@[i].name@ != self.columns@[j].name@
            }
    }

    /// The column that the id map gives for the id, if it is a column of
    /// the table with that id.
    pub open spec fn spec_column_by_id(&self, col_id: u128) -> Option<ColumnMetaData> {
        if self.columns_by_id@.contains_key(col_id) && self.columns_by_id@[col_id]
            < self.columns@.len() && self.columns@[self.columns_by_id@[col_id] as int].id
            == col_id {
            Some(*self.columns@[self.columns_by_id@[col_id] as int])
        } else {
            None
        }
    }

    /// Builds a table's schema and, from the columns, its id map.
    pub fn new(
        name: String,
        id: u128,
        columns: Vec<Arc<ColumnMetaData>>,
        idx_partition_key: usize,
        idx_cluster_keys: ClusterKeys,
    ) -> (t: TableMetaData)
        ensures
            t.name == name,
            t.id == id,
            t.columns == columns,
            t.idx_partition_key == idx_partition_key,
            t.idx_cluster_keys == idx_cluster_keys,
            t.columns_by_id@ == id_map(columns@, columns@.len() as int),
    {
        let mut columns_by_id: HashMap<u128, usize> = HashMap::new();
        let mut i: usize = 0;
        while i < columns.len()
            invariant
                i <= columns@.len(),
                columns_by_id@ == id_map(columns@, i as int),
            decreases columns@.len() - i,
        {
            columns_by_id.insert(columns[i].id, i);
            i += 1;
        }
        TableMetaData { name, id, columns, idx_partition_key, idx_cluster_keys, columns_by_id }
    }

    /// Tells whether the schema's invariant holds.
    pub fn is_valid(&self) -> (b: bool)
        ensures
            b == self.wf(),
    {
        let n: usize = self.columns.len();
        if self.idx_partition_key >= n || self.idx_cluster_keys.len() > 255 {
            return false;
        }
        if self.columns[self.idx_partition_key].key_type != ColumnKeyType::PartitionKey {
            return false;
        }
        let mut c: usize = 0;
        while c < n
            invariant
                c <= n,
                n == self.columns@.len(),
                forall|i: int|
                    0 <= i < c ==> self.columns_by_id@.contains_key(
                        (#[trigger] self.columns@[i]).id,
                    ) && self.columns_by_id@[self.columns@[i].id] == i,
            decreases n - c,
        {
            match self.columns_by_id.get(&self.columns[c].id) {
                Some(at) => {
                    if *at != c {
                        return false;
                    }
                },
                None => {
                    return false;
                },
            }
            c += 1;
        }
        let mut k: usize = 0;
        while k < self.idx_cluster_keys.len()
            invariant
                k <= self.idx_cluster_keys@.len(),
                n == self.columns@.len(),
                forall|i: int|
                    0 <= i < k ==> {
                        &&& (#[trigger] self.idx_cluster_keys@[i]) < self.columns@.len()
                        &&& self.idx_cluster_keys@[i] != self.idx_partition_key
                        &&& self.columns@[self.idx_cluster_keys@[i] as int].key_type
                            == ColumnKeyType::ClusterKey
                    },
            decreases self.idx_cluster_keys@.len() - k,
        {
            let idx: usize = self.idx_cluster_keys[k];
            if idx >= n || idx == self.idx_partition_key {
                return false;
            }
            if self.columns[idx].key_type != ColumnKeyType::ClusterKey {
                return false;
            }
            k += 1;
        }
        let mut j: usize = 0;
        while j < n
            invariant
                j <= n,
                n == self.columns@.len(),
                forall|a: int, b: int|
                    0 <= a < b < j ==> {
                        &&& (#[trigger] self.columns@[a]).id != (#[trigger] self.columns@[b]).id
                        &&& self.columns@[a].name@ != self.columns@[b].name@
                    },
            decreases n - j,
        {
            let mut i: usize = 0;
            while i < j
                invariant
                    i <= j < n,
                    n == self.columns@.len(),
                    forall|a: int|
                        0 <= a < i ==> {
                            &&& (#[trigger] self.columns@[a]).id != self.columns@[j as int].id
                            &&& self.columns@[a].name@ != self.columns@[j as int].name@
                        },
                decreases j - i,
            {
                if self.columns[i].id == self.columns[j].id {
                    return false;
                }
                if self.columns[i].name == self.columns[j].name {
                    return false;
                }
                i += 1;
            }
            j += 1;
        }
        true
    }

    pub fn partition_key(&self) -> (c: Arc<ColumnMetaData>)
        requires
            self.idx_partition_key < self.columns@.len(),
        ensures
            c == self.columns@[self.idx_partition_key as int],
    {
        self.columns[self.idx_partition_key].clone()
    }

    /// The column of the `idx`-th cluster key, in key definition order.
    pub fn cluster_key(&self, idx: usize) -> (c: Arc<ColumnMetaData>)
        requires
            idx < self.idx_cluster_keys@.len(),
            self.idx_cluster_keys@[idx as int] < self.columns@.len(),
        ensures
            c == self.columns@[self.idx_cluster_keys@[idx as int] as int],
    {
        self.columns[self.idx_cluster_keys[idx]].clone()
    }

    /// The column that the id map gives for the id; `None` where the table
    /// has no column under that id.
    pub fn column_by_id(&self, col_id: u128) -> (c: Option<Arc<ColumnMetaData>>)
        ensures
            match c {
                Some(col) => self.spec_column_by_id(col_id) == Some(*col),
                None => self.spec_column_by_id(col_id) is None,
            },
    {
        match self.columns_by_id.get(&col_id) {
            Some(at) => {
                let i: usize = *at;
                if i < self.columns.len() && self.columns[i].id == col_id {
                    Some(self.columns[i].clone())
                } else {
                    None
                }
            },
            None => None,
        }
    }
}

/// What a cell holds: nothing, because the value was deleted, or the
/// encoded value, borrowed from the buffer it lives in.
pub enum TableCellData<'a> {
    Tombstone,
    Regular(&'a [u8]),
}

impl<'a> View for TableCellData<'a> {
    type V = Option<Seq<u8>>;

    open spec fn view(&self) -> Option<Seq<u8>> {
        match *self {
            TableCellData::Tombstone => None,
            TableCellData::Regular(bytes) => Some(bytes@),
        }
    }
}

/// A cell as a value: the column's id, the two timestamps, and the encoded
/// value unless the cell is a tombstone.
pub struct CellModel {
    pub id: u128,
    pub timestamp: DbTimestamp,
    pub expiry: DbExpiryTimestamp,
    pub data: Option<Seq<u8>>,
}

/// One column's value in one row, with its write timestamp and expiry.
pub struct TableCell<'a> {
    pub meta_data: Arc<ColumnMetaData>,
    pub timestamp: DbTimestamp,
    pub expiry: DbExpiryTimestamp,
    pub data: TableCellData<'a>,
}

impl<'a> View for TableCell<'a> {
    type V = CellModel;

    open spec fn view(&self) -> CellModel {
        CellModel {
            id: self.meta_data.id,
            timestamp: self.timestamp,
            expiry: self.expiry,
            data: self.data@,
        }
    }
}

impl<'a> TableCell<'a> {
    /// Whether the cell's column is the column that the table has under
    /// the cell's column id.
    pub open spec fn resolved(&self, schema: TableMetaData) -> bool {
        schema.spec_column_by_id(self.meta_data.id) == Some(*self.meta_data)
    }
}

impl<'a> RowDetails<'a> {
    /// Whether every regular cell's column is the table's column of that id.
    pub open spec fn resolved(&self, schema: TableMetaData) -> bool {
        match *self {
            RowDetails::Regular(d) => forall|i: int|
                0 <= i < d.regular_cols@.len() ==> (#[trigger] d.regular_cols@[i]).resolved(schema),
            RowDetails::RowTombstone(d) => true,
        }
    }
}

/// The contents of a list of borrowed byte spans.
pub open spec fn spans(v: Seq<&[u8]>) -> Seq<Seq<u8>> {
    Seq::new(v.len(), |i: int| v[i]@)
}

/// The cells of a list as values.
pub open spec fn cells<'a>(v: Seq<TableCell<'a>>) -> Seq<CellModel> {
    Seq::new(v.len(), |i: int| v[i]@)
}

/// One edge of a deletion range as a value.
pub struct BoundModel {
    pub prefix: Seq<Seq<u8>>,
    pub inclusive: bool,
}

/// One edge of a deletion range: a prefix of the cluster key, and whether
/// the edge itself belongs to the range.
pub struct KeyBound<'a> {
    pub cluster_key_prefix: Vec<&'a [u8]>,
    pub is_inclusive: bool,
}

impl<'a> View for KeyBound<'a> {
    type V = BoundModel;

    open spec fn view(&self) -> BoundModel {
        BoundModel { prefix: spans(self.cluster_key_prefix@), inclusive: self.is_inclusive }
    }
}

/// The edge of a deletion range as a value; `None` is "unbounded".
pub open spec fn bound_model<'a>(b: Option<KeyBound<'a>>) -> Option<BoundModel> {
    match b {
        Some(k) => Some(k@),
        None => None,
    }
}

/// A deletion range within a partition. An absent bound leaves that side open.
pub struct RowTombstoneData<'a> {
    pub lower_bound: Option<KeyBound<'a>>,
    pub upper_bound: Option<KeyBound<'a>>,
}

/// An ordinary row: its cluster key, complete and in key definition order,
/// and any subset of its regular columns.
pub struct RegularRowData<'a> {
    pub pk_expiry: DbExpiryTimestamp,
    pub cluster_key: Vec<&'a [u8]>,
    pub regular_cols: Vec<TableCell<'a>>,
}

pub enum RowDetails<'a> {
    Regular(RegularRowData<'a>),
    RowTombstone(RowTombstoneData<'a>),
}

/// A row's details as a value.
pub enum DetailsModel {
    Regular { pk_expiry: DbExpiryTimestamp, cluster_key: Seq<Seq<u8>>, regular_cols: Seq<CellModel> },
    RowTombstone { lower_bound: Option<BoundModel>, upper_bound: Option<BoundModel> },
}

impl<'a> View for RowDetails<'a> {
    type V = DetailsModel;

    open spec fn view(&self) -> DetailsModel {
        match *self {
            RowDetails::Regular(d) => DetailsModel::Regular {
                pk_expiry: d.pk_expiry,
                cluster_key: spans(d.cluster_key@),
                regular_cols: cells(d.regular_cols@),
            },
            RowDetails::RowTombstone(d) => DetailsModel::RowTombstone {
                lower_bound: bound_model(d.lower_bound),
                upper_bound: bound_model(d.upper_bound),
            },
        }
    }
}

/// A row as a value: the encoded partition key and the details.
pub struct RowModel {
    pub partition_key: Seq<u8>,
    pub details: DetailsModel,
}

/// A sparse in-memory row: the primary key and the column data that go with
/// it. It borrows every byte span from the buffer it was built over.
pub struct TableRow<'a> {
    pub meta_data: Arc<TableMetaData>,
    pub partition_key: &'a [u8],
    pub token: Token,
    pub details: RowDetails<'a>,
}

impl<'a> View for TableRow<'a> {
    type V = RowModel;

    open spec fn view(&self) -> RowModel {
        RowModel { partition_key: self.partition_key@, details: self.details@ }
    }
}

/// The longest partition key that a token can be computed for: the hash
/// takes the key's length as a signed 32-bit number.
pub const MAX_PARTITION_KEY_LEN: usize = 0x7fff_ffff;

/// Calls `fasthash::murmur3::hash128` on the bytes. That function hands the
/// length on as a signed 32-bit number, so longer input is left out. It
/// picks one of two algorithms by the machine's pointer width, so nothing
/// is claimed of the hash that comes back.
#[verifier::external_body]
fn murmur3_hash128(bytes: &[u8]) -> (token: Token)
    requires
        bytes@.len() <= MAX_PARTITION_KEY_LEN,
{
    fasthash::murmur3::hash128(bytes)
}

impl<'a> TableRow<'a> {
    /// Builds a row and computes its token from the partition key, which
    /// must not be longer than a token can be computed for.
    pub fn new(meta_data: Arc<TableMetaData>, partition_key: &'a [u8], details: RowDetails<'a>) -> (row:
        TableRow<'a>)
        requires
            partition_key@.len() <= MAX_PARTITION_KEY_LEN,
        ensures
            row.meta_data == meta_data,
            row.partition_key == partition_key,
            row.details == details,
    {
        let token: Token = murmur3_hash128(partition_key);
        TableRow::new_with_known_token(meta_data, partition_key, token, details)
    }

    /// Builds a row whose token is known already, as for a row that was found
    /// through the index.
    pub fn new_with_known_token(
        meta_data: Arc<TableMetaData>,
        partition_key: &'a [u8],
        token: Token,
        details: RowDetails<'a>,
    ) -> (row: TableRow<'a>)
        ensures
            row.meta_data == meta_data,
            row.partition_key == partition_key,
            row.token == token,
            row.details == details,
    {
        TableRow { meta_data, partition_key, token, details }
    }
}

} // verus!
