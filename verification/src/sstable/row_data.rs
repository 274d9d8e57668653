use std::sync::Arc;
use vstd::prelude::*;
use crate::db::{
    MAX_PARTITION_KEY_LEN, bound_model, cells, spans, BoundModel, CellModel, ColumnMetaData, ColumnType, DetailsModel,
    KeyBound, RegularRowData, RowDetails, RowModel, RowTombstoneData, TableCell, TableCellData,
    TableMetaData, TableRow,
};
use crate::io::{be_u128, be_u32, be_u64, u128_from_be, u32_from_be, u64_from_be, CassRead, CassWrite};
use crate::sstable::{
    SstableMetaData, ID_CELL_DATA_REGULAR, ID_CELL_DATA_TOMBSTONE, ID_KEY_BOUND_EXCLUSIVE,
    ID_KEY_BOUND_INCLUSIVE, ID_KEY_BOUND_NONE, ID_ROW_REGULAR, ID_ROW_TOMBSTONE,
};
use crate::util::CassError;

verus! {

/// The first `k` byte strings of `vs`, one after the other.
pub open spec fn concat(vs: Seq<Seq<u8>>, k: int) -> Seq<u8>
    decreases k,
{
    if k <= 0 || k > vs.len() {
        Seq::empty()
    } else {
        concat(vs, k - 1) + vs[k - 1]
    }
}

/// The encoding of one cell: column id, timestamp, expiry, then a tag and,
/// unless the cell is a tombstone, the value.
pub open spec fn encode_cell(c: CellModel) -> Seq<u8> {
    be_u128(c.id) + be_u64(c.timestamp) + be_u32(c.expiry) + match c.data {
        None => seq![ID_CELL_DATA_TOMBSTONE],
        Some(d) => seq![ID_CELL_DATA_REGULAR] + d,
    }
}

/// The encodings of the first `k` cells of `cs`, one after the other.
pub open spec fn encode_cells(cs: Seq<CellModel>, k: int) -> Seq<u8>
    decreases k,
{
    if k <= 0 || k > cs.len() {
        Seq::empty()
    } else {
        encode_cells(cs, k - 1) + encode_cell(cs[k - 1])
    }
}

/// The encoding of one edge of a deletion range.
pub open spec fn encode_bound(b: Option<BoundModel>) -> Seq<u8> {
    match b {
        None => seq![ID_KEY_BOUND_NONE],
        Some(k) => seq![
            if k.inclusive {
                ID_KEY_BOUND_INCLUSIVE
            } else {
                ID_KEY_BOUND_EXCLUSIVE
            },
            k.prefix.len() as u8,
        ] + concat(k.prefix, k.prefix.len() as int),
    }
}

/// The encoding of what follows a row's partition key.
pub open spec fn encode_details(d: DetailsModel) -> Seq<u8> {
    match d {
        DetailsModel::Regular { pk_expiry, cluster_key, regular_cols } => seq![ID_ROW_REGULAR]
            + be_u32(pk_expiry) + concat(cluster_key, cluster_key.len() as int) + be_u32(
            regular_cols.len() as u32,
        ) + encode_cells(regular_cols, regular_cols.len() as int),
        DetailsModel::RowTombstone { lower_bound, upper_bound } => seq![ID_ROW_TOMBSTONE]
            + encode_bound(lower_bound) + encode_bound(upper_bound),
    }
}

/// The encoding of a row.
pub open spec fn encode_row(r: RowModel) -> Seq<u8> {
    r.partition_key + encode_details(r.details)
}

/// Whether a bound's prefix fits its one-byte count.
pub open spec fn bound_encodable(b: Option<BoundModel>) -> bool {
    match b {
        None => true,
        Some(k) => k.prefix.len() <= u8::MAX,
    }
}

/// Whether a row's counts fit the widths that the layout gives them.
pub open spec fn details_encodable(d: DetailsModel) -> Option<CassError> {
    match d {
        DetailsModel::Regular { pk_expiry, cluster_key, regular_cols } => if regular_cols.len()
            <= u32::MAX {
            None
        } else {
            Some(CassError::TooManyCells)
        },
        DetailsModel::RowTombstone { lower_bound, upper_bound } => if bound_encodable(lower_bound)
            && bound_encodable(upper_bound) {
            None
        } else {
            Some(CassError::KeyPrefixTooLong)
        },
    }
}

/// Why a row cannot be written, if it cannot: its partition key is too long
/// for a token to be computed when the row is read, or its counts do not
/// fit the widths that the layout gives them.
pub open spec fn row_encodable(r: RowModel) -> Option<CassError> {
    if r.partition_key.len() > MAX_PARTITION_KEY_LEN {
        Some(CassError::PartitionKeyTooLong)
    } else {
        details_encodable(r.details)
    }
}

/// The length of a value of fixed width `n`, if `s` holds all of it.
pub open spec fn fixed_len(n: int, s: Seq<u8>) -> Option<int> {
    if n <= s.len() {
        Some(n)
    } else {
        None
    }
}

/// The length of the value of type `t` that starts `s`: the sum, part by
/// part, of what the type tree asks for, a text's length taken from its
/// prefix. `None` where `s` ends before the value does.
pub open spec fn value_len(t: ColumnType, s: Seq<u8>) -> Option<int>
    decreases t, 0int,
{
    match t {
        ColumnType::Text => if 4 <= s.len() && 4 + u32_from_be(s) <= s.len() {
            Some(4 + u32_from_be(s))
        } else {
            None
        },
        ColumnType::Uuid => fixed_len(16, s),
        ColumnType::Int => fixed_len(4, s),
        ColumnType::Long => fixed_len(8, s),
        ColumnType::Timestamp => fixed_len(8, s),
        ColumnType::Boolean => fixed_len(1, s),
        ColumnType::Tuple(parts) => parts_len(parts@, parts@.len() as int, s),
    }
}

/// The length of the first `k` parts of a tuple whose encoding starts `s`.
pub open spec fn parts_len(parts: Seq<ColumnType>, k: int, s: Seq<u8>) -> Option<int>
    decreases parts, k,
{
    if k <= 0 || k > parts.len() {
        Some(0)
    } else {
        match parts_len(parts, k - 1, s) {
            Some(a) => match value_len(parts[k - 1], s.skip(a)) {
                Some(b) => Some(a + b),
                None => None,
            },
            None => None,
        }
    }
}

/// The type of the partition-key column.
pub open spec fn partition_key_type(schema: TableMetaData) -> ColumnType {
    schema.columns@[schema.idx_partition_key as int].col_type
}

/// The types of the cluster-key columns, in key definition order.
pub open spec fn cluster_types(schema: TableMetaData) -> Seq<ColumnType> {
    Seq::new(
        schema.idx_cluster_keys@.len(),
        |i: int| schema.columns@[schema.idx_cluster_keys@[i] as int].col_type,
    )
}

/// The first `k` values that start `s`, typed by `types`, and their total length.
pub open spec fn parse_values(types: Seq<ColumnType>, k: int, s: Seq<u8>) -> Result<
    (Seq<Seq<u8>>, int),
    CassError,
>
    decreases k,
{
    if k <= 0 || k > types.len() {
        Ok((Seq::empty(), 0))
    } else {
        match parse_values(types, k - 1, s) {
            Ok((vs, n)) => match value_len(types[k - 1], s.skip(n)) {
                Some(m) => Ok((vs.push(s.subrange(n, n + m)), n + m)),
                None => Err(CassError::UnexpectedEnd),
            },
            Err(e) => Err(e),
        }
    }
}

/// What a cell's tag and value decode to, for a column of type `t`.
pub open spec fn parse_cell_data(t: ColumnType, s: Seq<u8>) -> Result<
    (Option<Seq<u8>>, int),
    CassError,
> {
    if s.len() < 1 {
        Err(CassError::UnexpectedEnd)
    } else if s[0] == ID_CELL_DATA_TOMBSTONE {
        Ok((None, 1))
    } else if s[0] == ID_CELL_DATA_REGULAR {
        match value_len(t, s.skip(1)) {
            Some(n) => Ok((Some(s.subrange(1, 1 + n)), 1 + n)),
            None => Err(CassError::UnexpectedEnd),
        }
    } else {
        Err(CassError::InvalidCellData(s[0]))
    }
}

/// What one cell decodes to. Its column is found by the id it carries.
pub open spec fn parse_cell(schema: TableMetaData, s: Seq<u8>) -> Result<(CellModel, int), CassError> {
    if s.len() < 28 {
        Err(CassError::UnexpectedEnd)
    } else {
        match schema.spec_column_by_id(u128_from_be(s)) {
            None => Err(CassError::UnknownColumn(u128_from_be(s))),
            Some(col) => match parse_cell_data(col.col_type, s.skip(28)) {
                Ok((data, n)) => Ok(
                    (
                        CellModel {
                            id: u128_from_be(s),
                            timestamp: u64_from_be(s.skip(16)),
                            expiry: u32_from_be(s.skip(24)),
                            data,
                        },
                        28 + n,
                    ),
                ),
                Err(e) => Err(e),
            },
        }
    }
}

/// What the first `k` cells that start `s` decode to, and their total length.
pub open spec fn parse_cells(schema: TableMetaData, k: int, s: Seq<u8>) -> Result<
    (Seq<CellModel>, int),
    CassError,
>
    decreases k,
{
    if k <= 0 {
        Ok((Seq::empty(), 0))
    } else {
        match parse_cells(schema, k - 1, s) {
            Ok((cs, n)) => match parse_cell(schema, s.skip(n)) {
                Ok((c, m)) => Ok((cs.push(c), n + m)),
                Err(e) => Err(e),
            },
            Err(e) => Err(e),
        }
    }
}

/// What one edge of a deletion range decodes to.
pub open spec fn parse_bound(schema: TableMetaData, s: Seq<u8>) -> Result<
    (Option<BoundModel>, int),
    CassError,
> {
    if s.len() < 1 {
        Err(CassError::UnexpectedEnd)
    } else if s[0] == ID_KEY_BOUND_NONE {
        Ok((None, 1))
    } else if s[0] != ID_KEY_BOUND_INCLUSIVE && s[0] != ID_KEY_BOUND_EXCLUSIVE {
        Err(CassError::InvalidKeyBound(s[0]))
    } else if s.len() < 2 {
        Err(CassError::UnexpectedEnd)
    } else if s[1] > schema.idx_cluster_keys@.len() {
        Err(CassError::KeyPrefixOutOfRange(s[1]))
    } else {
        match parse_values(cluster_types(schema), s[1] as int, s.skip(2)) {
            Ok((vs, n)) => Ok(
                (Some(BoundModel { prefix: vs, inclusive: s[0] == ID_KEY_BOUND_INCLUSIVE }), 2 + n),
            ),
            Err(e) => Err(e),
        }
    }
}

/// What the body of a regular row decodes to; `s` starts behind the tag.
pub open spec fn parse_regular(schema: TableMetaData, s: Seq<u8>) -> Result<
    (DetailsModel, int),
    CassError,
> {
    if s.len() < 4 {
        Err(CassError::UnexpectedEnd)
    } else {
        match parse_values(
            cluster_types(schema),
            schema.idx_cluster_keys@.len() as int,
            s.skip(4),
        ) {
            Err(e) => Err(e),
            Ok((key, n)) => if s.len() < 4 + n + 4 {
                Err(CassError::UnexpectedEnd)
            } else {
                match parse_cells(
                    schema,
                    u32_from_be(s.skip(4 + n)) as int,
                    s.skip(4 + n + 4),
                ) {
                    Err(e) => Err(e),
                    Ok((cs, m)) => Ok(
                        (
                            DetailsModel::Regular {
                                pk_expiry: u32_from_be(s),
                                cluster_key: key,
                                regular_cols: cs,
                            },
                            4 + n + 4 + m,
                        ),
                    ),
                }
            },
        }
    }
}

/// What the body of a tombstone row decodes to; `s` starts behind the tag.
pub open spec fn parse_tombstone(schema: TableMetaData, s: Seq<u8>) -> Result<
    (DetailsModel, int),
    CassError,
> {
    match parse_bound(schema, s) {
        Err(e) => Err(e),
        Ok((lower, n)) => match parse_bound(schema, s.skip(n)) {
            Err(e) => Err(e),
            Ok((upper, m)) => Ok(
                (DetailsModel::RowTombstone { lower_bound: lower, upper_bound: upper }, n + m),
            ),
        },
    }
}

/// What the row that starts `s` decodes to, and how many bytes it takes.
/// This is the whole of the row format: the partition key's value, the
/// row-kind tag, and the body that the tag announces. A partition key that
/// is too long for a token to be computed is refused.
pub open spec fn parse_row(schema: TableMetaData, s: Seq<u8>) -> Result<(RowModel, int), CassError> {
    match value_len(partition_key_type(schema), s) {
        None => Err(CassError::UnexpectedEnd),
        Some(n) => if n > MAX_PARTITION_KEY_LEN {
            Err(CassError::PartitionKeyTooLong)
        } else if s.len() < n + 1 {
            Err(CassError::UnexpectedEnd)
        } else if s[n] == ID_ROW_TOMBSTONE {
            match parse_tombstone(schema, s.skip(n + 1)) {
                Err(e) => Err(e),
                Ok((d, m)) => Ok((RowModel { partition_key: s.subrange(0, n), details: d }, n + 1 + m)),
            }
        } else if s[n] == ID_ROW_REGULAR {
            match parse_regular(schema, s.skip(n + 1)) {
                Err(e) => Err(e),
                Ok((d, m)) => Ok((RowModel { partition_key: s.subrange(0, n), details: d }, n + 1 + m)),
            }
        } else {
            Err(CassError::InvalidRowKind(s[n]))
        },
    }
}

/// Reads rows, one after the other, from the bytes of a data file.
pub struct RowDataReader<'a> {
    pub meta_data: SstableMetaData,
    pub buf: CassRead<'a>,
}

impl<'a> RowDataReader<'a> {
    pub fn new(meta_data: SstableMetaData, buf: CassRead<'a>) -> (r: RowDataReader<'a>)
        ensures
            r.meta_data == meta_data,
            r.buf == buf,
    {
        RowDataReader { meta_data, buf }
    }

    /// The schema that the rows are decoded against.
    pub open spec fn schema(&self) -> TableMetaData {
        *self.meta_data.table_metadata
    }

    /// Whether a call moved the cursor by `n` bytes and left all else alone.
    pub open spec fn advanced(&self, before: &Self, n: int) -> bool {
        &&& 0 <= n
        &&& self.meta_data == before.meta_data
        &&& self.buf@ == before.buf@
        &&& self.buf.pos == before.buf.pos + n
    }

    /// The length of the value of the given type that starts `offs` bytes
    /// behind the cursor. Nothing is read past the end of the buffer.
    pub fn size(&self, col_type: &ColumnType, offs: usize) -> (r: Result<usize, CassError>)
        requires
            self.buf.pos + offs <= self.buf@.len(),
        ensures
            match value_len(*col_type, self.buf.rest().skip(offs as int)) {
                Some(n) => r is Ok && r->Ok_0 == n && self.buf.pos + offs + n <= self.buf@.len(),
                None => r == Err::<usize, CassError>(CassError::UnexpectedEnd),
            },
        decreases col_type,
    {
        let ghost s = self.buf.rest().skip(offs as int);
        let total: usize = self.buf.buf.len();
        match col_type {
            ColumnType::Text => {
                if !self.buf.has_remaining(offs) {
                    return Err(CassError::UnexpectedEnd);
                }
                let left: usize = self.buf.buf.len() - self.buf.pos - offs;
                if left < 4 {
                    return Err(CassError::UnexpectedEnd);
                }
                let len: u32 = self.buf.peek_u32_offs(offs);
                assert(self.buf@.skip(self.buf.pos + offs) =~= s);
                if left - 4 < len as usize {
                    return Err(CassError::UnexpectedEnd);
                }
                Ok(4 + len as usize)
            },
            ColumnType::Uuid => self.fixed_size(16, offs),
            ColumnType::Boolean => self.fixed_size(1, offs),
            ColumnType::Int => self.fixed_size(4, offs),
            ColumnType::Long => self.fixed_size(8, offs),
            ColumnType::Timestamp => self.fixed_size(8, offs),
            ColumnType::Tuple(parts) => {
                let mut result: usize = 0;
                let mut i: usize = 0;
                while i < parts.len()
                    invariant
                        i <= parts@.len(),
                        self.buf.pos + offs + result <= total == self.buf@.len(),
                        s == self.buf.rest().skip(offs as int),
                        parts_len(parts@, i as int, s) == Some(result as int),
                        *col_type == ColumnType::Tuple(*parts),
                    decreases parts@.len() - i,
                {
                    assert(s.skip(result as int) =~= self.buf.rest().skip(offs + result));
                    match self.size(&parts[i], offs + result) {
                        Ok(n) => {
                            result += n;
                        },
                        Err(e) => {
                            proof {
                                lemma_parts_len_none(parts@, i + 1, parts@.len() as int, s);
                            }
                            return Err(e);
                        },
                    }
                    i += 1;
                }
                Ok(result)
            },
        }
    }

    fn fixed_size(&self, width: usize, offs: usize) -> (r: Result<usize, CassError>)
        requires
            self.buf.pos + offs <= self.buf@.len(),
        ensures
            match fixed_len(width as int, self.buf.rest().skip(offs as int)) {
                Some(n) => r is Ok && r->Ok_0 == n && self.buf.pos + offs + n <= self.buf@.len(),
                None => r == Err::<usize, CassError>(CassError::UnexpectedEnd),
            },
    {
        let left: usize = self.buf.buf.len() - self.buf.pos - offs;
        if left < width {
            Err(CassError::UnexpectedEnd)
        } else {
            Ok(width)
        }
    }

    /// Reads the value of the given column that starts at the cursor, as a
    /// span of the buffer.
    pub fn read_table_cell_data_raw(&mut self, column_meta_data: Arc<ColumnMetaData>) -> (r: Result<
        &'a [u8],
        CassError,
    >)
        requires
            old(self).buf.pos <= old(self).buf@.len(),
        ensures
            final(self).buf.pos <= final(self).buf@.len(),
            match value_len(column_meta_data.col_type, old(self).buf.rest()) {
                Some(n) => r is Ok && 0 <= n <= old(self).buf.rest().len() && r->Ok_0@ == old(
                    self,
                ).buf.rest().subrange(0, n) && final(self).advanced(old(self), n),
                None => r == Err::<&[u8], CassError>(CassError::UnexpectedEnd)
                    && final(self).advanced(old(self), 0),
            },
    {
        assert(self.buf.rest().skip(0) =~= self.buf.rest());
        match self.size(&column_meta_data.col_type, 0) {
            Ok(len) => {
                let span = self.buf.read_slice(len);
                assert(span@ =~= old(self).buf.rest().subrange(0, len as int));
                Ok(span)
            },
            Err(e) => Err(e),
        }
    }

    /// Reads a cell's tag and, unless the cell is a tombstone, its value.
    pub fn read_table_cell_data(&mut self, column_meta_data: Arc<ColumnMetaData>) -> (r: Result<
        TableCellData<'a>,
        CassError,
    >)
        requires
            old(self).buf.pos <= old(self).buf@.len(),
        ensures
            final(self).buf.pos <= final(self).buf@.len(),
            final(self).meta_data == old(self).meta_data,
            final(self).buf@ == old(self).buf@,
            match parse_cell_data(column_meta_data.col_type, old(self).buf.rest()) {
                Ok((data, n)) => r is Ok && r->Ok_0@ == data && final(self).advanced(old(self), n),
                Err(e) => r is Err && r->Err_0 == e,
            },
    {
        if !self.buf.has_remaining(1) {
            return Err(CassError::UnexpectedEnd);
        }
        let tag: u8 = self.buf.read_u8();
        assert(self.buf.rest() =~= old(self).buf.rest().skip(1));
        if tag == ID_CELL_DATA_TOMBSTONE {
            Ok(TableCellData::Tombstone)
        } else if tag == ID_CELL_DATA_REGULAR {
            match self.read_table_cell_data_raw(column_meta_data) {
                Ok(span) => {
                    assert(span@ =~= old(self).buf.rest().subrange(1, 1 + span@.len() as int));
                    Ok(TableCellData::Regular(span))
                },
                Err(e) => Err(e),
            }
        } else {
            Err(CassError::InvalidCellData(tag))
        }
    }

    /// Reads one cell: column id, timestamp, expiry and data. The column is
    /// looked up by its id; an id that the table does not know is an error.
    pub fn read_table_cell(&mut self) -> (r: Result<TableCell<'a>, CassError>)
        requires
            old(self).buf.pos <= old(self).buf@.len(),
        ensures
            final(self).buf.pos <= final(self).buf@.len(),
            final(self).meta_data == old(self).meta_data,
            final(self).buf@ == old(self).buf@,
            match parse_cell(old(self).schema(), old(self).buf.rest()) {
                Ok((cell, n)) => r is Ok && r->Ok_0@ == cell && r->Ok_0.resolved(old(self).schema())
                    && final(self).advanced(old(self), n),
                Err(e) => r is Err && r->Err_0 == e,
            },
    {
        if !self.buf.has_remaining(28) {
            return Err(CassError::UnexpectedEnd);
        }
        let ghost s = self.buf.rest();
        let col_id: u128 = self.buf.read_uuid();
        assert(self.buf.rest() =~= s.skip(16));
        let timestamp: u64 = self.buf.read_db_timestamp();
        assert(self.buf.rest() =~= s.skip(24));
        let expiry: u32 = self.buf.read_db_expiry_timestamp();
        assert(self.buf.rest() =~= s.skip(28));
        let column_metadata = match self.meta_data.table_metadata.column_by_id(col_id) {
            Some(col) => col,
            None => {
                return Err(CassError::UnknownColumn(col_id));
            },
        };
        match self.read_table_cell_data(column_metadata.clone()) {
            Ok(data) => Ok(TableCell { meta_data: column_metadata, timestamp, expiry, data }),
            Err(e) => Err(e),
        }
    }

    /// Reads the values of the first `count` cluster-key columns.
    fn read_cluster_values(&mut self, count: usize) -> (r: Result<Vec<&'a [u8]>, CassError>)
        requires
            old(self).buf.pos <= old(self).buf@.len(),
            old(self).schema().wf(),
            count <= old(self).schema().idx_cluster_keys@.len(),
        ensures
            final(self).buf.pos <= final(self).buf@.len(),
            final(self).meta_data == old(self).meta_data,
            final(self).buf@ == old(self).buf@,
            match parse_values(cluster_types(old(self).schema()), count as int, old(self).buf.rest()) {
                Ok((vs, n)) => r is Ok && spans(r->Ok_0@) == vs && final(self).advanced(
                    old(self),
                    n,
                ),
                Err(e) => r is Err && r->Err_0 == e,
            },
    {
        let ghost s = self.buf.rest();
        let ghost types = cluster_types(self.schema());
        let mut values: Vec<&'a [u8]> = Vec::new();
        let mut idx: usize = 0;
        assert(spans(values@) =~= Seq::<Seq<u8>>::empty());
        while idx < count
            invariant
                idx <= count <= self.schema().idx_cluster_keys@.len(),
                self.schema().wf(),
                old(self).buf.pos <= self.buf.pos <= self.buf@.len(),
                self.meta_data == old(self).meta_data,
                self.buf@ == old(self).buf@,
                s == old(self).buf.rest(),
                types == cluster_types(self.schema()),
                parse_values(types, idx as int, s) == Ok::<(Seq<Seq<u8>>, int), CassError>(
                    (spans(values@), self.buf.pos - old(self).buf.pos),
                ),
            decreases count - idx,
        {
            let column = self.meta_data.table_metadata.cluster_key(idx);
            let ghost n = self.buf.pos - old(self).buf.pos;
            let ghost before = values@;
            assert(self.buf.rest() =~= s.skip(n));
            assert(column.col_type == types[idx as int]);
            match self.read_table_cell_data_raw(column) {
                Ok(span) => {
                    values.push(span);
                    assert(span@ =~= s.subrange(n, n + span@.len() as int));
                    assert(spans(values@) =~= spans(before).push(span@));
                },
                Err(e) => {
                    proof {
                        lemma_parse_values_err(types, idx + 1, count as int, s);
                    }
                    return Err(e);
                },
            }
            idx += 1;
        }
        Ok(values)
    }

    /// Reads one edge of a deletion range.
    pub fn read_key_bound(&mut self) -> (r: Result<Option<KeyBound<'a>>, CassError>)
        requires
            old(self).buf.pos <= old(self).buf@.len(),
            old(self).schema().wf(),
        ensures
            final(self).buf.pos <= final(self).buf@.len(),
            final(self).meta_data == old(self).meta_data,
            final(self).buf@ == old(self).buf@,
            match parse_bound(old(self).schema(), old(self).buf.rest()) {
                Ok((bound, n)) => r is Ok && bound_model(r->Ok_0) == bound && final(self).advanced(
                    old(self),
                    n,
                ),
                Err(e) => r is Err && r->Err_0 == e,
            },
    {
        let ghost s = self.buf.rest();
        if !self.buf.has_remaining(1) {
            return Err(CassError::UnexpectedEnd);
        }
        let tag: u8 = self.buf.read_u8();
        if tag == ID_KEY_BOUND_NONE {
            return Ok(None);
        }
        if tag != ID_KEY_BOUND_INCLUSIVE && tag != ID_KEY_BOUND_EXCLUSIVE {
            return Err(CassError::InvalidKeyBound(tag));
        }
        if !self.buf.has_remaining(1) {
            return Err(CassError::UnexpectedEnd);
        }
        let num_cluster_key_cols: u8 = self.buf.read_u8();
        if num_cluster_key_cols as usize > self.meta_data.table_metadata.idx_cluster_keys.len() {
            return Err(CassError::KeyPrefixOutOfRange(num_cluster_key_cols));
        }
        assert(self.buf.rest() =~= s.skip(2));
        match self.read_cluster_values(num_cluster_key_cols as usize) {
            Ok(cluster_key_prefix) => Ok(
                Some(KeyBound { cluster_key_prefix, is_inclusive: tag == ID_KEY_BOUND_INCLUSIVE }),
            ),
            Err(e) => Err(e),
        }
    }

    /// Reads `count` cells, one after the other.
    fn read_cells(&mut self, count: u32) -> (r: Result<Vec<TableCell<'a>>, CassError>)
        requires
            old(self).buf.pos <= old(self).buf@.len(),
        ensures
            final(self).buf.pos <= final(self).buf@.len(),
            final(self).meta_data == old(self).meta_data,
            final(self).buf@ == old(self).buf@,
            match parse_cells(old(self).schema(), count as int, old(self).buf.rest()) {
                Ok((cs, n)) => {
                    &&& r is Ok
                    &&& cells(r->Ok_0@) == cs
                    &&& forall|i: int|
                        0 <= i < r->Ok_0@.len() ==> (#[trigger] r->Ok_0@[i]).resolved(
                            old(self).schema(),
                        )
                    &&& final(self).advanced(old(self), n)
                },
                Err(e) => r is Err && r->Err_0 == e,
            },
    {
        let ghost s = self.buf.rest();
        let mut regular_cols: Vec<TableCell<'a>> = Vec::new();
        let mut i: u32 = 0;
        assert(cells(regular_cols@) =~= Seq::<CellModel>::empty());
        while i < count
            invariant
                i <= count,
                old(self).buf.pos <= self.buf.pos <= self.buf@.len(),
                self.meta_data == old(self).meta_data,
                self.buf@ == old(self).buf@,
                s == old(self).buf.rest(),
                forall|j: int|
                    0 <= j < regular_cols@.len() ==> (#[trigger] regular_cols@[j]).resolved(
                        self.schema(),
                    ),
                parse_cells(self.schema(), i as int, s) == Ok::<(Seq<CellModel>, int), CassError>(
                    (cells(regular_cols@), self.buf.pos - old(self).buf.pos),
                ),
            decreases count - i,
        {
            let ghost before = regular_cols@;
            assert(self.buf.rest() =~= s.skip(self.buf.pos - old(self).buf.pos));
            match self.read_table_cell() {
                Ok(cell) => {
                    regular_cols.push(cell);
                    assert(cells(regular_cols@) =~= cells(before).push(cell@));
                },
                Err(e) => {
                    proof {
                        lemma_parse_cells_err(self.schema(), i + 1, count as int, s);
                    }
                    return Err(e);
                },
            }
            i += 1;
        }
        Ok(regular_cols)
    }

    /// Reads the body of a tombstone row: its lower and its upper bound.
    fn read_tombstone_row(&mut self) -> (r: Result<RowDetails<'a>, CassError>)
        requires
            old(self).buf.pos <= old(self).buf@.len(),
            old(self).schema().wf(),
        ensures
            final(self).buf.pos <= final(self).buf@.len(),
            final(self).meta_data == old(self).meta_data,
            final(self).buf@ == old(self).buf@,
            match parse_tombstone(old(self).schema(), old(self).buf.rest()) {
                Ok((d, n)) => r is Ok && r->Ok_0@ == d && r->Ok_0.resolved(old(self).schema())
                    && final(self).advanced(old(self), n),
                Err(e) => r is Err && r->Err_0 == e,
            },
    {
        let ghost s = self.buf.rest();
        let lower_bound = match self.read_key_bound() {
            Ok(b) => b,
            Err(e) => {
                return Err(e);
            },
        };
        assert(self.buf.rest() =~= s.skip(self.buf.pos - old(self).buf.pos));
        let upper_bound = match self.read_key_bound() {
            Ok(b) => b,
            Err(e) => {
                return Err(e);
            },
        };
        Ok(RowDetails::RowTombstone(RowTombstoneData { lower_bound, upper_bound }))
    }

    /// Reads the body of a regular row: the partition-level expiry, the
    /// complete cluster key, and the regular cells behind their count.
    fn read_regular_row(&mut self) -> (r: Result<RowDetails<'a>, CassError>)
        requires
            old(self).buf.pos <= old(self).buf@.len(),
            old(self).schema().wf(),
        ensures
            final(self).buf.pos <= final(self).buf@.len(),
            final(self).meta_data == old(self).meta_data,
            final(self).buf@ == old(self).buf@,
            match parse_regular(old(self).schema(), old(self).buf.rest()) {
                Ok((d, n)) => r is Ok && r->Ok_0@ == d && r->Ok_0.resolved(old(self).schema())
                    && final(self).advanced(old(self), n),
                Err(e) => r is Err && r->Err_0 == e,
            },
    {
        let ghost s = self.buf.rest();
        if !self.buf.has_remaining(4) {
            return Err(CassError::UnexpectedEnd);
        }
        let pk_expiry: u32 = self.buf.read_db_expiry_timestamp();
        assert(self.buf.rest() =~= s.skip(4));
        let count: usize = self.meta_data.table_metadata.idx_cluster_keys.len();
        let cluster_key = match self.read_cluster_values(count) {
            Ok(key) => key,
            Err(e) => {
                return Err(e);
            },
        };
        let ghost k = self.buf.pos - old(self).buf.pos - 4;
        assert(self.buf.rest() =~= s.skip(4 + k));
        if !self.buf.has_remaining(4) {
            return Err(CassError::UnexpectedEnd);
        }
        let num_regular_cols: u32 = self.buf.read_u32();
        assert(self.buf.rest() =~= s.skip(4 + k + 4));
        let regular_cols = match self.read_cells(num_regular_cols) {
            Ok(cols) => cols,
            Err(e) => {
                return Err(e);
            },
        };
        Ok(RowDetails::Regular(RegularRowData { pk_expiry, cluster_key, regular_cols }))
    }

    /// Decodes the row that starts at the cursor and moves the cursor behind
    /// it. Every byte span of the row borrows from the buffer. There is no
    /// end marker: where the buffer ends, the caller has to know.
    pub fn read_row(&mut self) -> (r: Result<TableRow<'a>, CassError>)
        requires
            old(self).buf.pos <= old(self).buf@.len(),
            old(self).schema().wf(),
        ensures
            final(self).buf.pos <= final(self).buf@.len(),
            final(self).meta_data == old(self).meta_data,
            final(self).buf@ == old(self).buf@,
            match parse_row(old(self).schema(), old(self).buf.rest()) {
                Ok((row, n)) => {
                    &&& r is Ok
                    &&& r->Ok_0@ == row
                    &&& r->Ok_0.meta_data == old(self).meta_data.table_metadata
                    &&& r->Ok_0.details.resolved(old(self).schema())
                    &&& final(self).advanced(old(self), n)
                },
                Err(e) => r is Err && r->Err_0 == e,
            },
    {
        let ghost s = self.buf.rest();
        let partition_key_def = self.meta_data.table_metadata.partition_key();
        let partition_key = match self.read_table_cell_data_raw(partition_key_def) {
            Ok(span) => span,
            Err(e) => {
                return Err(e);
            },
        };
        let ghost n = partition_key@.len() as int;
        if partition_key.len() > MAX_PARTITION_KEY_LEN {
            return Err(CassError::PartitionKeyTooLong);
        }
        let table_metadata = self.meta_data.table_metadata.clone();
        if !self.buf.has_remaining(1) {
            return Err(CassError::UnexpectedEnd);
        }
        let kind: u8 = self.buf.read_u8();
        assert(self.buf.rest() =~= s.skip(n + 1));
        let row_details = if kind == ID_ROW_TOMBSTONE {
            match self.read_tombstone_row() {
                Ok(d) => d,
                Err(e) => {
                    return Err(e);
                },
            }
        } else if kind == ID_ROW_REGULAR {
            match self.read_regular_row() {
                Ok(d) => d,
                Err(e) => {
                    return Err(e);
                },
            }
        } else {
            return Err(CassError::InvalidRowKind(kind));
        };
        Ok(TableRow::new(table_metadata, partition_key, row_details))
    }
}

/// Once a value does not decode, no longer run of values does, and the
/// error is the same.
pub proof fn lemma_parse_values_err(types: Seq<ColumnType>, k: int, further: int, s: Seq<u8>)
    requires
        0 <= k <= further <= types.len(),
        parse_values(types, k, s) is Err,
    ensures
        parse_values(types, further, s) == parse_values(types, k, s),
    decreases further - k,
{
    if k < further {
        lemma_parse_values_err(types, k, further - 1, s);
    }
}

/// Once a cell does not decode, no longer run of cells does, and the error
/// is the same.
pub proof fn lemma_parse_cells_err(schema: TableMetaData, k: int, further: int, s: Seq<u8>)
    requires
        0 <= k <= further,
        parse_cells(schema, k, s) is Err,
    ensures
        parse_cells(schema, further, s) == parse_cells(schema, k, s),
    decreases further - k,
{
    if k < further {
        lemma_parse_cells_err(schema, k, further - 1, s);
    }
}

/// A value's length is never negative and never reaches past the end of
/// the bytes it was computed over.
pub proof fn lemma_value_len_bounds(t: ColumnType, s: Seq<u8>)
    ensures
        value_len(t, s) matches Some(n) ==> 0 <= n <= s.len(),
    decreases t, 0int,
{
    match t {
        ColumnType::Tuple(parts) => {
            lemma_parts_len_bounds(parts@, parts@.len() as int, s);
        },
        _ => {},
    }
}

/// The same for the first `k` parts of a tuple.
pub proof fn lemma_parts_len_bounds(parts: Seq<ColumnType>, k: int, s: Seq<u8>)
    ensures
        parts_len(parts, k, s) matches Some(n) ==> 0 <= n <= s.len(),
    decreases parts, k,
{
    if 0 < k <= parts.len() {
        lemma_parts_len_bounds(parts, k - 1, s);
        match parts_len(parts, k - 1, s) {
            Some(a) => {
                lemma_value_len_bounds(parts[k - 1], s.skip(a));
            },
            None => {},
        }
    }
}

/// Once a part of a tuple does not fit, no longer run of its parts does.
pub proof fn lemma_parts_len_none(parts: Seq<ColumnType>, k: int, further: int, s: Seq<u8>)
    requires
        0 <= k <= further <= parts.len(),
        parts_len(parts, k, s) is None,
    ensures
        parts_len(parts, further, s) is None,
    decreases further - k,
{
    if k < further {
        lemma_parts_len_none(parts, k, further - 1, s);
    }
}

/// Appends rows, one encoding after the other, to the bytes of a data file.
pub struct RowDataFileCreator {
    pub meta_data: SstableMetaData,
    pub out: CassWrite,
}

impl RowDataFileCreator {
    /// A writer for a new, empty data file.
    pub fn new(meta_data: SstableMetaData) -> (r: Result<RowDataFileCreator, CassError>)
        ensures
            r is Ok,
            r->Ok_0.meta_data == meta_data,
            r->Ok_0.out@ == Seq::<u8>::empty(),
    {
        Ok(RowDataFileCreator { meta_data, out: CassWrite::new(Vec::new()) })
    }

    /// Appends the encoding of one row behind what was written so far. A row
    /// whose partition key is too long to be read back, or whose counts do
    /// not fit the layout, is refused and nothing is written. Rows must come
    /// in key order and must not shadow one another; neither is checked here.
    pub fn append_row(&mut self, row: &TableRow) -> (r: Result<(), CassError>)
        ensures
            final(self).meta_data == old(self).meta_data,
            match row_encodable(row@) {
                None => r is Ok && final(self).out@ == old(self).out@ + encode_row(row@),
                Some(e) => r == Err::<(), CassError>(e) && final(self).out@ == old(self).out@,
            },
    {
        if row.partition_key.len() > MAX_PARTITION_KEY_LEN {
            return Err(CassError::PartitionKeyTooLong);
        }
        match &row.details {
            RowDetails::RowTombstone(data) => {
                if !Self::bound_fits(&data.lower_bound) || !Self::bound_fits(&data.upper_bound) {
                    return Err(CassError::KeyPrefixTooLong);
                }
                let _ = self.write_raw_cell_data(row.partition_key);
                let _ = self.write_tombstone_row(data);
                assert(self.out@ =~= old(self).out@ + encode_row(row@));
                Ok(())
            },
            RowDetails::Regular(data) => {
                if data.regular_cols.len() > u32::MAX as usize {
                    return Err(CassError::TooManyCells);
                }
                let _ = self.write_raw_cell_data(row.partition_key);
                let _ = self.write_regular_row(data);
                assert(self.out@ =~= old(self).out@ + encode_row(row@));
                Ok(())
            },
        }
    }

    fn bound_fits(b: &Option<KeyBound>) -> (fits: bool)
        ensures
            fits == bound_encodable(bound_model(*b)),
    {
        match b {
            None => true,
            Some(key_bound) => key_bound.cluster_key_prefix.len() <= 255,
        }
    }

    fn write_regular_row(&mut self, data: &RegularRowData) -> (r: Result<(), CassError>)
        requires
            data.regular_cols@.len() <= u32::MAX,
        ensures
            r is Ok,
            final(self).meta_data == old(self).meta_data,
            final(self).out@ == old(self).out@ + encode_details(RowDetails::Regular(*data)@),
    {
        let _ = self.out.write_u8(ID_ROW_REGULAR);
        let _ = self.out.write_db_expiry_timestamp(data.pk_expiry);
        let _ = self.write_raw_cells(&data.cluster_key);
        let _ = self.out.write_u32(data.regular_cols.len() as u32);
        let ghost before = self.out@;
        let ghost cs = cells(data.regular_cols@);
        let mut i: usize = 0;
        while i < data.regular_cols.len()
            invariant
                i <= data.regular_cols@.len(),
                cs == cells(data.regular_cols@),
                self.meta_data == old(self).meta_data,
                self.out@ == before + encode_cells(cs, i as int),
            decreases data.regular_cols@.len() - i,
        {
            let _ = self.write_cell(&data.regular_cols[i]);
            assert(cs[i as int] == data.regular_cols@[i as int]@);
            i += 1;
        }
        assert(self.out@ =~= old(self).out@ + encode_details(RowDetails::Regular(*data)@));
        Ok(())
    }

    fn write_tombstone_row(&mut self, data: &RowTombstoneData) -> (r: Result<(), CassError>)
        requires
            bound_encodable(bound_model(data.lower_bound)),
            bound_encodable(bound_model(data.upper_bound)),
        ensures
            r is Ok,
            final(self).meta_data == old(self).meta_data,
            final(self).out@ == old(self).out@ + encode_details(RowDetails::RowTombstone(*data)@),
    {
        let _ = self.out.write_u8(ID_ROW_TOMBSTONE);
        let _ = self.write_key_bound(&data.lower_bound);
        let _ = self.write_key_bound(&data.upper_bound);
        assert(self.out@ =~= old(self).out@ + encode_details(RowDetails::RowTombstone(*data)@));
        Ok(())
    }

    fn write_key_bound(&mut self, b: &Option<KeyBound>) -> (r: Result<(), CassError>)
        requires
            bound_encodable(bound_model(*b)),
        ensures
            r is Ok,
            final(self).meta_data == old(self).meta_data,
            final(self).out@ == old(self).out@ + encode_bound(bound_model(*b)),
    {
        match b {
            None => {
                let _ = self.out.write_u8(ID_KEY_BOUND_NONE);
                assert(self.out@ =~= old(self).out@ + encode_bound(bound_model(*b)));
            },
            Some(key_bound) => {
                if key_bound.is_inclusive {
                    let _ = self.out.write_u8(ID_KEY_BOUND_INCLUSIVE);
                } else {
                    let _ = self.out.write_u8(ID_KEY_BOUND_EXCLUSIVE);
                }
                let _ = self.out.write_u8(key_bound.cluster_key_prefix.len() as u8);
                let _ = self.write_raw_cells(&key_bound.cluster_key_prefix);
                assert(self.out@ =~= old(self).out@ + encode_bound(bound_model(*b)));
            },
        }
        Ok(())
    }

    fn write_raw_cells(&mut self, values: &Vec<&[u8]>) -> (r: Result<(), CassError>)
        ensures
            r is Ok,
            final(self).meta_data == old(self).meta_data,
            final(self).out@ == old(self).out@ + concat(spans(values@), values@.len() as int),
    {
        let ghost vs = spans(values@);
        let mut i: usize = 0;
        while i < values.len()
            invariant
                i <= values@.len(),
                vs == spans(values@),
                self.meta_data == old(self).meta_data,
                self.out@ == old(self).out@ + concat(vs, i as int),
            decreases values@.len() - i,
        {
            let _ = self.write_raw_cell_data(values[i]);
            assert(vs[i as int] == values@[i as int]@);
            assert(self.out@ =~= old(self).out@ + concat(vs, i + 1));
            i += 1;
        }
        Ok(())
    }

    fn write_cell(&mut self, cell: &TableCell) -> (r: Result<(), CassError>)
        ensures
            r is Ok,
            final(self).meta_data == old(self).meta_data,
            final(self).out@ == old(self).out@ + encode_cell(cell@),
    {
        let _ = self.out.write_uuid(cell.meta_data.id);
        let _ = self.out.write_db_timestamp(cell.timestamp);
        let _ = self.out.write_db_expiry_timestamp(cell.expiry);
        let _ = self.write_cell_data(&cell.data);
        assert(self.out@ =~= old(self).out@ + encode_cell(cell@));
        Ok(())
    }

    fn write_raw_cell_data(&mut self, cell_data: &[u8]) -> (r: Result<(), CassError>)
        ensures
            r is Ok,
            final(self).meta_data == old(self).meta_data,
            final(self).out@ == old(self).out@ + cell_data@,
    {
        self.out.write_raw(cell_data)
    }

    fn write_cell_data(&mut self, cell_data: &TableCellData) -> (r: Result<(), CassError>)
        ensures
            r is Ok,
            final(self).meta_data == old(self).meta_data,
            final(self).out@ == old(self).out@ + match cell_data@ {
                None => seq![ID_CELL_DATA_TOMBSTONE],
                Some(d) => seq![ID_CELL_DATA_REGULAR] + d,
            },
    {
        match cell_data {
            TableCellData::Tombstone => {
                let _ = self.out.write_u8(ID_CELL_DATA_TOMBSTONE);
                assert(self.out@ =~= old(self).out@ + seq![ID_CELL_DATA_TOMBSTONE]);
            },
            TableCellData::Regular(data) => {
                let _ = self.out.write_u8(ID_CELL_DATA_REGULAR);
                let _ = self.out.write_raw(data);
                assert(self.out@ =~= old(self).out@ + (seq![ID_CELL_DATA_REGULAR] + data@));
            },
        }
        Ok(())
    }

    /// Ends the file and hands back its bytes; there is no appending after this.
    pub fn finalize(self) -> (r: Result<Vec<u8>, CassError>)
        ensures
            r is Ok,
            r->Ok_0@ == self.out@,
    {
        Ok(self.out.into_inner())
    }
}

} // verus!
