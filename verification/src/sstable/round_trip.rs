use vstd::prelude::*;
use crate::db::{
    BoundModel, CellModel, ColumnType, DetailsModel, RowModel, TableMetaData, MAX_PARTITION_KEY_LEN,
};
use crate::io::{
    be_u128, be_u32, be_u64, lemma_be_u128_decodes, lemma_be_u32_decodes, lemma_be_u64_decodes,
};
use crate::sstable::row_data::{
    cluster_types, concat, row_encodable, encode_bound, encode_cell, encode_cells,
    encode_row, lemma_parts_len_bounds, lemma_value_len_bounds, parse_bound,
    parse_cell, parse_cells, parse_regular, parse_row, parse_tombstone,
    parse_values, partition_key_type, parts_len, value_len,
};
use crate::sstable::{
    ID_CELL_DATA_REGULAR, ID_CELL_DATA_TOMBSTONE, ID_KEY_BOUND_EXCLUSIVE, ID_KEY_BOUND_INCLUSIVE,
    ID_ROW_REGULAR, ID_ROW_TOMBSTONE,
};
use crate::util::CassError;

verus! {

/// Whether `v` is exactly one value of type `t`: its computed length is its own.
pub open spec fn is_value(t: ColumnType, v: Seq<u8>) -> bool {
    value_len(t, v) == Some(v.len() as int)
}

/// Whether the values are, in order, values of the first of the given types.
pub open spec fn values_conform(types: Seq<ColumnType>, vs: Seq<Seq<u8>>) -> bool {
    &&& vs.len() <= types.len()
    &&& forall|i: int| 0 <= i < vs.len() ==> is_value(types[i], #[trigger] vs[i])
}

/// Whether the cell belongs to a column of the table and holds a value of
/// that column's type, or none.
pub open spec fn cell_conforms(schema: TableMetaData, c: CellModel) -> bool {
    match schema.spec_column_by_id(c.id) {
        Some(col) => match c.data {
            Some(d) => is_value(col.col_type, d),
            None => true,
        },
        None => false,
    }
}

/// Whether a bound's prefix is a prefix of the table's cluster key.
pub open spec fn bound_conforms(schema: TableMetaData, b: Option<BoundModel>) -> bool {
    match b {
        None => true,
        Some(k) => values_conform(cluster_types(schema), k.prefix),
    }
}

/// Whether a row can be built from the schema: the partition key is a value
/// of its column's type, the cluster key is complete and typed, every
/// regular cell belongs to a column of the table, and every tombstone bound
/// is a typed prefix of the cluster key.
pub open spec fn row_conforms(schema: TableMetaData, r: RowModel) -> bool {
    &&& is_value(partition_key_type(schema), r.partition_key)
    &&& match r.details {
        DetailsModel::Regular { pk_expiry, cluster_key, regular_cols } => {
            &&& cluster_key.len() == schema.idx_cluster_keys@.len()
            &&& values_conform(cluster_types(schema), cluster_key)
            &&& forall|i: int|
                0 <= i < regular_cols.len() ==> cell_conforms(schema, #[trigger] regular_cols[i])
        },
        DetailsModel::RowTombstone { lower_bound, upper_bound } => {
            &&& bound_conforms(schema, lower_bound)
            &&& bound_conforms(schema, upper_bound)
        },
    }
}

/// Whether `s` begins with the bytes `x`.
pub open spec fn starts_with(s: Seq<u8>, x: Seq<u8>) -> bool {
    x.len() <= s.len() && s.subrange(0, x.len() as int) == x
}

proof fn lemma_starts_with_split(s: Seq<u8>, a: Seq<u8>, b: Seq<u8>)
    requires
        starts_with(s, a + b),
    ensures
        starts_with(s, a),
        starts_with(s.skip(a.len() as int), b),
        s == a + s.skip(a.len() as int),
{
    let ab = a + b;
    let whole = s.subrange(0, ab.len() as int);
    assert(s.subrange(0, a.len() as int) =~= whole.subrange(0, a.len() as int));
    assert(ab.subrange(0, a.len() as int) =~= a);
    assert(s.skip(a.len() as int).subrange(0, b.len() as int) =~= whole.subrange(
        a.len() as int,
        ab.len() as int,
    ));
    assert(ab.subrange(a.len() as int, ab.len() as int) =~= b);
    assert(s =~= s.subrange(0, a.len() as int) + s.skip(a.len() as int));
}

/// A value's length depends on the value's own bytes alone: bytes that
/// agree over that length give the same length, whatever follows them.
pub proof fn lemma_value_len_local(t: ColumnType, a: Seq<u8>, b: Seq<u8>)
    requires
        value_len(t, a) is Some,
        value_len(t, a)->Some_0 <= b.len(),
        a.subrange(0, value_len(t, a)->Some_0) == b.subrange(0, value_len(t, a)->Some_0),
    ensures
        value_len(t, b) == value_len(t, a),
    decreases t, 0int,
{
    let n = value_len(t, a)->Some_0;
    lemma_value_len_bounds(t, a);
    match t {
        ColumnType::Text => {
            let x = a.subrange(0, n);
            let y = b.subrange(0, n);
            assert(a[0] == x[0] && a[1] == x[1] && a[2] == x[2] && a[3] == x[3]);
            assert(b[0] == y[0] && b[1] == y[1] && b[2] == y[2] && b[3] == y[3]);
        },
        ColumnType::Tuple(parts) => {
            lemma_parts_len_local(parts@, parts@.len() as int, a, b, n);
        },
        _ => {},
    }
}

/// The same for the first `k` parts of a tuple, where the bytes agree over
/// `n` and the parts take no more than that.
pub proof fn lemma_parts_len_local(parts: Seq<ColumnType>, k: int, a: Seq<u8>, b: Seq<u8>, n: int)
    requires
        parts_len(parts, k, a) is Some,
        parts_len(parts, k, a)->Some_0 <= n,
        0 <= n <= a.len(),
        n <= b.len(),
        a.subrange(0, n) == b.subrange(0, n),
    ensures
        parts_len(parts, k, b) == parts_len(parts, k, a),
    decreases parts, k,
{
    if 0 < k <= parts.len() {
        let m1 = parts_len(parts, k - 1, a)->Some_0;
        let m2 = value_len(parts[k - 1], a.skip(m1))->Some_0;
        lemma_parts_len_bounds(parts, k - 1, a);
        lemma_value_len_bounds(parts[k - 1], a.skip(m1));
        lemma_parts_len_local(parts, k - 1, a, b, n);
        assert(a.skip(m1).subrange(0, m2) =~= a.subrange(0, n).subrange(m1, m1 + m2));
        assert(b.skip(m1).subrange(0, m2) =~= b.subrange(0, n).subrange(m1, m1 + m2));
        lemma_value_len_local(parts[k - 1], a.skip(m1), b.skip(m1));
    }
}

/// A value of type `t` at the start of any bytes is measured as itself.
pub proof fn lemma_value_at_start(t: ColumnType, v: Seq<u8>, s: Seq<u8>)
    requires
        is_value(t, v),
        starts_with(s, v),
    ensures
        value_len(t, s) == Some(v.len() as int),
{
    assert(v.subrange(0, v.len() as int) =~= v);
    lemma_value_len_local(t, v, s);
}

proof fn lemma_concat_step(vs: Seq<Seq<u8>>, k: int)
    requires
        0 < k <= vs.len(),
    ensures
        concat(vs, k) == concat(vs, k - 1) + vs[k - 1],
{
}

/// Decoding a run of values undoes their concatenation.
pub proof fn lemma_values_round_trip(types: Seq<ColumnType>, vs: Seq<Seq<u8>>, k: int, s: Seq<u8>)
    requires
        values_conform(types, vs),
        0 <= k <= vs.len(),
        starts_with(s, concat(vs, k)),
    ensures
        parse_values(types, k, s) == Ok::<(Seq<Seq<u8>>, int), CassError>(
            (vs.take(k), concat(vs, k).len() as int),
        ),
    decreases k,
{
    if k > 0 {
        let before = concat(vs, k - 1);
        let c = before.len() as int;
        lemma_concat_step(vs, k);
        lemma_starts_with_split(s, before, vs[k - 1]);
        lemma_values_round_trip(types, vs, k - 1, s);
        lemma_value_at_start(types[k - 1], vs[k - 1], s.skip(c));
        let m = vs[k - 1].len() as int;
        assert(s.subrange(c, c + m) =~= s.skip(c).subrange(0, m));
        assert(vs.take(k - 1).push(vs[k - 1]) =~= vs.take(k));
    } else {
        assert(vs.take(0) =~= Seq::<Seq<u8>>::empty());
    }
}

/// Joining the first `k` of some byte strings does not look at those
/// behind them.
proof fn lemma_concat_ignores_rest(vs: Seq<Seq<u8>>, x: Seq<u8>, k: int)
    requires
        0 <= k <= vs.len(),
    ensures
        concat(vs.push(x), k) == concat(vs, k),
    decreases k,
{
    if k > 0 {
        lemma_concat_ignores_rest(vs, x, k - 1);
        assert(vs.push(x)[k - 1] == vs[k - 1]);
    }
}

/// The values that a run of values decodes to lie one behind the other in
/// the bytes they were read from: joined, they are exactly the bytes that
/// were taken, so no two of them overlap and none is left out.
pub proof fn lemma_values_tile(types: Seq<ColumnType>, k: int, s: Seq<u8>)
    requires
        0 <= k <= types.len(),
    ensures
        parse_values(types, k, s) matches Ok((vs, n)) ==> vs.len() == k && 0 <= n <= s.len()
            && concat(vs, k) == s.subrange(0, n),
    decreases k,
{
    if k > 0 {
        lemma_values_tile(types, k - 1, s);
        match parse_values(types, k - 1, s) {
            Ok((vs, n)) => {
                lemma_value_len_bounds(types[k - 1], s.skip(n));
                match value_len(types[k - 1], s.skip(n)) {
                    Some(m) => {
                        let x = s.subrange(n, n + m);
                        lemma_concat_ignores_rest(vs, x, k - 1);
                        assert(vs.push(x)[k - 1] == x);
                        assert(concat(vs.push(x), k) =~= s.subrange(0, n + m));
                    },
                    None => {},
                }
            },
            Err(e) => {},
        }
    } else {
        assert(concat(Seq::<Seq<u8>>::empty(), 0) =~= s.subrange(0, 0));
    }
}

/// Decoding a cell undoes its encoding.
pub proof fn lemma_cell_round_trip(schema: TableMetaData, c: CellModel, s: Seq<u8>)
    requires
        cell_conforms(schema, c),
        starts_with(s, encode_cell(c)),
    ensures
        parse_cell(schema, s) == Ok::<(CellModel, int), CassError>(
            (c, encode_cell(c).len() as int),
        ),
{
    let tail = match c.data {
        None => seq![ID_CELL_DATA_TOMBSTONE],
        Some(d) => seq![ID_CELL_DATA_REGULAR] + d,
    };
    let id = be_u128(c.id);
    let ts = be_u64(c.timestamp);
    let ex = be_u32(c.expiry);
    lemma_be_u128_decodes(c.id, s.skip(16));
    lemma_be_u64_decodes(c.timestamp, s.skip(24));
    lemma_be_u32_decodes(c.expiry, s.skip(28));
    lemma_starts_with_split(s, id + ts + ex, tail);
    lemma_starts_with_split(s, id + ts, ex);
    lemma_starts_with_split(s, id, ts);
    let col = schema.spec_column_by_id(c.id)->Some_0;
    let rest = s.skip(28);
    assert(rest[0] == rest.subrange(0, tail.len() as int)[0]);
    match c.data {
        None => {},
        Some(d) => {
            lemma_starts_with_split(rest, seq![ID_CELL_DATA_REGULAR], d);
            lemma_value_at_start(col.col_type, d, rest.skip(1));
            assert(rest.subrange(1, 1 + d.len() as int) =~= rest.skip(1).subrange(
                0,
                d.len() as int,
            ));
        },
    }
}

proof fn lemma_encode_cells_step(cs: Seq<CellModel>, k: int)
    requires
        0 < k <= cs.len(),
    ensures
        encode_cells(cs, k) == encode_cells(cs, k - 1) + encode_cell(cs[k - 1]),
{
}

/// Decoding a run of cells undoes their encoding.
pub proof fn lemma_cells_round_trip(schema: TableMetaData, cs: Seq<CellModel>, k: int, s: Seq<u8>)
    requires
        forall|i: int| 0 <= i < cs.len() ==> cell_conforms(schema, #[trigger] cs[i]),
        0 <= k <= cs.len(),
        starts_with(s, encode_cells(cs, k)),
    ensures
        parse_cells(schema, k, s) == Ok::<(Seq<CellModel>, int), CassError>(
            (cs.take(k), encode_cells(cs, k).len() as int),
        ),
    decreases k,
{
    if k > 0 {
        let before = encode_cells(cs, k - 1);
        lemma_encode_cells_step(cs, k);
        lemma_starts_with_split(s, before, encode_cell(cs[k - 1]));
        lemma_cells_round_trip(schema, cs, k - 1, s);
        lemma_cell_round_trip(schema, cs[k - 1], s.skip(before.len() as int));
        assert(cs.take(k - 1).push(cs[k - 1]) =~= cs.take(k));
    } else {
        assert(cs.take(0) =~= Seq::<CellModel>::empty());
    }
}

/// Decoding a bound undoes its encoding.
pub proof fn lemma_bound_round_trip(schema: TableMetaData, b: Option<BoundModel>, s: Seq<u8>)
    requires
        bound_conforms(schema, b),
        b is Some ==> b->Some_0.prefix.len() <= u8::MAX,
        starts_with(s, encode_bound(b)),
    ensures
        parse_bound(schema, s) == Ok::<(Option<BoundModel>, int), CassError>(
            (b, encode_bound(b).len() as int),
        ),
{
    let e = encode_bound(b);
    assert(s[0] == s.subrange(0, e.len() as int)[0]);
    match b {
        None => {},
        Some(k) => {
            let head = seq![
                if k.inclusive {
                    ID_KEY_BOUND_INCLUSIVE
                } else {
                    ID_KEY_BOUND_EXCLUSIVE
                },
                k.prefix.len() as u8,
            ];
            assert(s[1] == s.subrange(0, e.len() as int)[1]);
            lemma_starts_with_split(s, head, concat(k.prefix, k.prefix.len() as int));
            lemma_values_round_trip(
                cluster_types(schema),
                k.prefix,
                k.prefix.len() as int,
                s.skip(2),
            );
            assert(k.prefix.take(k.prefix.len() as int) =~= k.prefix);
        },
    }
}

/// The body of a regular row, behind its tag.
pub open spec fn encode_regular(
    pk_expiry: u32,
    cluster_key: Seq<Seq<u8>>,
    regular_cols: Seq<CellModel>,
) -> Seq<u8> {
    be_u32(pk_expiry) + concat(cluster_key, cluster_key.len() as int) + be_u32(
        regular_cols.len() as u32,
    ) + encode_cells(regular_cols, regular_cols.len() as int)
}

/// Decoding the body of a regular row undoes its encoding.
pub proof fn lemma_regular_round_trip(
    schema: TableMetaData,
    pk_expiry: u32,
    cluster_key: Seq<Seq<u8>>,
    regular_cols: Seq<CellModel>,
    s: Seq<u8>,
)
    requires
        cluster_key.len() == schema.idx_cluster_keys@.len(),
        values_conform(cluster_types(schema), cluster_key),
        forall|i: int|
            0 <= i < regular_cols.len() ==> cell_conforms(schema, #[trigger] regular_cols[i]),
        regular_cols.len() <= u32::MAX,
        starts_with(s, encode_regular(pk_expiry, cluster_key, regular_cols)),
    ensures
        parse_regular(schema, s) == Ok::<(DetailsModel, int), CassError>(
            (
                DetailsModel::Regular { pk_expiry, cluster_key, regular_cols },
                encode_regular(pk_expiry, cluster_key, regular_cols).len() as int,
            ),
        ),
{
    let exp = be_u32(pk_expiry);
    let key = concat(cluster_key, cluster_key.len() as int);
    let count = be_u32(regular_cols.len() as u32);
    let cs = encode_cells(regular_cols, regular_cols.len() as int);
    let kn = key.len() as int;
    lemma_starts_with_split(s, exp + key + count, cs);
    lemma_starts_with_split(s, exp + key, count);
    lemma_starts_with_split(s, exp, key);
    lemma_be_u32_decodes(pk_expiry, s.skip(4));
    lemma_values_round_trip(cluster_types(schema), cluster_key, cluster_key.len() as int, s.skip(4));
    assert(cluster_key.take(cluster_key.len() as int) =~= cluster_key);
    lemma_be_u32_decodes(regular_cols.len() as u32, s.skip(4 + kn + 4));
    assert(s.skip(4 + kn) =~= count + s.skip(4 + kn + 4)) by {
        let t = s.skip(4 + kn);
        assert(t.subrange(0, 4) == count);
        assert(t =~= t.subrange(0, 4) + t.skip(4));
        assert(t.skip(4) =~= s.skip(4 + kn + 4));
    }
    lemma_cells_round_trip(schema, regular_cols, regular_cols.len() as int, s.skip(4 + kn + 4));
    assert(regular_cols.take(regular_cols.len() as int) =~= regular_cols);
}

/// Decoding the body of a tombstone row undoes its encoding.
pub proof fn lemma_tombstone_round_trip(
    schema: TableMetaData,
    lower_bound: Option<BoundModel>,
    upper_bound: Option<BoundModel>,
    s: Seq<u8>,
)
    requires
        bound_conforms(schema, lower_bound),
        bound_conforms(schema, upper_bound),
        lower_bound is Some ==> lower_bound->Some_0.prefix.len() <= u8::MAX,
        upper_bound is Some ==> upper_bound->Some_0.prefix.len() <= u8::MAX,
        starts_with(s, encode_bound(lower_bound) + encode_bound(upper_bound)),
    ensures
        parse_tombstone(schema, s) == Ok::<(DetailsModel, int), CassError>(
            (
                DetailsModel::RowTombstone { lower_bound, upper_bound },
                (encode_bound(lower_bound) + encode_bound(upper_bound)).len() as int,
            ),
        ),
{
    let lo = encode_bound(lower_bound);
    lemma_starts_with_split(s, lo, encode_bound(upper_bound));
    lemma_bound_round_trip(schema, lower_bound, s);
    lemma_bound_round_trip(schema, upper_bound, s.skip(lo.len() as int));
}

/// A row decodes to its partition key and whatever its body decodes to.
proof fn lemma_row_from_body(
    schema: TableMetaData,
    pk: Seq<u8>,
    tag: u8,
    d: DetailsModel,
    m: int,
    s: Seq<u8>,
)
    requires
        is_value(partition_key_type(schema), pk),
        pk.len() <= MAX_PARTITION_KEY_LEN,
        starts_with(s, pk),
        pk.len() < s.len(),
        s[pk.len() as int] == tag,
        tag == ID_ROW_REGULAR ==> parse_regular(schema, s.skip(pk.len() as int + 1)) == Ok::<
            (DetailsModel, int),
            CassError,
        >((d, m)),
        tag == ID_ROW_TOMBSTONE ==> parse_tombstone(schema, s.skip(pk.len() as int + 1)) == Ok::<
            (DetailsModel, int),
            CassError,
        >((d, m)),
        tag == ID_ROW_REGULAR || tag == ID_ROW_TOMBSTONE,
    ensures
        parse_row(schema, s) == Ok::<(RowModel, int), CassError>(
            (RowModel { partition_key: pk, details: d }, pk.len() + 1 + m),
        ),
{
    lemma_value_at_start(partition_key_type(schema), pk, s);
}

/// A row whose bytes are its partition key, a tag and a body decodes to the
/// key and whatever the body decodes to.
proof fn lemma_row_assembled(
    schema: TableMetaData,
    pk: Seq<u8>,
    tag: u8,
    inner: Seq<u8>,
    d: DetailsModel,
    rest: Seq<u8>,
)
    requires
        is_value(partition_key_type(schema), pk),
        pk.len() <= MAX_PARTITION_KEY_LEN,
        tag == ID_ROW_REGULAR || tag == ID_ROW_TOMBSTONE,
        forall|t: Seq<u8>|
            starts_with(t, inner) && tag == ID_ROW_REGULAR ==> #[trigger] parse_regular(schema, t)
                == Ok::<(DetailsModel, int), CassError>((d, inner.len() as int)),
        forall|t: Seq<u8>|
            starts_with(t, inner) && tag == ID_ROW_TOMBSTONE ==> #[trigger] parse_tombstone(
                schema,
                t,
            ) == Ok::<(DetailsModel, int), CassError>((d, inner.len() as int)),
    ensures
        parse_row(schema, pk + (seq![tag] + inner) + rest) == Ok::<(RowModel, int), CassError>(
            (RowModel { partition_key: pk, details: d }, (pk.len() + 1 + inner.len()) as int),
        ),
{
    let s = pk + (seq![tag] + inner) + rest;
    let n = pk.len() as int;
    assert(starts_with(s, pk)) by {
        assert(s.subrange(0, n) =~= pk);
    }
    assert(s[n] == tag);
    assert(starts_with(s.skip(n + 1), inner)) by {
        assert(s.skip(n + 1).subrange(0, inner.len() as int) =~= inner);
    }
    lemma_row_from_body(schema, pk, tag, d, inner.len() as int, s);
}

/// Encode-then-decode gives the row back, field for field, and takes
/// exactly the bytes that encoding wrote, whatever follows them: every row
/// that can be built from the schema and that `append_row` writes is read
/// back as it was.
pub proof fn lemma_row_round_trip(schema: TableMetaData, r: RowModel, rest: Seq<u8>)
    requires
        row_conforms(schema, r),
        row_encodable(r) is None,
    ensures
        parse_row(schema, encode_row(r) + rest) == Ok::<(RowModel, int), CassError>(
            (r, encode_row(r).len() as int),
        ),
{
    let pk = r.partition_key;
    match r.details {
        DetailsModel::Regular { pk_expiry, cluster_key, regular_cols } => {
            let inner = encode_regular(pk_expiry, cluster_key, regular_cols);
            assert(encode_row(r) == pk + (seq![ID_ROW_REGULAR] + inner)) by {
                assert(encode_row(r) =~= pk + (seq![ID_ROW_REGULAR] + inner));
            }
            assert forall|t: Seq<u8>| starts_with(t, inner) implies #[trigger] parse_regular(
                schema,
                t,
            ) == Ok::<(DetailsModel, int), CassError>((r.details, inner.len() as int)) by {
                lemma_regular_round_trip(schema, pk_expiry, cluster_key, regular_cols, t);
            }
            lemma_row_assembled(schema, pk, ID_ROW_REGULAR, inner, r.details, rest);
        },
        DetailsModel::RowTombstone { lower_bound, upper_bound } => {
            let inner = encode_bound(lower_bound) + encode_bound(upper_bound);
            assert(encode_row(r) == pk + (seq![ID_ROW_TOMBSTONE] + inner)) by {
                assert(encode_row(r) =~= pk + (seq![ID_ROW_TOMBSTONE] + inner));
            }
            assert forall|t: Seq<u8>| starts_with(t, inner) implies #[trigger] parse_tombstone(
                schema,
                t,
            ) == Ok::<(DetailsModel, int), CassError>((r.details, inner.len() as int)) by {
                lemma_tombstone_round_trip(schema, lower_bound, upper_bound, t);
            }
            lemma_row_assembled(schema, pk, ID_ROW_TOMBSTONE, inner, r.details, rest);
        },
    }
}

} // verus!
