//! Build an index sidecar (zone map and optional blooms) for a data file, one zone
//! per row group.
//!
//! For each indexed field one pass over a row group's values derives `{min, max,
//! null_count, value_count}` for the zone map (min/max ordered with
//! [`crate::prune::compare`], the *same* ordering the pruner uses) and, where asked,
//! a bloom over the non-null values.
use crate::bloom;
use crate::bloom::Bloom;
use crate::bloom::BloomEntry;
use crate::bloom::EntryModel;
use crate::bloom::ZoneBlooms;
use crate::float;
use crate::prune;
use crate::prune::Order;
use crate::prune::PredicateModel;
use crate::text;
use crate::translate;
use crate::translate::Expr;
use crate::translate::FieldIds;
use crate::translate::ScalarValue;
use crate::zonemap;
use crate::zonemap::ColumnModel;
use crate::zonemap::ColumnStats;
use crate::zonemap::Datum;
use crate::zonemap::Value;
use crate::zonemap::ZoneMap;
use crate::zonemap::ZoneModel;
use crate::zonemap::ZoneStats;
use vstd::prelude::*;

verus! {

/// What can go wrong between a data file and its index. Failures of the storage layers carry
/// their own words.
#[derive(Clone, Debug, PartialEq, Eq)]
pub enum KarmaParquetError {
    Parquet(String),
    Arrow(String),
    Io(String),
    ObjectStore(String),
    Iceberg(String),
    Config(String),
    MissingColumn(String),
    UnsupportedType(String),
}

/// The text before and after the detail of an error.
pub open spec fn error_frame(e: KarmaParquetError) -> (Seq<char>, Seq<char>, Seq<char>) {
    match e {
        KarmaParquetError::Parquet(s) => ("parquet: "@, s@, ""@),
        KarmaParquetError::Arrow(s) => ("arrow: "@, s@, ""@),
        KarmaParquetError::Io(s) => ("io: "@, s@, ""@),
        KarmaParquetError::ObjectStore(s) => ("object store: "@, s@, ""@),
        KarmaParquetError::Iceberg(s) => ("iceberg: "@, s@, ""@),
        KarmaParquetError::Config(s) => ("config: "@, s@, ""@),
        KarmaParquetError::MissingColumn(s) => (
            "column '"@,
            s@,
            "' not found in the parquet schema"@,
        ),
        KarmaParquetError::UnsupportedType(s) => (
            "unsupported column type for indexing: "@,
            s@,
            ""@,
        ),
    }
}

impl KarmaParquetError {
    /// The error in words.
    pub fn message(&self) -> (r: String)
        ensures
            r@ == error_frame(*self).0 + error_frame(*self).1 + error_frame(*self).2,
    {
        let (before, detail, after): (&str, &String, &str) = match self {
            KarmaParquetError::Parquet(s) => ("parquet: ", s, ""),
            KarmaParquetError::Arrow(s) => ("arrow: ", s, ""),
            KarmaParquetError::Io(s) => ("io: ", s, ""),
            KarmaParquetError::ObjectStore(s) => ("object store: ", s, ""),
            KarmaParquetError::Iceberg(s) => ("iceberg: ", s, ""),
            KarmaParquetError::Config(s) => ("config: ", s, ""),
            KarmaParquetError::MissingColumn(s) => (
                "column '",
                s,
                "' not found in the parquet schema",
            ),
            KarmaParquetError::UnsupportedType(s) => (
                "unsupported column type for indexing: ",
                s,
                "",
            ),
        };
        let mut out: String = before.to_owned();
        out.append(detail.as_str());
        out.append(after);
        out
    }
}

/// One column to index in the sidecar.
#[derive(Clone, Debug)]
pub struct IndexField {
    /// Column name as it appears in the file's schema.
    pub name: String,
    /// The Iceberg field ID the zone map and the blooms will key on.
    pub field_id: i32,
    /// Also build a bloom over this column (for high-cardinality equality pruning).
    pub bloom: bool,
}

/// What an [`IndexField`] says.
pub struct FieldModel {
    pub name: Seq<char>,
    pub field_id: i32,
    pub bloom: bool,
}

impl View for IndexField {
    type V = FieldModel;

    open spec fn view(&self) -> FieldModel {
        FieldModel { name: self.name@, field_id: self.field_id, bloom: self.bloom }
    }
}

/// What a list of fields says.
pub open spec fn field_models(fs: Seq<IndexField>) -> Seq<FieldModel> {
    fs.map_values(|f: IndexField| f@)
}

impl IndexField {
    /// A column with stats alone.
    pub fn zonemap(name: &str, field_id: i32) -> (r: Self)
        ensures
            r@ == (FieldModel { name: name@, field_id, bloom: false }),
    {
        Self { name: name.to_owned(), field_id, bloom: false }
    }

    /// A column with stats and a bloom.
    pub fn zonemap_and_bloom(name: &str, field_id: i32) -> (r: Self)
        ensures
            r@ == (FieldModel { name: name@, field_id, bloom: true }),
    {
        Self { name: name.to_owned(), field_id, bloom: true }
    }
}

/// The values of one column of a batch, `None` for a null.
#[derive(Debug)]
pub enum ColumnData {
    Int64(Vec<Option<i64>>),
    Int32(Vec<Option<i32>>),
    /// By their bit patterns.
    Float64(Vec<Option<u64>>),
    /// By their bit patterns.
    Float32(Vec<Option<u32>>),
    Boolean(Vec<Option<bool>>),
    Utf8(Vec<Option<String>>),
    /// Unscaled values, and the scale of the column.
    Decimal128(Vec<Option<i128>>, i8),
    Date32(Vec<Option<i32>>),
    TimestampMicrosecond(Vec<Option<i64>>),
    /// A column of a type that cannot be indexed, by the name of the type.
    Other(String),
}

/// The data of a column, `None` for a null; none at all for a type that cannot be indexed.
pub open spec fn column_data(c: ColumnData) -> Option<Seq<Option<Datum>>> {
    match c {
        ColumnData::Int64(vs) => Some(
            vs@.map_values(
                |v: Option<i64>|
                    match v {
                        Some(x) => Some(Datum::I64(x)),
                        None => None,
                    },
            ),
        ),
        ColumnData::Int32(vs) => Some(
            vs@.map_values(
                |v: Option<i32>|
                    match v {
                        Some(x) => Some(Datum::I64(x as i64)),
                        None => None,
                    },
            ),
        ),
        ColumnData::Float64(vs) => Some(
            vs@.map_values(
                |v: Option<u64>|
                    match v {
                        Some(x) => Some(Datum::F64(x)),
                        None => None,
                    },
            ),
        ),
        ColumnData::Float32(vs) => Some(
            vs@.map_values(
                |v: Option<u32>|
                    match v {
                        Some(x) => Some(Datum::F64(float::widen(x) as u64)),
                        None => None,
                    },
            ),
        ),
        ColumnData::Boolean(vs) => Some(
            vs@.map_values(
                |v: Option<bool>|
                    match v {
                        Some(x) => Some(Datum::Bool(x)),
                        None => None,
                    },
            ),
        ),
        ColumnData::Utf8(vs) => Some(
            vs@.map_values(
                |v: Option<String>|
                    match v {
                        Some(x) => Some(Datum::Bytes(vstd::utf8::encode_utf8(x@))),
                        None => None,
                    },
            ),
        ),
        ColumnData::Decimal128(vs, scale) => Some(
            vs@.map_values(
                |v: Option<i128>|
                    match v {
                        Some(x) => Some(Datum::Decimal { unscaled: x, scale: scale as i32 }),
                        None => None,
                    },
            ),
        ),
        ColumnData::Date32(vs) => Some(
            vs@.map_values(
                |v: Option<i32>|
                    match v {
                        Some(x) => Some(Datum::Date(x)),
                        None => None,
                    },
            ),
        ),
        ColumnData::TimestampMicrosecond(vs) => Some(
            vs@.map_values(
                |v: Option<i64>|
                    match v {
                        Some(x) => Some(Datum::Timestamp(x)),
                        None => None,
                    },
            ),
        ),
        ColumnData::Other(_) => None,
    }
}

/// The error names the type of a column that cannot be indexed.
pub open spec fn names_unsupported(e: KarmaParquetError, c: ColumnData) -> bool {
    match (e, c) {
        (KarmaParquetError::UnsupportedType(s), ColumnData::Other(name)) => s@ == name@,
        _ => false,
    }
}

/// How many rows a column has, if it can be indexed.
fn column_len(c: &ColumnData) -> (r: Option<usize>)
    ensures
        match r {
            Some(n) => column_data(*c) matches Some(ds) && ds.len() == n,
            None => c is Other,
        },
{
    match c {
        ColumnData::Int64(vs) => Some(vs.len()),
        ColumnData::Int32(vs) => Some(vs.len()),
        ColumnData::Float64(vs) => Some(vs.len()),
        ColumnData::Float32(vs) => Some(vs.len()),
        ColumnData::Boolean(vs) => Some(vs.len()),
        ColumnData::Utf8(vs) => Some(vs.len()),
        ColumnData::Decimal128(vs, _) => Some(vs.len()),
        ColumnData::Date32(vs) => Some(vs.len()),
        ColumnData::TimestampMicrosecond(vs) => Some(vs.len()),
        ColumnData::Other(_) => None,
    }
}

/// What an optional value holds.
pub open spec fn datum_of(v: Option<Value>) -> Option<Datum> {
    match v {
        Some(x) => Some(x@),
        None => None,
    }
}

/// The value of a column in one row.
fn value_at(c: &ColumnData, i: usize) -> (r: Option<Value>)
    requires
        column_data(*c) matches Some(ds) && i < ds.len(),
    ensures
        datum_of(r) == column_data(*c)->0[i as int],
{
    match c {
        ColumnData::Int64(vs) => match &vs[i] {
            Some(x) => Some(Value::I64(*x)),
            None => None,
        },
        ColumnData::Int32(vs) => match &vs[i] {
            Some(x) => Some(Value::I64(*x as i64)),
            None => None,
        },
        ColumnData::Float64(vs) => match &vs[i] {
            Some(x) => Some(Value::F64(*x)),
            None => None,
        },
        ColumnData::Float32(vs) => match &vs[i] {
            Some(x) => Some(Value::F64(float::f32_to_f64(*x))),
            None => None,
        },
        ColumnData::Boolean(vs) => match &vs[i] {
            Some(x) => Some(Value::Bool(*x)),
            None => None,
        },
        ColumnData::Utf8(vs) => match &vs[i] {
            Some(x) => Some(Value::str(x.as_str())),
            None => None,
        },
        ColumnData::Decimal128(vs, scale) => match &vs[i] {
            Some(x) => Some(Value::Decimal { unscaled: *x, scale: *scale as i32 }),
            None => None,
        },
        ColumnData::Date32(vs) => match &vs[i] {
            Some(x) => Some(Value::Date(*x)),
            None => None,
        },
        ColumnData::TimestampMicrosecond(vs) => match &vs[i] {
            Some(x) => Some(Value::Timestamp(*x)),
            None => None,
        },
        ColumnData::Other(_) => None,
    }
}

/// What a column of optional values holds.
pub open spec fn optional_data(vs: Seq<Option<Value>>) -> Seq<Option<Datum>> {
    vs.map_values(|v: Option<Value>| datum_of(v))
}

/// Convert a column to index [`Value`]s (one per row; `None` = null). The supported set mirrors
/// the zone map's types (with exact decimals and temporals).
pub fn array_values(c: &ColumnData) -> (r: Result<Vec<Option<Value>>, KarmaParquetError>)
    ensures
        match r {
            Ok(vs) => column_data(*c) == Some(optional_data(vs@)),
            Err(e) => names_unsupported(e, *c),
        },
{
    let n: usize = match column_len(c) {
        Some(n) => n,
        None => {
            let name: String = match c {
                ColumnData::Other(name) => name.clone(),
                _ => String::new(),
            };
            return Err(KarmaParquetError::UnsupportedType(name));
        },
    };
    let mut out: Vec<Option<Value>> = Vec::new();
    let mut i: usize = 0;
    while i < n
        invariant
            i <= n,
            column_data(*c) matches Some(ds) && ds.len() == n,
            out@.len() == i,
            forall|k: int| 0 <= k < i ==> datum_of(#[trigger] out@[k]) == column_data(*c)->0[k],
        decreases n - i,
    {
        out.push(value_at(c, i));
        i = i + 1;
    }
    proof {
        assert(optional_data(out@) =~= column_data(*c)->0);
    }
    Ok(out)
}

/// Running per-column accumulator over a row group's batches.
#[derive(Debug)]
pub struct ColAccum {
    pub min: Option<Value>,
    pub max: Option<Value>,
    pub null_count: u64,
    pub value_count: u64,
    pub bloom_values: Vec<Value>,
}

/// What a [`ColAccum`] holds.
#[verifier::ext_equal]
pub struct AccumModel {
    pub min: Option<Datum>,
    pub max: Option<Datum>,
    pub null_count: int,
    pub value_count: int,
    pub bloom_values: Seq<Datum>,
}

impl View for ColAccum {
    type V = AccumModel;

    open spec fn view(&self) -> AccumModel {
        AccumModel {
            min: datum_of(self.min),
            max: datum_of(self.max),
            null_count: self.null_count as int,
            value_count: self.value_count as int,
            bloom_values: zonemap::data(self.bloom_values@),
        }
    }
}

/// An accumulator that has seen nothing.
pub open spec fn fresh() -> AccumModel {
    AccumModel {
        min: None,
        max: None,
        null_count: 0,
        value_count: 0,
        bloom_values: Seq::empty(),
    }
}

impl Default for ColAccum {
    fn default() -> (r: Self)
        ensures
            r@ == fresh(),
    {
        let r = ColAccum {
            min: None,
            max: None,
            null_count: 0,
            value_count: 0,
            bloom_values: Vec::new(),
        };
        proof {
            assert(zonemap::data(r.bloom_values@) =~= Seq::<Datum>::empty());
        }
        r
    }
}

/// A bound after one more datum: the datum where it lies beyond the bound in the given direction,
/// or where there was none yet, else the bound as it was. What cannot be compared (a NaN, not even
/// with itself) moves nothing and is no bound.
pub open spec fn widened(bound: Option<Datum>, d: Datum, beyond: Order) -> Option<Datum> {
    match bound {
        Some(b) => if prune::order(d, b) == Some(beyond) {
            Some(d)
        } else {
            Some(b)
        },
        None => if prune::order(d, d) is Some {
            Some(d)
        } else {
            None
        },
    }
}

/// An accumulator after one more row.
pub open spec fn folded(a: AccumModel, v: Option<Datum>, want_bloom: bool) -> AccumModel {
    match v {
        None => AccumModel { null_count: a.null_count + 1, ..a },
        Some(d) => AccumModel {
            min: widened(a.min, d, Order::Less),
            max: widened(a.max, d, Order::Greater),
            null_count: a.null_count,
            value_count: a.value_count + 1,
            bloom_values: if want_bloom {
                a.bloom_values.push(d)
            } else {
                a.bloom_values
            },
        },
    }
}

/// An accumulator after more rows, in order.
pub open spec fn folded_all(
    a: AccumModel,
    vs: Seq<Option<Datum>>,
    want_bloom: bool,
) -> AccumModel
    decreases vs.len(),
{
    if vs.len() == 0 {
        a
    } else {
        folded(folded_all(a, vs.drop_last(), want_bloom), vs.last(), want_bloom)
    }
}

impl ColAccum {
    /// Fold one row.
    fn fold(&mut self, v: &Option<Value>, want_bloom: bool)
        requires
            old(self).null_count < u64::MAX,
            old(self).value_count < u64::MAX,
        ensures
            final(self)@ == folded(old(self)@, datum_of(*v), want_bloom),
    {
        match v {
            None => {
                self.null_count = self.null_count + 1;
            },
            Some(v) => {
                self.value_count = self.value_count + 1;
                let lower: bool = match &self.min {
                    Some(cur) => matches!(prune::compare(v, cur), Some(Order::Less)),
                    None => prune::compare(v, v).is_some(),
                };
                if lower {
                    self.min = Some(v.clone());
                }
                let higher: bool = match &self.max {
                    Some(cur) => matches!(prune::compare(v, cur), Some(Order::Greater)),
                    None => prune::compare(v, v).is_some(),
                };
                if higher {
                    self.max = Some(v.clone());
                }
                if want_bloom {
                    let ghost before = self.bloom_values@;
                    self.bloom_values.push(v.clone());
                    proof {
                        assert(zonemap::data(self.bloom_values@) =~= zonemap::data(before).push(
                            v@,
                        ));
                    }
                }
            },
        }
    }

    /// Fold a column's values: bump null/value counts, widen the min/max bounds (values that
    /// cannot be compared, such as NaN, never move a bound), and collect non-null values for
    /// the bloom when requested.
    pub fn fold_values(&mut self, values: &[Option<Value>], want_bloom: bool)
        requires
            old(self).null_count + old(self).value_count + values@.len() <= u64::MAX,
        ensures
            final(self)@ == folded_all(old(self)@, optional_data(values@), want_bloom),
    {
        let ghost all = optional_data(values@);
        let mut i: usize = 0;
        proof {
            assert(all.take(0) =~= Seq::<Option<Datum>>::empty());
        }
        while i < values.len()
            invariant
                i <= values@.len(),
                all == optional_data(values@),
                self@ == folded_all(old(self)@, all.take(i as int), want_bloom),
                self.null_count + self.value_count == old(self).null_count
                    + old(self).value_count + i,
                old(self).null_count + old(self).value_count + values@.len() <= u64::MAX,
            decreases values@.len() - i,
        {
            proof {
                assert(all.take(i + 1).drop_last() =~= all.take(i as int));
                assert(all.take(i + 1).last() == datum_of(values@[i as int]));
            }
            self.fold(&values[i], want_bloom);
            i = i + 1;
        }
        proof {
            assert(all.take(i as int) =~= all);
        }
    }

    /// Fold one column of a batch.
    pub fn fold_column(&mut self, column: &ColumnData, want_bloom: bool) -> (r: Result<
        (),
        KarmaParquetError,
    >)
        requires
            column_data(*column) matches Some(ds) ==> old(self).null_count + old(self).value_count
                + ds.len() <= u64::MAX,
        ensures
            match r {
                Ok(_) => column_data(*column) matches Some(ds) && final(self)@ == folded_all(
                    old(self)@,
                    ds,
                    want_bloom,
                ),
                Err(e) => names_unsupported(e, *column) && *final(self) == *old(self),
            },
    {
        match array_values(column) {
            Ok(values) => {
                self.fold_values(values.as_slice(), want_bloom);
                Ok(())
            },
            Err(e) => Err(e),
        }
    }
}

/// `i` is the first position of a name in a list of names.
pub open spec fn first_named(names: Seq<String>, name: Seq<char>, i: int) -> bool {
    &&& 0 <= i < names.len()
    &&& names[i]@ == name
    &&& forall|k: int| 0 <= k < i ==> (#[trigger] names[k])@ != name
}

/// A name is not in a list of names.
pub open spec fn not_named(names: Seq<String>, name: Seq<char>) -> bool {
    forall|k: int| 0 <= k < names.len() ==> (#[trigger] names[k])@ != name
}

/// The error names a missing column.
pub open spec fn names_missing(e: KarmaParquetError, name: Seq<char>) -> bool {
    match e {
        KarmaParquetError::MissingColumn(s) => s@ == name,
        _ => false,
    }
}

/// The first position of a name.
fn index_of(names: &[String], name: &String) -> (r: Option<usize>)
    ensures
        match r {
            Some(i) => first_named(names@, name@, i as int),
            None => not_named(names@, name@),
        },
{
    let mut i: usize = 0;
    while i < names.len()
        invariant
            i <= names@.len(),
            forall|k: int| 0 <= k < i ==> (#[trigger] names@[k])@ != name@,
        decreases names@.len() - i,
    {
        if names[i] == *name {
            return Some(i);
        }
        i = i + 1;
    }
    None
}

/// Resolve each indexed field to its column's position in the schema, given the schema's column
/// names.
pub fn resolve_fields(names: &[String], fields: &[IndexField]) -> (r: Result<
    Vec<usize>,
    KarmaParquetError,
>)
    ensures
        match r {
            Ok(columns) => columns@.len() == fields@.len() && forall|i: int|
                0 <= i < fields@.len() ==> first_named(
                    names@,
                    (#[trigger] fields@[i]).name@,
                    columns@[i] as int,
                ),
            Err(e) => exists|i: int|
                0 <= i < fields@.len() && not_named(names@, (#[trigger] fields@[i]).name@)
                    && names_missing(e, fields@[i].name@) && forall|k: int|
                    0 <= k < i ==> !not_named(names@, (#[trigger] fields@[k]).name@),
        },
{
    let mut columns: Vec<usize> = Vec::new();
    let mut i: usize = 0;
    while i < fields.len()
        invariant
            i <= fields@.len(),
            columns@.len() == i,
            forall|k: int|
                0 <= k < i ==> first_named(
                    names@,
                    (#[trigger] fields@[k]).name@,
                    columns@[k] as int,
                ),
        decreases fields@.len() - i,
    {
        match index_of(names, &fields[i].name) {
            Some(c) => columns.push(c),
            None => {
                proof {
                    assert forall|k: int| 0 <= k < i implies !not_named(
                        names@,
                        (#[trigger] fields@[k]).name@,
                    ) by {
                        assert(names@[columns@[k] as int]@ == fields@[k].name@);
                    }
                }
                return Err(KarmaParquetError::MissingColumn(fields[i].name.clone()));
            },
        }
        i = i + 1;
    }
    Ok(columns)
}

/// The rows of a field in a batch.
pub open spec fn field_rows(batch: Seq<ColumnData>, columns: Seq<usize>, i: int) -> Option<
    Seq<Option<Datum>>,
> {
    column_data(batch[columns[i] as int])
}

/// An accumulator after the rows of one batch.
pub open spec fn field_folded(
    before: AccumModel,
    after: AccumModel,
    rows: Option<Seq<Option<Datum>>>,
    want_bloom: bool,
) -> bool {
    match rows {
        Some(ds) => after == folded_all(before, ds, want_bloom),
        None => false,
    }
}

/// Fold one batch into the per-field accumulators. A column that cannot be indexed stops the
/// fold; the fields before it are folded by then.
pub fn fold_batch(
    batch: &[ColumnData],
    fields: &[IndexField],
    columns: &[usize],
    accs: &mut Vec<ColAccum>,
) -> (r: Result<(), KarmaParquetError>)
    requires
        fields@.len() == columns@.len() == old(accs)@.len(),
        forall|i: int| 0 <= i < columns@.len() ==> #[trigger] columns@[i] < batch@.len(),
        forall|i: int|
            0 <= i < columns@.len() ==> (field_rows(batch@, columns@, i) matches Some(ds)
                ==> #[trigger] old(accs)@[i].null_count + old(accs)@[i].value_count + ds.len()
                <= u64::MAX),
    ensures
        final(accs)@.len() == old(accs)@.len(),
        match r {
            Ok(_) => forall|i: int|
                0 <= i < columns@.len() ==> field_folded(
                    old(accs)@[i]@,
                    (#[trigger] final(accs)@[i])@,
                    field_rows(batch@, columns@, i),
                    fields@[i].bloom,
                ),
            Err(e) => exists|n: int|
                0 <= n < columns@.len() && names_unsupported(
                    e,
                    #[trigger] batch@[columns@[n] as int],
                ) && (forall|i: int|
                    0 <= i < n ==> field_folded(
                        old(accs)@[i]@,
                        (#[trigger] final(accs)@[i])@,
                        field_rows(batch@, columns@, i),
                        fields@[i].bloom,
                    )) && (forall|i: int|
                    n <= i < columns@.len() ==> #[trigger] final(accs)@[i] == old(accs)@[i]),
        },
{
    let mut i: usize = 0;
    while i < columns.len()
        invariant
            i <= columns@.len(),
            fields@.len() == columns@.len() == old(accs)@.len() == accs@.len(),
            forall|k: int| 0 <= k < columns@.len() ==> #[trigger] columns@[k] < batch@.len(),
            forall|k: int|
                0 <= k < columns@.len() ==> (field_rows(batch@, columns@, k) matches Some(ds)
                    ==> #[trigger] old(accs)@[k].null_count + old(accs)@[k].value_count + ds.len()
                    <= u64::MAX),
            forall|k: int| i <= k < columns@.len() ==> #[trigger] accs@[k] == old(accs)@[k],
            forall|k: int|
                0 <= k < i ==> field_folded(
                    old(accs)@[k]@,
                    (#[trigger] accs@[k])@,
                    field_rows(batch@, columns@, k),
                    fields@[k].bloom,
                ),
        decreases columns@.len() - i,
    {
        let column: &ColumnData = &batch[columns[i]];
        let ghost before = accs@;
        proof {
            assert(before[i as int] == old(accs)@[i as int]);
        }
        let r: Result<(), KarmaParquetError> = accs[i].fold_column(column, fields[i].bloom);
        match r {
            Ok(_) => {},
            Err(e) => {
                proof {
                    assert(names_unsupported(e, batch@[columns@[i as int] as int]));
                    assert forall|k: int| 0 <= k < i implies field_folded(
                        old(accs)@[k]@,
                        (#[trigger] accs@[k])@,
                        field_rows(batch@, columns@, k),
                        fields@[k].bloom,
                    ) by {
                        assert(accs@[k] == before[k]);
                    }
                    assert forall|k: int| i <= k < columns@.len() implies #[trigger] accs@[k]
                        == old(accs)@[k] by {
                        if k > i {
                            assert(accs@[k] == before[k]);
                        }
                    }
                }
                return Err(e);
            },
        }
        proof {
            assert forall|k: int| 0 <= k < i + 1 implies field_folded(
                old(accs)@[k]@,
                (#[trigger] accs@[k])@,
                field_rows(batch@, columns@, k),
                fields@[k].bloom,
            ) by {
                if k < i {
                    assert(accs@[k] == before[k]);
                }
            }
        }
        i = i + 1;
    }
    Ok(())
}

/// The stats of a field from its finished accumulator; an absent bound is `Null`.
pub open spec fn column_of(f: FieldModel, a: AccumModel) -> ColumnModel {
    ColumnModel {
        field_id: f.field_id,
        min: match a.min {
            Some(d) => d,
            None => Datum::Null,
        },
        max: match a.max {
            Some(d) => d,
            None => Datum::Null,
        },
        null_count: a.null_count as u64,
        value_count: a.value_count as u64,
    }
}

/// The zone id of a row group: its ordinal, in 32 bits.
pub open spec fn zone_id_of(rg: int) -> u32 {
    (rg % 0x1_0000_0000) as u32
}

/// The zone of a row group from its fields' finished accumulators.
pub open spec fn zone_of(
    fs: Seq<FieldModel>,
    accs: Seq<AccumModel>,
    rg: int,
    row_offset: u64,
    row_count: u64,
) -> ZoneModel {
    ZoneModel {
        zone_id: zone_id_of(rg),
        row_offset,
        row_count,
        columns: Seq::new(fs.len(), |i: int| column_of(fs[i], accs[i])),
    }
}

/// A filter built over data.
pub open spec fn filter_over(ds: Seq<Datum>, bits_per_value: usize) -> Seq<Seq<u32>> {
    bloom::with_data(
        bloom::blank(bloom::blocks_for(bloom::distinct(ds) * bits_per_value)),
        ds,
    )
}

/// The filters of a row group, one for each field from `i` on that asks for one.
pub open spec fn filters_from(
    fs: Seq<FieldModel>,
    accs: Seq<AccumModel>,
    rg: int,
    bits_per_value: usize,
    i: int,
) -> Seq<EntryModel>
    decreases fs.len() - i,
{
    if 0 <= i < fs.len() {
        let rest = filters_from(fs, accs, rg, bits_per_value, i + 1);
        if fs[i].bloom {
            seq![
                EntryModel {
                    zone_id: zone_id_of(rg),
                    field_id: fs[i].field_id,
                    bloom: filter_over(accs[i].bloom_values, bits_per_value),
                },
            ] + rest
        } else {
            rest
        }
    } else {
        Seq::empty()
    }
}

/// What a list of accumulators holds.
pub open spec fn accum_models(accs: Seq<ColAccum>) -> Seq<AccumModel> {
    accs.map_values(|a: ColAccum| a@)
}

/// What a list of filters holds.
pub open spec fn entry_models(es: Seq<BloomEntry>) -> Seq<EntryModel> {
    es.map_values(|e: BloomEntry| e@)
}

/// The bits of each filter can be counted.
pub open spec fn sizes_fit(accs: Seq<AccumModel>, bits_per_value: usize) -> bool {
    forall|i: int|
        0 <= i < accs.len() ==> bloom::distinct((#[trigger] accs[i]).bloom_values) * bits_per_value
            <= usize::MAX
}

/// Turn a row group's finished accumulators into a [`ZoneStats`], and add its blooms.
pub fn zone_from_accs(
    fields: &[IndexField],
    accs: &[ColAccum],
    rg: usize,
    row_offset: u64,
    row_count: u64,
    bits_per_value: usize,
    bloom_entries: &mut Vec<BloomEntry>,
) -> (r: ZoneStats)
    requires
        fields@.len() == accs@.len(),
        sizes_fit(accum_models(accs@), bits_per_value),
    ensures
        r@ == zone_of(
            field_models(fields@),
            accum_models(accs@),
            rg as int,
            row_offset,
            row_count,
        ),
        entry_models(final(bloom_entries)@) == entry_models(old(bloom_entries)@) + filters_from(
            field_models(fields@),
            accum_models(accs@),
            rg as int,
            bits_per_value,
            0,
        ),
{
    let ghost fs = field_models(fields@);
    let ghost models = accum_models(accs@);
    let ghost total = entry_models(old(bloom_entries)@) + filters_from(
        fs,
        models,
        rg as int,
        bits_per_value,
        0,
    );
    let zone_id: u32 = (rg as u64 % 0x1_0000_0000) as u32;
    let mut columns: Vec<ColumnStats> = Vec::new();
    let mut i: usize = 0;
    while i < fields.len()
        invariant
            i <= fields@.len() == accs@.len(),
            fs == field_models(fields@),
            models == accum_models(accs@),
            zone_id == zone_id_of(rg as int),
            sizes_fit(models, bits_per_value),
            columns@.len() == i,
            forall|k: int| 0 <= k < i ==> (#[trigger] columns@[k])@ == column_of(fs[k], models[k]),
            total == entry_models(bloom_entries@) + filters_from(
                fs,
                models,
                rg as int,
                bits_per_value,
                i as int,
            ),
        decreases fields@.len() - i,
    {
        let field: &IndexField = &fields[i];
        let acc: &ColAccum = &accs[i];
        proof {
            assert(fs[i as int] == field@);
            assert(models[i as int] == acc@);
        }
        let min: Value = match &acc.min {
            Some(v) => v.clone(),
            None => Value::Null,
        };
        let max: Value = match &acc.max {
            Some(v) => v.clone(),
            None => Value::Null,
        };
        columns.push(
            ColumnStats {
                field_id: field.field_id,
                min,
                max,
                null_count: acc.null_count,
                value_count: acc.value_count,
            },
        );
        let ghost before = bloom_entries@;
        if field.bloom {
            let bloom: Bloom = Bloom::build(acc.bloom_values.as_slice(), bits_per_value);
            bloom_entries.push(BloomEntry { zone_id, field_id: field.field_id, bloom });
            proof {
                assert(entry_models(bloom_entries@) =~= entry_models(before).push(
                    bloom_entries@.last()@,
                ));
            }
        }
        proof {
            assert(entry_models(bloom_entries@) + filters_from(
                fs,
                models,
                rg as int,
                bits_per_value,
                i + 1,
            ) =~= entry_models(before) + filters_from(
                fs,
                models,
                rg as int,
                bits_per_value,
                i as int,
            ));
        }
        i = i + 1;
    }
    let r = ZoneStats { zone_id, row_offset, row_count, columns };
    proof {
        assert(r@.columns =~= Seq::new(fs.len(), |k: int| column_of(fs[k], models[k])));
        assert(entry_models(bloom_entries@) + Seq::<EntryModel>::empty() =~= entry_models(
            bloom_entries@,
        ));
    }
    r
}

/// A built sidecar: everything a table provider needs about a file. `S` is the engine's schema.
pub struct Sidecar<S> {
    pub schema: S,
    pub zone_map: ZoneMap,
    pub blooms: ZoneBlooms,
    pub field_ids: FieldIds,
}

/// Column name to field id, from `i` on; the last field of a name counts.
pub open spec fn ids_from(fs: Seq<FieldModel>, i: int) -> Map<Seq<char>, i32>
    decreases i,
{
    if 0 < i <= fs.len() {
        ids_from(fs, i - 1).insert(fs[i - 1].name, fs[i - 1].field_id)
    } else {
        Map::empty()
    }
}

/// Put the zones and blooms of a file together.
pub fn assemble_sidecar<S>(
    schema: S,
    fields: &[IndexField],
    zones: Vec<ZoneStats>,
    blooms: Vec<BloomEntry>,
) -> (r: Sidecar<S>)
    ensures
        r.schema == schema,
        r.zone_map@ == zones@.map_values(|z: ZoneStats| z@),
        r.blooms@ == entry_models(blooms@),
        r.field_ids@ == ids_from(field_models(fields@), fields@.len() as int),
{
    let mut field_ids: FieldIds = FieldIds::new();
    let mut i: usize = 0;
    while i < fields.len()
        invariant
            i <= fields@.len(),
            field_ids@ == ids_from(field_models(fields@), i as int),
        decreases fields@.len() - i,
    {
        proof {
            assert(field_models(fields@)[i as int] == fields@[i as int]@);
        }
        field_ids.insert(fields[i].name.clone(), fields[i].field_id);
        i = i + 1;
    }
    Sidecar { schema, zone_map: ZoneMap::new(zones), blooms: ZoneBlooms::new(blooms), field_ids }
}

/// A sidecar in the making: the row groups of a file are added in order, one at a time, so that
/// a file of any size is indexed in bounded memory.
pub struct SidecarBuilder {
    pub fields: Vec<IndexField>,
    pub bits_per_value: usize,
    pub zones: Vec<ZoneStats>,
    pub bloom_entries: Vec<BloomEntry>,
    pub row_offset: u64,
}

impl SidecarBuilder {
    /// One zone per row group: ids are ordinals, and each zone starts where the one before it
    /// ends.
    pub open spec fn wf(&self) -> bool {
        &&& forall|i: int|
            0 <= i < self.zones@.len() ==> (#[trigger] self.zones@[i]).zone_id == zone_id_of(i)
        &&& forall|i: int|
            0 <= i < self.zones@.len() ==> (#[trigger] self.zones@[i]).row_offset
                + self.zones@[i].row_count == self.start_of(i + 1)
        &&& self.start_of(0) == 0
    }

    /// The first row of the row group at position `i`, which is the next to come if it is not
    /// there yet.
    pub open spec fn start_of(&self, i: int) -> u64 {
        if i < self.zones@.len() {
            self.zones@[i].row_offset
        } else {
            self.row_offset
        }
    }

    pub fn new(fields: Vec<IndexField>, bits_per_value: usize) -> (r: Self)
        ensures
            r.wf(),
            r.fields == fields,
            r.bits_per_value == bits_per_value,
            r.zones@.len() == 0,
            r.bloom_entries@.len() == 0,
            r.row_offset == 0,
    {
        SidecarBuilder {
            fields,
            bits_per_value,
            zones: Vec::new(),
            bloom_entries: Vec::new(),
            row_offset: 0,
        }
    }

    /// An accumulator per field, for the next row group.
    pub fn accumulators(&self) -> (r: Vec<ColAccum>)
        ensures
            r@.len() == self.fields@.len(),
            forall|i: int| 0 <= i < r@.len() ==> (#[trigger] r@[i])@ == fresh(),
    {
        let mut out: Vec<ColAccum> = Vec::new();
        while out.len() < self.fields.len()
            invariant
                out@.len() <= self.fields@.len(),
                forall|i: int| 0 <= i < out@.len() ==> (#[trigger] out@[i])@ == fresh(),
            decreases self.fields@.len() - out@.len(),
        {
            out.push(ColAccum::default());
        }
        out
    }

    /// Add the next row group, from its finished accumulators and its row count.
    pub fn add_row_group(&mut self, accs: &[ColAccum], row_count: u64)
        requires
            old(self).wf(),
            old(self).fields@.len() == accs@.len(),
            old(self).row_offset + row_count <= u64::MAX,
            old(self).zones@.len() < usize::MAX,
            sizes_fit(accum_models(accs@), old(self).bits_per_value),
        ensures
            final(self).wf(),
            final(self).fields == old(self).fields,
            final(self).bits_per_value == old(self).bits_per_value,
            final(self).row_offset == old(self).row_offset + row_count,
            final(self).zones@.len() == old(self).zones@.len() + 1,
            final(self).zones@.drop_last() == old(self).zones@,
            final(self).zones@.last()@ == zone_of(
                field_models(old(self).fields@),
                accum_models(accs@),
                old(self).zones@.len() as int,
                old(self).row_offset,
                row_count,
            ),
            entry_models(final(self).bloom_entries@) == entry_models(old(self).bloom_entries@)
                + filters_from(
                field_models(old(self).fields@),
                accum_models(accs@),
                old(self).zones@.len() as int,
                old(self).bits_per_value,
                0,
            ),
    {
        let zone: ZoneStats = zone_from_accs(
            self.fields.as_slice(),
            accs,
            self.zones.len(),
            self.row_offset,
            row_count,
            self.bits_per_value,
            &mut self.bloom_entries,
        );
        let ghost before = *self;
        self.zones.push(zone);
        self.row_offset = self.row_offset + row_count;
        proof {
            assert(self.zones@.drop_last() =~= old(self).zones@);
            assert forall|i: int| 0 <= i < self.zones@.len() implies (
            #[trigger] self.zones@[i]).row_offset + self.zones@[i].row_count == self.start_of(
                i + 1,
            ) by {
                if i < old(self).zones@.len() {
                    assert(self.zones@[i] == old(self).zones@[i]);
                    assert(old(self).zones@[i].row_offset + old(self).zones@[i].row_count == old(
                        self,
                    ).start_of(i + 1));
                }
            }
            assert forall|i: int| 0 <= i < self.zones@.len() implies (
            #[trigger] self.zones@[i]).zone_id == zone_id_of(i) by {
                if i < old(self).zones@.len() {
                    assert(self.zones@[i] == old(self).zones@[i]);
                }
            }
        }
    }

    /// The finished sidecar.
    pub fn finish<S>(self, schema: S) -> (r: Sidecar<S>)
        ensures
            r.schema == schema,
            r.zone_map@ == self.zones@.map_values(|z: ZoneStats| z@),
            r.blooms@ == entry_models(self.bloom_entries@),
            r.field_ids@ == ids_from(field_models(self.fields@), self.fields@.len() as int),
    {
        assemble_sidecar(schema, self.fields.as_slice(), self.zones, self.bloom_entries)
    }
}

/// The data of the rows that are not null, in order.
pub open spec fn non_null(vs: Seq<Option<Datum>>) -> Seq<Datum>
    decreases vs.len(),
{
    if vs.len() == 0 {
        Seq::empty()
    } else {
        match vs.last() {
            Some(d) => non_null(vs.drop_last()).push(d),
            None => non_null(vs.drop_last()),
        }
    }
}

/// A bound stands when it is one of the data, comparable with itself, and no datum lies beyond it;
/// there is none where no datum can be compared.
pub open spec fn bounded(bound: Option<Datum>, ds: Seq<Datum>, beyond: Order) -> bool {
    match bound {
        Some(b) => ds.contains(b) && prune::order(b, b) is Some && forall|d: Datum| #[trigger]
            ds.contains(d) ==> prune::order(d, b) != Some(beyond),
        None => forall|d: Datum| #[trigger] ds.contains(d) ==> prune::order(d, d) is None,
    }
}

proof fn lemma_widened_bounds(bound: Option<Datum>, ds: Seq<Datum>, d: Datum, beyond: Order)
    requires
        bounded(bound, ds, beyond),
        beyond is Less || beyond is Greater,
    ensures
        bounded(widened(bound, d, beyond), ds.push(d), beyond),
{
    let next = widened(bound, d, beyond);
    assert(ds.push(d)[ds.len() as int] == d);
    assert forall|x: Datum| #[trigger] ds.push(d).contains(x) && x != d implies ds.contains(x) by {
        let k = choose|k: int| 0 <= k < ds.push(d).len() && ds.push(d)[k] == x;
        assert(ds[k] == x);
    }
    if next is Some {
        let b = next->0;
        if b != d {
            let k = choose|k: int| 0 <= k < ds.len() && ds[k] == b;
            assert(ds.push(d)[k] == b);
        }
        assert forall|x: Datum| #[trigger] ds.push(d).contains(x) implies prune::order(x, b)
            != Some(beyond) by {
            prune::law_order_mirrors(d, d);
            if x != d && bound is Some {
                let old = bound->0;
                if prune::order(d, old) == Some(beyond) && prune::order(x, d) == Some(beyond) {
                    prune::law_order_mirrors(x, d);
                    prune::law_order_mirrors(d, old);
                    prune::law_order_mirrors(x, old);
                    prune::law_order_chains(x, d, old);
                    prune::law_order_chains(old, d, x);
                }
            }
        }
    }
}

/// A folded accumulator sums its rows up: the counts are those of the values and the nulls, the
/// values for the bloom are the values, and each bound is one of the values with none beyond it.
pub proof fn law_accumulator_sums_up(vs: Seq<Option<Datum>>, want_bloom: bool)
    ensures
        folded_all(fresh(), vs, want_bloom).value_count == non_null(vs).len(),
        folded_all(fresh(), vs, want_bloom).null_count == vs.len() - non_null(vs).len(),
        folded_all(fresh(), vs, want_bloom).bloom_values == (if want_bloom {
            non_null(vs)
        } else {
            Seq::empty()
        }),
        bounded(folded_all(fresh(), vs, want_bloom).min, non_null(vs), Order::Less),
        bounded(folded_all(fresh(), vs, want_bloom).max, non_null(vs), Order::Greater),
    decreases vs.len(),
{
    if vs.len() > 0 {
        law_accumulator_sums_up(vs.drop_last(), want_bloom);
        let a = folded_all(fresh(), vs.drop_last(), want_bloom);
        let ds = non_null(vs.drop_last());
        match vs.last() {
            Some(d) => {
                lemma_widened_bounds(a.min, ds, d, Order::Less);
                lemma_widened_bounds(a.max, ds, d, Order::Greater);
            },
            None => {},
        }
    }
}

/// Folding batch after batch is folding all their rows at once.
pub proof fn law_batches_fold_as_one(
    a: AccumModel,
    xs: Seq<Option<Datum>>,
    ys: Seq<Option<Datum>>,
    want_bloom: bool,
)
    ensures
        folded_all(folded_all(a, xs, want_bloom), ys, want_bloom) == folded_all(
            a,
            xs + ys,
            want_bloom,
        ),
    decreases ys.len(),
{
    if ys.len() == 0 {
        assert(xs + ys =~= xs);
    } else {
        law_batches_fold_as_one(a, xs, ys.drop_last(), want_bloom);
        assert((xs + ys).drop_last() =~= xs + ys.drop_last());
        assert((xs + ys).last() == ys.last());
    }
}

/// The stats built for a column cover its values.
pub proof fn law_built_stats_cover(f: FieldModel, vs: Seq<Option<Datum>>)
    requires
        vs.len() <= u64::MAX,
    ensures
        prune::covers(column_of(f, folded_all(fresh(), vs, f.bloom)), non_null(vs)),
{
    law_accumulator_sums_up(vs, f.bloom);
    let a = folded_all(fresh(), vs, f.bloom);
    assert(non_null(vs).len() <= vs.len()) by {
        lemma_non_null_len(vs);
    }
    assert forall|d: Datum| #[trigger] non_null(vs).contains(d) && !(d is Null) implies {
        let c = column_of(f, a);
        &&& c.value_count > 0
        &&& prune::order(d, c.min) != Some(Order::Less)
        &&& prune::order(d, c.max) != Some(Order::Greater)
    } by {
        let k = choose|k: int| 0 <= k < non_null(vs).len() && non_null(vs)[k] == d;
        assert(non_null(vs).len() > 0);
    }
}

proof fn lemma_non_null_len(vs: Seq<Option<Datum>>)
    ensures
        non_null(vs).len() <= vs.len(),
    decreases vs.len(),
{
    if vs.len() > 0 {
        lemma_non_null_len(vs.drop_last());
    }
}

proof fn lemma_first_column(cs: Seq<ColumnModel>, i: int)
    requires
        0 <= i < cs.len(),
        forall|k: int| 0 <= k < i ==> (#[trigger] cs[k]).field_id != cs[i].field_id,
    ensures
        zonemap::first_column(cs, cs[i].field_id) == Some(cs[i]),
    decreases i,
{
    if i > 0 {
        assert(cs[0].field_id != cs[i].field_id);
        assert forall|k: int| 0 <= k < i - 1 implies (
        #[trigger] cs.drop_first()[k]).field_id != cs.drop_first()[i - 1].field_id by {
            assert(cs[k + 1].field_id != cs[i].field_id);
        }
        lemma_first_column(cs.drop_first(), i - 1);
    }
}

proof fn lemma_first_filter_joined(
    a: Seq<EntryModel>,
    b: Seq<EntryModel>,
    zone_id: u32,
    field_id: i32,
)
    ensures
        bloom::first_filter(a + b, zone_id, field_id) == match bloom::first_filter(
            a,
            zone_id,
            field_id,
        ) {
            Some(f) => Some(f),
            None => bloom::first_filter(b, zone_id, field_id),
        },
    decreases a.len(),
{
    if a.len() == 0 {
        assert(a + b =~= b);
    } else {
        lemma_first_filter_joined(a.drop_first(), b, zone_id, field_id);
        assert((a + b).drop_first() =~= a.drop_first() + b);
    }
}

proof fn lemma_no_filter(es: Seq<EntryModel>, zone_id: u32, field_id: i32)
    requires
        forall|k: int| 0 <= k < es.len() ==> (#[trigger] es[k]).zone_id != zone_id,
    ensures
        bloom::first_filter(es, zone_id, field_id) is None,
    decreases es.len(),
{
    if es.len() > 0 {
        assert(es[0].zone_id != zone_id);
        assert forall|k: int| 0 <= k < es.drop_first().len() implies (
        #[trigger] es.drop_first()[k]).zone_id != zone_id by {
            assert(es[k + 1].zone_id != zone_id);
        }
        lemma_no_filter(es.drop_first(), zone_id, field_id);
    }
}

/// The filter of a field among those built for its row group.
proof fn lemma_own_filter(
    fs: Seq<FieldModel>,
    accs: Seq<AccumModel>,
    rg: int,
    bits_per_value: usize,
    from: int,
    i: int,
)
    requires
        0 <= from <= fs.len(),
        0 <= i < fs.len(),
        forall|a: int, b: int|
            0 <= a < b < fs.len() ==> (#[trigger] fs[a]).field_id != (#[trigger] fs[b]).field_id,
    ensures
        bloom::first_filter(
            filters_from(fs, accs, rg, bits_per_value, from),
            zone_id_of(rg),
            fs[i].field_id,
        ) == (if from <= i && fs[i].bloom {
            Some(filter_over(accs[i].bloom_values, bits_per_value))
        } else {
            None
        }),
    decreases fs.len() - from,
{
    if from < fs.len() {
        let rest = filters_from(fs, accs, rg, bits_per_value, from + 1);
        lemma_own_filter(fs, accs, rg, bits_per_value, from + 1, i);
        if fs[from].bloom {
            assert(filters_from(fs, accs, rg, bits_per_value, from).drop_first() =~= rest);
            if from != i {
                assert(fs[from].field_id != fs[i].field_id);
            }
        }
    }
}

/// What the rows of each field fold to.
pub open spec fn folded_fields(fs: Seq<FieldModel>, rows: Seq<Seq<Option<Datum>>>) -> Seq<
    AccumModel,
> {
    Seq::new(fs.len(), |k: int| folded_all(fresh(), rows[k], fs[k].bloom))
}

/// An index built from the rows of a row group never hides one of them: a zone that holds a
/// value the predicate accepts is kept, by the stats alone and with the blooms, whatever filters
/// of other zones stand beside them. One case is left out: a float zero asked for where the
/// column holds the other zero alone.
pub proof fn law_built_index_keeps_matches(
    fs: Seq<FieldModel>,
    rows: Seq<Seq<Option<Datum>>>,
    rg: int,
    row_offset: u64,
    row_count: u64,
    bits_per_value: usize,
    before: Seq<EntryModel>,
    after: Seq<EntryModel>,
    i: int,
    pred: PredicateModel,
    d: Datum,
)
    requires
        rows.len() == fs.len(),
        0 <= i < fs.len(),
        rows[i].len() <= u64::MAX,
        forall|a: int, b: int|
            0 <= a < b < fs.len() ==> (#[trigger] fs[a]).field_id != (#[trigger] fs[b]).field_id,
        forall|k: int| 0 <= k < before.len() ==> (#[trigger] before[k]).zone_id != zone_id_of(rg),
        forall|k: int| 0 <= k < after.len() ==> (#[trigger] after[k]).zone_id != zone_id_of(rg),
        pred.field() == fs[i].field_id,
        non_null(rows[i]).contains(d),
        pred.accepts(d),
        pred matches PredicateModel::Eq(_, v) ==> (prune::opposite_zeros(d, v) ==> non_null(
            rows[i],
        ).contains(v)),
    ensures
        prune::kept(
            zone_of(fs, folded_fields(fs, rows), rg, row_offset, row_count),
            None,
            pred,
        ),
        prune::kept(
            zone_of(fs, folded_fields(fs, rows), rg, row_offset, row_count),
            Some(
                before + filters_from(fs, folded_fields(fs, rows), rg, bits_per_value, 0) + after,
            ),
            pred,
        ),
{
    let accs = folded_fields(fs, rows);
    let z = zone_of(fs, accs, rg, row_offset, row_count);
    let own = filters_from(fs, accs, rg, bits_per_value, 0);
    let es = before + own + after;
    let values = non_null(rows[i]);
    assert forall|k: int| 0 <= k < i implies (#[trigger] z.columns[k]).field_id
        != z.columns[i].field_id by {
        assert(fs[k].field_id != fs[i].field_id);
    }
    lemma_first_column(z.columns, i);
    law_built_stats_cover(fs[i], rows[i]);
    prune::law_index_never_hides_a_match(z, None, values, pred, d);
    lemma_own_filter(fs, accs, rg, bits_per_value, 0, i);
    lemma_first_filter_joined(before + own, after, z.zone_id, fs[i].field_id);
    lemma_first_filter_joined(before, own, z.zone_id, fs[i].field_id);
    lemma_no_filter(before, z.zone_id, fs[i].field_id);
    lemma_no_filter(after, z.zone_id, fs[i].field_id);
    law_accumulator_sums_up(rows[i], fs[i].bloom);
    assert forall|x: Datum| #[trigger] values.contains(x) implies bloom::maybe_in_zone(
        es,
        z.zone_id,
        pred.field(),
        x,
    ) by {
        if fs[i].bloom {
            bloom::law_build_finds_its_values(values, bits_per_value, x);
        }
    }
    prune::law_index_never_hides_a_match(z, Some(es), values, pred, d);
}

/// A column is indexed row by row: there is a datum for each row, in order, and none where the
/// row is null. Only a column of another type has no data.
pub proof fn law_every_row_is_indexed(
    longs: Vec<Option<i64>>,
    ints: Vec<Option<i32>>,
    doubles: Vec<Option<u64>>,
    floats: Vec<Option<u32>>,
    bools: Vec<Option<bool>>,
    texts: Vec<Option<String>>,
    unscaled: Vec<Option<i128>>,
    scale: i8,
    other: String,
    i: int,
)
    ensures
        column_data(ColumnData::Int64(longs)) matches Some(ds) && ds.len() == longs@.len() && (0
            <= i < ds.len() ==> (ds[i] is None <==> longs@[i] is None)),
        column_data(ColumnData::TimestampMicrosecond(longs)) matches Some(ds) && ds.len()
            == longs@.len() && (0 <= i < ds.len() ==> (ds[i] is None <==> longs@[i] is None)),
        column_data(ColumnData::Int32(ints)) matches Some(ds) && ds.len() == ints@.len() && (0 <= i
            < ds.len() ==> (ds[i] is None <==> ints@[i] is None)),
        column_data(ColumnData::Date32(ints)) matches Some(ds) && ds.len() == ints@.len() && (0
            <= i < ds.len() ==> (ds[i] is None <==> ints@[i] is None)),
        column_data(ColumnData::Float64(doubles)) matches Some(ds) && ds.len() == doubles@.len()
            && (0 <= i < ds.len() ==> (ds[i] is None <==> doubles@[i] is None)),
        column_data(ColumnData::Float32(floats)) matches Some(ds) && ds.len() == floats@.len() && (0
            <= i < ds.len() ==> (ds[i] is None <==> floats@[i] is None)),
        column_data(ColumnData::Boolean(bools)) matches Some(ds) && ds.len() == bools@.len() && (0
            <= i < ds.len() ==> (ds[i] is None <==> bools@[i] is None)),
        column_data(ColumnData::Utf8(texts)) matches Some(ds) && ds.len() == texts@.len() && (0 <= i
            < ds.len() ==> (ds[i] is None <==> texts@[i] is None)),
        column_data(ColumnData::Decimal128(unscaled, scale)) matches Some(ds) && ds.len()
            == unscaled@.len() && (0 <= i < ds.len() ==> (ds[i] is None <==> unscaled@[i] is None)),
        column_data(ColumnData::Other(other)) is None,
{
}

/// The datum of a text row is the whole text: its bytes are valid UTF-8 that decodes to the
/// string of the row, so as many bytes as its encoding has, and different strings have different
/// data.
pub proof fn law_text_rows_are_indexed_whole(texts: Vec<Option<String>>, i: int, j: int)
    requires
        0 <= i < texts@.len(),
        0 <= j < texts@.len(),
        texts@[i] is Some,
        texts@[j] is Some,
    ensures
        column_data(ColumnData::Utf8(texts)) matches Some(ds) && (ds[i] matches Some(
            Datum::Bytes(s),
        ) && vstd::utf8::valid_utf8(s) && vstd::utf8::decode_utf8(s) == texts@[i]->0@ && s.len()
            == vstd::utf8::encode_utf8(texts@[i]->0@).len()),
        column_data(ColumnData::Utf8(texts)) matches Some(ds) && (ds[i] == ds[j] <==> texts@[i]->0@
            == texts@[j]->0@),
{
    vstd::utf8::encode_utf8_valid_utf8(texts@[i]->0@);
    vstd::utf8::encode_utf8_decode_utf8(texts@[i]->0@);
    vstd::utf8::encode_utf8_valid_utf8(texts@[j]->0@);
    vstd::utf8::encode_utf8_decode_utf8(texts@[j]->0@);
}

/// Whether row `i` of a column holds the very value that a literal says, in the column's type.
pub open spec fn row_says(c: ColumnData, i: int, s: ScalarValue) -> bool {
    match (c, s) {
        (ColumnData::Int64(vs), ScalarValue::Int64(Some(v))) => 0 <= i < vs@.len() && vs@[i]
            == Some(v),
        (ColumnData::Int32(vs), ScalarValue::Int32(Some(v))) => 0 <= i < vs@.len() && vs@[i]
            == Some(v),
        (ColumnData::Float64(vs), ScalarValue::Float64(Some(v))) => 0 <= i < vs@.len() && vs@[i]
            == Some(v),
        (ColumnData::Float32(vs), ScalarValue::Float32(Some(v))) => 0 <= i < vs@.len() && vs@[i]
            == Some(v),
        (ColumnData::Boolean(vs), ScalarValue::Boolean(Some(v))) => 0 <= i < vs@.len() && vs@[i]
            == Some(v),
        (ColumnData::Utf8(vs), ScalarValue::Utf8(Some(v))) => 0 <= i < vs@.len() && vs@[i] is Some
            && vs@[i]->0@ == v@,
        (ColumnData::Utf8(vs), ScalarValue::LargeUtf8(Some(v))) => 0 <= i < vs@.len()
            && vs@[i] is Some && vs@[i]->0@ == v@,
        (ColumnData::Decimal128(vs, scale), ScalarValue::Decimal128(Some(v), _, own)) => 0 <= i
            < vs@.len() && vs@[i] == Some(v) && scale == own,
        (ColumnData::Date32(vs), ScalarValue::Date32(Some(v))) => 0 <= i < vs@.len() && vs@[i]
            == Some(v),
        (ColumnData::TimestampMicrosecond(vs), ScalarValue::TimestampMicrosecond(Some(v))) => 0 <= i
            < vs@.len() && vs@[i] == Some(v),
        _ => false,
    }
}

/// Whether a literal is a float that is no number.
pub open spec fn says_nan(s: ScalarValue) -> bool {
    match s {
        ScalarValue::Float64(Some(v)) => float::is_nan(v),
        ScalarValue::Float32(Some(v)) => float::is_nan32(v),
        _ => false,
    }
}

/// The datum indexed for a row is the datum of the literal of the same type and value, and
/// stands to that literal as its equal, where it is not a NaN.
pub proof fn law_rows_are_indexed_as_their_literals(c: ColumnData, i: int, s: ScalarValue)
    requires
        row_says(c, i, s),
    ensures
        column_data(c) matches Some(ds) && i < ds.len() && ds[i] is Some && ds[i]
            == translate::index_datum(s) && (!says_nan(s) ==> translate::stands_to(ds[i]->0, s)
            == Some(Order::Equal)),
{
    translate::law_literals_that_fit_are_translated(s);
    translate::law_translated_literals_equal_themselves(s, Datum::Null);
}

/// The rows of the columns of a row group, one column per field.
pub open spec fn group_rows(columns: Seq<ColumnData>) -> Seq<Seq<Option<Datum>>> {
    Seq::new(columns.len(), |k: int| column_data(columns[k])->0)
}

/// What is in a row group is found there: the filter `column = literal` reads the row group that
/// has a row with the literal's very value, by stats and Bloom filters built of its columns, for
/// every type of column and every value but a NaN, which equals nothing.
#[verifier::rlimit(40)]
pub proof fn law_equal_rows_are_read(
    fs: Seq<FieldModel>,
    columns: Seq<ColumnData>,
    row_offset: u64,
    row_count: u64,
    bits_per_value: usize,
    before: Seq<EntryModel>,
    after: Seq<EntryModel>,
    zs: Seq<ZoneModel>,
    rg: usize,
    i: int,
    row: int,
    name: String,
    s: ScalarValue,
)
    requires
        columns.len() == fs.len(),
        0 <= i < fs.len(),
        group_rows(columns)[i].len() <= u64::MAX,
        forall|a: int, b: int|
            0 <= a < b < fs.len() ==> (#[trigger] fs[a]).field_id != (#[trigger] fs[b]).field_id,
        forall|k: int|
            0 <= k < before.len() ==> (#[trigger] before[k]).zone_id != zone_id_of(rg as int),
        forall|k: int|
            0 <= k < after.len() ==> (#[trigger] after[k]).zone_id != zone_id_of(rg as int),
        row_says(columns[i], row, s),
        !says_nan(s),
        zs.len() <= usize::MAX,
        rg < zs.len(),
        zs[rg as int] == zone_of(
            fs,
            folded_fields(fs, group_rows(columns)),
            rg as int,
            row_offset,
            row_count,
        ),
    ensures
        translate::zones_to_read(
            zs,
            Some(
                before + filters_from(
                    fs,
                    folded_fields(fs, group_rows(columns)),
                    rg as int,
                    bits_per_value,
                    0,
                ) + after,
            ),
            Map::empty().insert(name@, fs[i].field_id),
            seq![translate::equality(name, Expr::Literal(s))],
        ).contains(rg),
{
    let rows = group_rows(columns);
    let accs = folded_fields(fs, rows);
    let own = filters_from(fs, accs, rg as int, bits_per_value, 0);
    let es = before + own + after;
    let z = zs[rg as int];
    let ids = Map::empty().insert(name@, fs[i].field_id);
    law_rows_are_indexed_as_their_literals(columns[i], row, s);
    let d = rows[i][row]->0;
    lemma_non_null_contains(rows[i], row);
    let pred = PredicateModel::Eq(fs[i].field_id, d);
    let values = non_null(rows[i]);
    assert forall|k: int| 0 <= k < i implies (#[trigger] z.columns[k]).field_id
        != z.columns[i].field_id by {
        assert(fs[k].field_id != fs[i].field_id);
    }
    lemma_first_column(z.columns, i);
    law_built_stats_cover(fs[i], rows[i]);
    lemma_own_filter(fs, accs, rg as int, bits_per_value, 0, i);
    lemma_first_filter_joined(before + own, after, z.zone_id, fs[i].field_id);
    lemma_first_filter_joined(before, own, z.zone_id, fs[i].field_id);
    lemma_no_filter(before, z.zone_id, fs[i].field_id);
    lemma_no_filter(after, z.zone_id, fs[i].field_id);
    law_accumulator_sums_up(rows[i], fs[i].bloom);
    if fs[i].bloom {
        bloom::law_build_finds_its_values(values, bits_per_value, d);
    }
    let one = |c: Seq<char>| d;
    let e = translate::equality(name, Expr::Literal(s));
    assert(prune::covers(column_of(fs[i], accs[i]), seq![d])) by {
        assert forall|x: Datum| #[trigger] seq![d].contains(x) implies x == d by {}
        assert(values.contains(d));
    }
    assert(translate::zone_covers(z, Some(es), ids, one));
    assert(translate::may_hold(e, one));
    let filters = seq![e];
    assert(filters[0] == e);
    translate::law_matching_rows_are_read(zs, Some(es), ids, filters, one, rg);
}

proof fn lemma_non_null_contains(vs: Seq<Option<Datum>>, i: int)
    requires
        0 <= i < vs.len(),
        vs[i] is Some,
    ensures
        non_null(vs).contains(vs[i]->0),
    decreases vs.len(),
{
    let d = vs[i]->0;
    let before = vs.drop_last();
    if i < before.len() {
        lemma_non_null_contains(before, i);
        let k = choose|k: int| 0 <= k < non_null(before).len() && non_null(before)[k] == d;
        assert(non_null(vs)[k] == d);
    } else {
        assert(non_null(vs).last() == d);
    }
}

/// Of equal values the first is the bound, and a value that cannot be compared leaves it.
pub proof fn law_ties_keep_the_first_bound(b: Datum, d: Datum, beyond: Order)
    ensures
        prune::order(d, b) == Some(beyond) ==> widened(Some(b), d, beyond) == Some(d),
        prune::order(d, b) != Some(beyond) ==> widened(Some(b), d, beyond) == Some(b),
{
}

/// The stats of a field carry its id, the bounds of its values and its counts; a field without
/// values has null bounds. Each field has its stats at its own position in the zone.
pub proof fn law_zones_hold_the_folded_stats(
    fs: Seq<FieldModel>,
    accs: Seq<AccumModel>,
    rg: int,
    row_offset: u64,
    row_count: u64,
    i: int,
)
    requires
        accs.len() == fs.len(),
        0 <= i < fs.len(),
        0 <= accs[i].null_count <= u64::MAX,
        0 <= accs[i].value_count <= u64::MAX,
    ensures
        zone_of(fs, accs, rg, row_offset, row_count).row_offset == row_offset,
        zone_of(fs, accs, rg, row_offset, row_count).row_count == row_count,
        zone_of(fs, accs, rg, row_offset, row_count).zone_id == rg % 0x1_0000_0000,
        zone_of(fs, accs, rg, row_offset, row_count).columns.len() == fs.len(),
        ({
            let c = zone_of(fs, accs, rg, row_offset, row_count).columns[i];
            &&& c.field_id == fs[i].field_id
            &&& c.null_count == accs[i].null_count
            &&& c.value_count == accs[i].value_count
            &&& accs[i].min matches Some(d) ==> c.min == d
            &&& accs[i].max matches Some(d) ==> c.max == d
            &&& accs[i].min is None ==> c.min is Null
            &&& accs[i].max is None ==> c.max is Null
        }),
{
}

/// A row group has one Bloom filter for each field that asks for one, in the order of the
/// fields, and none for another.
pub proof fn law_filters_follow_their_fields(
    fs: Seq<FieldModel>,
    accs: Seq<AccumModel>,
    rg: int,
    bits_per_value: usize,
    i: int,
)
    requires
        0 <= i < fs.len(),
    ensures
        fs[i].bloom ==> filters_from(fs, accs, rg, bits_per_value, i).len() == filters_from(
            fs,
            accs,
            rg,
            bits_per_value,
            i + 1,
        ).len() + 1 && {
            let e = filters_from(fs, accs, rg, bits_per_value, i)[0];
            &&& e.zone_id == zone_id_of(rg)
            &&& e.field_id == fs[i].field_id
            &&& e.bloom.len() == bloom::blocks_for(
                bloom::distinct(accs[i].bloom_values) * bits_per_value,
            )
        },
        fs[i].bloom ==> filters_from(fs, accs, rg, bits_per_value, i).skip(1) == filters_from(
            fs,
            accs,
            rg,
            bits_per_value,
            i + 1,
        ),
        !fs[i].bloom ==> filters_from(fs, accs, rg, bits_per_value, i) == filters_from(
            fs,
            accs,
            rg,
            bits_per_value,
            i + 1,
        ),
        filters_from(fs, accs, rg, bits_per_value, fs.len() as int).len() == 0,
{
    if fs[i].bloom {
        let all = filters_from(fs, accs, rg, bits_per_value, i);
        let n = bloom::blocks_for(bloom::distinct(accs[i].bloom_values) * bits_per_value);
        assert(all.skip(1) =~= filters_from(fs, accs, rg, bits_per_value, i + 1));
        bloom::law_no_false_negatives(bloom::blank(n), accs[i].bloom_values, Datum::Null);
    }
}

/// A field is found by its name: the id of a name is that of the last field that has it, and a
/// name of no field has none.
pub proof fn law_names_lead_to_their_fields(fs: Seq<FieldModel>, name: Seq<char>, i: int)
    requires
        -1 <= i < fs.len(),
        forall|k: int| i < k < fs.len() ==> (#[trigger] fs[k]).name != name,
        i >= 0 ==> fs[i].name == name,
    ensures
        i >= 0 ==> ids_from(fs, fs.len() as int).contains_key(name) && ids_from(
            fs,
            fs.len() as int,
        )[name] == fs[i].field_id,
        i < 0 ==> !ids_from(fs, fs.len() as int).contains_key(name),
{
    lemma_ids_from(fs, name, i, fs.len() as int);
}

proof fn lemma_ids_from(fs: Seq<FieldModel>, name: Seq<char>, i: int, n: int)
    requires
        -1 <= i < n <= fs.len() || (i == -1 && n == 0),
        forall|k: int| i < k < n ==> (#[trigger] fs[k]).name != name,
        i >= 0 ==> fs[i].name == name,
    ensures
        i >= 0 ==> ids_from(fs, n).contains_key(name) && ids_from(fs, n)[name] == fs[i].field_id,
        i < 0 ==> !ids_from(fs, n).contains_key(name),
    decreases n,
{
    if n > 0 && i < n - 1 {
        assert(fs[n - 1].name != name);
        lemma_ids_from(fs, name, i, n - 1);
    }
}

/// The filter of a field has the bits of the values that were folded in, and no others.
pub proof fn law_filters_hold_the_folded_values(
    ds: Seq<Datum>,
    bits_per_value: usize,
    k: int,
    w: int,
    j: u32,
)
    requires
        0 <= k < filter_over(ds, bits_per_value).len(),
        0 <= w < 8,
        j < 32,
    ensures
        filter_over(ds, bits_per_value).len() == bloom::blocks_for(
            bloom::distinct(ds) * bits_per_value,
        ),
        bloom::has_bit(filter_over(ds, bits_per_value)[k][w], j) <==> bloom::some_hash_marks(
            ds,
            filter_over(ds, bits_per_value).len(),
            k,
            w,
            j,
        ),
{
    let n = bloom::blocks_for(bloom::distinct(ds) * bits_per_value);
    bloom::law_fresh_filters_deny_all(n, Datum::Bool(true));
    bloom::law_no_false_negatives(bloom::blank(n), ds, Datum::Null);
    bloom::law_bits_come_from_the_values(bloom::blank(n), ds, k, w, j);
    assert(bloom::blank(n)[k][w] == 0);
    assert(0u32 & (1u32 << j) == 0) by (bit_vector);
}

/// What an error says, in three parts.
pub open spec fn error_message(e: KarmaParquetError) -> Seq<char> {
    error_frame(e).0 + error_frame(e).1 + error_frame(e).2
}

/// An error says where it comes from and passes on the words it was given; a column that is
/// missing, or has a type that is not indexed, is named.
pub proof fn law_errors_name_their_source(s: String)
    ensures
        text::names(error_message(KarmaParquetError::Parquet(s)), "parquet: "@, s@, Seq::empty()),
        text::names(error_message(KarmaParquetError::Arrow(s)), "arrow: "@, s@, Seq::empty()),
        text::names(error_message(KarmaParquetError::Io(s)), "io: "@, s@, Seq::empty()),
        text::names(
            error_message(KarmaParquetError::ObjectStore(s)),
            "object store: "@,
            s@,
            Seq::empty(),
        ),
        text::names(error_message(KarmaParquetError::Iceberg(s)), "iceberg: "@, s@, Seq::empty()),
        text::names(error_message(KarmaParquetError::Config(s)), "config: "@, s@, Seq::empty()),
        text::names(
            error_message(KarmaParquetError::MissingColumn(s)),
            "column '"@,
            s@,
            "' not found in the parquet schema"@,
        ),
        text::names(
            error_message(KarmaParquetError::UnsupportedType(s)),
            "unsupported column type for indexing: "@,
            s@,
            Seq::empty(),
        ),
{
    reveal_strlit("");
    assert(""@ =~= Seq::<char>::empty());
    text::lemma_names("parquet: "@, s@, ""@);
    text::lemma_names("arrow: "@, s@, ""@);
    text::lemma_names("io: "@, s@, ""@);
    text::lemma_names("object store: "@, s@, ""@);
    text::lemma_names("iceberg: "@, s@, ""@);
    text::lemma_names("config: "@, s@, ""@);
    text::lemma_names("column '"@, s@, "' not found in the parquet schema"@);
    text::lemma_names("unsupported column type for indexing: "@, s@, ""@);
}

/// The values of a column are those of its rows, one for each and none for a null; a column of
/// another type is refused by the name of its type.
pub proof fn law_array_values_are_the_rows(
    c: ColumnData,
    r: Result<Vec<Option<Value>>, KarmaParquetError>,
    i: int,
    s: ScalarValue,
)
    requires
        call_ensures(array_values, (&c,), r),
    ensures
        row_says(c, i, s) ==> (r matches Ok(vs) && i < vs@.len() && (vs@[i] matches Some(v) && Some(
            v@,
        ) == translate::index_datum(s))),
        c matches ColumnData::Other(name) ==> (r matches Err(KarmaParquetError::UnsupportedType(t))
            && t@ == name@),
{
    if row_says(c, i, s) {
        law_rows_are_indexed_as_their_literals(c, i, s);
        let vs = r->Ok_0@;
        assert(optional_data(vs)[i] == datum_of(vs[i]));
    }
}

/// A field is indexed by name and id, with a Bloom filter only if it was asked for.
pub proof fn law_fields_ask_for_their_index(
    name: &str,
    field_id: i32,
    stats: IndexField,
    both: IndexField,
)
    requires
        call_ensures(IndexField::zonemap, (name, field_id), stats),
        call_ensures(IndexField::zonemap_and_bloom, (name, field_id), both),
    ensures
        stats.name@ == name@ && stats.field_id == field_id && !stats.bloom,
        both.name@ == name@ && both.field_id == field_id && both.bloom,
{
}

/// Fields are resolved by name, each to the first column that has it; the first field without a
/// column is named.
pub proof fn law_fields_are_resolved_by_name(
    names: &[String],
    fields: &[IndexField],
    r: Result<Vec<usize>, KarmaParquetError>,
    i: int,
    k: int,
)
    requires
        call_ensures(resolve_fields, (names, fields), r),
        0 <= i < fields@.len(),
    ensures
        r matches Ok(columns) ==> {
            &&& columns@.len() == fields@.len()
            &&& columns@[i] < names@.len()
            &&& names@[columns@[i] as int]@ == fields@[i].name@
            &&& 0 <= k < columns@[i] ==> names@[k]@ != fields@[i].name@
        },
        r matches Err(e) ==> (e matches KarmaParquetError::MissingColumn(s) && (0 <= k < names@.len()
            ==> names@[k]@ != s@)),
        (forall|j: int| 0 <= j < names@.len() ==> (#[trigger] names@[j])@ != fields@[i].name@)
            ==> r is Err,
{
    if let Ok(columns) = r {
        assert(first_named(names@, fields@[i].name@, columns@[i] as int));
    }
}

/// A batch is folded row by row into each field: what a fresh field holds afterwards are the
/// counts, the bounds and, if asked for, all the values of its rows.
pub proof fn law_folded_fields_hold_their_rows(
    after: AccumModel,
    rows: Option<Seq<Option<Datum>>>,
    want_bloom: bool,
)
    requires
        field_folded(fresh(), after, rows, want_bloom),
    ensures
        rows is Some,
        after.value_count == non_null(rows->0).len(),
        after.null_count == rows->0.len() - non_null(rows->0).len(),
        bounded(after.min, non_null(rows->0), Order::Less),
        bounded(after.max, non_null(rows->0), Order::Greater),
        want_bloom ==> after.bloom_values == non_null(rows->0),
        !want_bloom ==> after.bloom_values.len() == 0,
{
    law_accumulator_sums_up(rows->0, want_bloom);
}

/// The zones of a builder are numbered from 0 and tile the rows: the first starts at row 0, each
/// other where the one before ends, and the next will start where the last ends.
pub proof fn law_built_zones_tile_the_rows(builder: SidecarBuilder, i: int)
    requires
        builder.wf(),
        0 <= i < builder.zones@.len(),
    ensures
        builder.zones@[i].zone_id == i % 0x1_0000_0000,
        builder.zones@[0].row_offset == 0,
        i + 1 < builder.zones@.len() ==> builder.zones@[i + 1].row_offset
            == builder.zones@[i].row_offset + builder.zones@[i].row_count,
        i + 1 == builder.zones@.len() ==> builder.row_offset == builder.zones@[i].row_offset
            + builder.zones@[i].row_count,
{
    assert(builder.zones@[i].row_offset + builder.zones@[i].row_count == builder.start_of(i + 1));
}

} // verus!
