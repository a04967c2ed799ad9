//! The `karma-zonemap-v1` blob: per-zone column bounds for scan pruning.
//!
//! A data file is divided into **zones**, contiguous row ranges (typically the
//! Parquet row groups). For each zone and each indexed column the blob stores
//! `{min, max, null_count, value_count}`. An engine planning a scan can skip any
//! zone whose `[min, max]` cannot satisfy the predicate (see [`crate::prune`]).
//!
//! ## Binary layout (v1, structural integers little-endian)
//! ```text
//!   u8   version            (= 1)
//!   u32  zone_count
//!   repeat zone_count times:
//!     u32  zone_id
//!     u64  row_offset       (first row index of the zone within the data file)
//!     u64  row_count
//!     u32  column_count
//!     repeat column_count times:
//!       i32  field_id       (Iceberg field ID)
//!       u64  null_count
//!       u64  value_count    (non-null values)
//!       u32  min_len ; min bytes   (Iceberg single-value serialization; len 0 = absent)
//!       u32  max_len ; max bytes
//! ```
//! Bounds use Iceberg's single-value serialization, the encoding of manifest
//! `lower_bounds`/`upper_bounds`. A bound carries no type tag; its type comes from
//! the table schema, by its field ID.
use crate::bytes;
use crate::bytes::Cur;
use crate::float;
use crate::text;
use std::collections::HashMap;
use vstd::prelude::*;

verus! {

broadcast use vstd::std_specs::hash::group_hash_axioms;

/// The Puffin blob type of a zone map.
pub const ZONEMAP_BLOB_TYPE: &'static str = "karma-zonemap-v1";

/// The version byte of the payload.
pub const VERSION: u8 = 1;

/// Why a zone-map payload cannot be read.
#[derive(Clone, Copy, Debug, PartialEq, Eq)]
pub enum ZoneMapError {
    Truncated,
    BadVersion(u8),
    MissingType(i32),
}

/// A [`ZoneMapError`] in words.
pub open spec fn error_words(e: ZoneMapError) -> Seq<char> {
    match e {
        ZoneMapError::Truncated => "truncated zone-map payload"@,
        ZoneMapError::BadVersion(v) => "unsupported zone-map version "@ + text::decimal(v as nat)
            + " (this build understands 1)"@,
        ZoneMapError::MissingType(id) => "no type in the schema for field id "@
            + text::signed_decimal(id as int) + " (needed to decode its bound)"@,
    }
}

impl ZoneMapError {
    /// The error in words.
    pub fn message(&self) -> (r: String)
        ensures
            r@ == error_words(*self),
    {
        match self {
            ZoneMapError::Truncated => "truncated zone-map payload".to_owned(),
            ZoneMapError::BadVersion(v) => {
                let mut out: String = "unsupported zone-map version ".to_owned();
                text::put_decimal(&mut out, *v as u64);
                out.append(" (this build understands 1)");
                out
            },
            ZoneMapError::MissingType(id) => {
                let mut out: String = "no type in the schema for field id ".to_owned();
                text::put_signed_decimal(&mut out, *id as i64);
                out.append(" (needed to decode its bound)");
                out
            },
        }
    }
}

/// An Iceberg primitive type: the schema information needed to write or read a bound.
#[derive(Clone, Copy, Debug, PartialEq, Eq, Structural)]
pub enum IcebergType {
    Boolean,
    /// 32-bit integer (4-byte little-endian bound).
    Int,
    /// 64-bit integer (8-byte little-endian bound).
    Long,
    /// 32-bit float (4-byte little-endian bound).
    Float,
    /// 64-bit float (8-byte little-endian bound).
    Double,
    /// Days since 1970-01-01 (4-byte little-endian).
    Date,
    /// Microseconds since midnight (8-byte little-endian).
    Time,
    /// Microseconds since epoch (8-byte little-endian).
    Timestamp,
    /// UTF-8 string (raw bytes).
    String,
    /// Opaque binary (raw bytes).
    Binary,
    /// `decimal(_, scale)`; the unscaled value is stored as minimum-width, two's-complement,
    /// big-endian bytes (scale comes from the type).
    Decimal { scale: i32 },
}

/// Field id to Iceberg type: the schema an engine already has. Fields with only absent
/// (all-null) bounds need no entry.
pub type ColumnTypes = HashMap<i32, IcebergType>;

/// An ordered column bound. `Null` means "no non-null values in this zone", so the bound is
/// absent (serialized as a zero-length byte string).
#[derive(Debug)]
pub enum Value {
    Null,
    Bool(bool),
    I64(i64),
    /// The bit pattern of a 64-bit float.
    F64(u64),
    Bytes(Vec<u8>),
    /// An exact decimal. Within a column the scale is fixed, so ordering reduces to
    /// comparing `unscaled`.
    Decimal { unscaled: i128, scale: i32 },
    /// Iceberg `date`: days since 1970-01-01.
    Date(i32),
    /// Iceberg `time`: microseconds since midnight.
    Time(i64),
    /// Iceberg `timestamp`/`timestamptz`: microseconds since the Unix epoch.
    Timestamp(i64),
}

/// What a [`Value`] holds.
#[verifier::ext_equal]
pub enum Datum {
    Null,
    Bool(bool),
    I64(i64),
    F64(u64),
    Bytes(Seq<u8>),
    Decimal { unscaled: i128, scale: i32 },
    Date(i32),
    Time(i64),
    Timestamp(i64),
}

impl View for Value {
    type V = Datum;

    open spec fn view(&self) -> Datum {
        match self {
            Value::Null => Datum::Null,
            Value::Bool(x) => Datum::Bool(*x),
            Value::I64(x) => Datum::I64(*x),
            Value::F64(x) => Datum::F64(*x),
            Value::Bytes(x) => Datum::Bytes(x@),
            Value::Decimal { unscaled, scale } => Datum::Decimal {
                unscaled: *unscaled,
                scale: *scale,
            },
            Value::Date(x) => Datum::Date(*x),
            Value::Time(x) => Datum::Time(*x),
            Value::Timestamp(x) => Datum::Timestamp(*x),
        }
    }
}

/// What a sequence of values holds.
pub open spec fn data(vs: Seq<Value>) -> Seq<Datum> {
    vs.map_values(|v: Value| v@)
}

/// Per-column stats within one zone.
#[derive(Debug)]
pub struct ColumnStats {
    pub field_id: i32,
    pub min: Value,
    pub max: Value,
    pub null_count: u64,
    pub value_count: u64,
}

/// What a [`ColumnStats`] holds.
#[verifier::ext_equal]
pub struct ColumnModel {
    pub field_id: i32,
    pub min: Datum,
    pub max: Datum,
    pub null_count: u64,
    pub value_count: u64,
}

impl View for ColumnStats {
    type V = ColumnModel;

    open spec fn view(&self) -> ColumnModel {
        ColumnModel {
            field_id: self.field_id,
            min: self.min@,
            max: self.max@,
            null_count: self.null_count,
            value_count: self.value_count,
        }
    }
}

/// Stats for one zone (a contiguous row range of the data file).
#[derive(Debug)]
pub struct ZoneStats {
    pub zone_id: u32,
    pub row_offset: u64,
    pub row_count: u64,
    pub columns: Vec<ColumnStats>,
}

/// What a [`ZoneStats`] holds.
#[verifier::ext_equal]
pub struct ZoneModel {
    pub zone_id: u32,
    pub row_offset: u64,
    pub row_count: u64,
    pub columns: Seq<ColumnModel>,
}

impl View for ZoneStats {
    type V = ZoneModel;

    open spec fn view(&self) -> ZoneModel {
        ZoneModel {
            zone_id: self.zone_id,
            row_offset: self.row_offset,
            row_count: self.row_count,
            columns: self.columns@.map_values(|c: ColumnStats| c@),
        }
    }
}

/// The whole zone map for one data file.
#[derive(Debug)]
pub struct ZoneMap {
    pub zones: Vec<ZoneStats>,
}

impl View for ZoneMap {
    type V = Seq<ZoneModel>;

    open spec fn view(&self) -> Seq<ZoneModel> {
        self.zones@.map_values(|z: ZoneStats| z@)
    }
}

/// Equality of data: floats as numbers (a NaN equals nothing, the two zeros are equal), all
/// else by content.
pub open spec fn same_datum(a: Datum, b: Datum) -> bool {
    match (a, b) {
        (Datum::F64(x), Datum::F64(y)) => !float::is_nan(x) && !float::is_nan(y)
            && float::float_key(x) == float::float_key(y),
        _ => a == b,
    }
}

pub open spec fn same_column(a: ColumnModel, b: ColumnModel) -> bool {
    &&& a.field_id == b.field_id
    &&& same_datum(a.min, b.min)
    &&& same_datum(a.max, b.max)
    &&& a.null_count == b.null_count
    &&& a.value_count == b.value_count
}

pub open spec fn same_zone(a: ZoneModel, b: ZoneModel) -> bool {
    &&& a.zone_id == b.zone_id
    &&& a.row_offset == b.row_offset
    &&& a.row_count == b.row_count
    &&& a.columns.len() == b.columns.len()
    &&& forall|i: int|
        0 <= i < a.columns.len() ==> same_column(#[trigger] a.columns[i], b.columns[i])
}

pub open spec fn same_zones(a: Seq<ZoneModel>, b: Seq<ZoneModel>) -> bool {
    &&& a.len() == b.len()
    &&& forall|i: int| 0 <= i < a.len() ==> same_zone(#[trigger] a[i], b[i])
}

/// Byte-for-byte equality.
fn same_bytes(a: &Vec<u8>, b: &Vec<u8>) -> (r: bool)
    ensures
        r == (a@ == b@),
{
    if a.len() != b.len() {
        return false;
    }
    let mut i: usize = 0;
    while i < a.len()
        invariant
            i <= a@.len() == b@.len(),
            forall|j: int| 0 <= j < i ==> a@[j] == b@[j],
        decreases a@.len() - i,
    {
        if a[i] != b[i] {
            return false;
        }
        i = i + 1;
    }
    proof {
        assert(a@ =~= b@);
    }
    true
}

impl PartialEq for Value {
    fn eq(&self, other: &Self) -> (r: bool) {
        match (self, other) {
            (Value::Null, Value::Null) => true,
            (Value::Bool(a), Value::Bool(b)) => *a == *b,
            (Value::I64(a), Value::I64(b)) => *a == *b,
            (Value::F64(a), Value::F64(b)) => {
                match (float::number_key(*a), float::number_key(*b)) {
                    (Some(x), Some(y)) => x == y,
                    _ => false,
                }
            },
            (Value::Bytes(a), Value::Bytes(b)) => same_bytes(a, b),
            (
                Value::Decimal { unscaled: a, scale: s },
                Value::Decimal { unscaled: b, scale: t },
            ) => *a == *b && *s == *t,
            (Value::Date(a), Value::Date(b)) => *a == *b,
            (Value::Time(a), Value::Time(b)) => *a == *b,
            (Value::Timestamp(a), Value::Timestamp(b)) => *a == *b,
            _ => false,
        }
    }
}

impl vstd::std_specs::cmp::PartialEqSpecImpl for Value {
    open spec fn obeys_eq_spec() -> bool {
        true
    }

    open spec fn eq_spec(&self, other: &Self) -> bool {
        same_datum(self@, other@)
    }
}

impl PartialEq for ColumnStats {
    fn eq(&self, other: &Self) -> (r: bool) {
        self.field_id == other.field_id && self.min == other.min && self.max == other.max
            && self.null_count == other.null_count && self.value_count == other.value_count
    }
}

impl vstd::std_specs::cmp::PartialEqSpecImpl for ColumnStats {
    open spec fn obeys_eq_spec() -> bool {
        true
    }

    open spec fn eq_spec(&self, other: &Self) -> bool {
        same_column(self@, other@)
    }
}

impl PartialEq for ZoneStats {
    fn eq(&self, other: &Self) -> (r: bool) {
        if self.zone_id != other.zone_id || self.row_offset != other.row_offset || self.row_count
            != other.row_count || self.columns.len() != other.columns.len() {
            return false;
        }
        let mut i: usize = 0;
        while i < self.columns.len()
            invariant
                i <= self.columns@.len() == other.columns@.len(),
                forall|j: int|
                    0 <= j < i ==> same_column(#[trigger] self@.columns[j], other@.columns[j]),
            decreases self.columns@.len() - i,
        {
            proof {
                assert(self@.columns[i as int] == self.columns@[i as int]@);
                assert(other@.columns[i as int] == other.columns@[i as int]@);
            }
            if !(self.columns[i] == other.columns[i]) {
                return false;
            }
            i = i + 1;
        }
        true
    }
}

impl vstd::std_specs::cmp::PartialEqSpecImpl for ZoneStats {
    open spec fn obeys_eq_spec() -> bool {
        true
    }

    open spec fn eq_spec(&self, other: &Self) -> bool {
        same_zone(self@, other@)
    }
}

impl PartialEq for ZoneMap {
    fn eq(&self, other: &Self) -> (r: bool) {
        if self.zones.len() != other.zones.len() {
            return false;
        }
        let mut i: usize = 0;
        while i < self.zones.len()
            invariant
                i <= self.zones@.len() == other.zones@.len(),
                forall|j: int| 0 <= j < i ==> same_zone(#[trigger] self@[j], other@[j]),
            decreases self.zones@.len() - i,
        {
            proof {
                assert(self@[i as int] == self.zones@[i as int]@);
                assert(other@[i as int] == other.zones@[i as int]@);
            }
            if !(self.zones[i] == other.zones[i]) {
                return false;
            }
            i = i + 1;
        }
        true
    }
}

impl vstd::std_specs::cmp::PartialEqSpecImpl for ZoneMap {
    open spec fn obeys_eq_spec() -> bool {
        true
    }

    open spec fn eq_spec(&self, other: &Self) -> bool {
        same_zones(self@, other@)
    }
}

impl Clone for Value {
    fn clone(&self) -> (r: Self)
        ensures
            r@ == self@,
    {
        match self {
            Value::Null => Value::Null,
            Value::Bool(x) => Value::Bool(*x),
            Value::I64(x) => Value::I64(*x),
            Value::F64(x) => Value::F64(*x),
            Value::Bytes(x) => Value::Bytes(vstd::slice::slice_to_vec(x.as_slice())),
            Value::Decimal { unscaled, scale } => Value::Decimal {
                unscaled: *unscaled,
                scale: *scale,
            },
            Value::Date(x) => Value::Date(*x),
            Value::Time(x) => Value::Time(*x),
            Value::Timestamp(x) => Value::Timestamp(*x),
        }
    }
}

impl Clone for ColumnStats {
    fn clone(&self) -> (r: Self)
        ensures
            r@ == self@,
    {
        ColumnStats {
            field_id: self.field_id,
            min: self.min.clone(),
            max: self.max.clone(),
            null_count: self.null_count,
            value_count: self.value_count,
        }
    }
}

impl Clone for ZoneStats {
    fn clone(&self) -> (r: Self)
        ensures
            r@ == self@,
    {
        let columns: Vec<ColumnStats> = self.columns.clone();
        proof {
            assert forall|i: int| 0 <= i < columns@.len() implies columns@[i]@
                == self.columns@[i]@ by {
                assert(cloned(self.columns@[i], columns@[i]));
            }
            assert(columns@.map_values(|c: ColumnStats| c@) =~= self@.columns);
        }
        ZoneStats {
            zone_id: self.zone_id,
            row_offset: self.row_offset,
            row_count: self.row_count,
            columns,
        }
    }
}

impl Clone for ZoneMap {
    fn clone(&self) -> (r: Self)
        ensures
            r@ == self@,
    {
        let zones: Vec<ZoneStats> = self.zones.clone();
        proof {
            assert forall|i: int| 0 <= i < zones@.len() implies zones@[i]@ == self.zones@[i]@ by {
                assert(cloned(self.zones@[i], zones@[i]));
            }
            assert(zones@.map_values(|z: ZoneStats| z@) =~= self@);
        }
        ZoneMap { zones }
    }
}

impl Default for ZoneMap {
    fn default() -> (r: Self)
        ensures
            r@ == Seq::<ZoneModel>::empty(),
    {
        let r = ZoneMap { zones: Vec::new() };
        proof {
            assert(r@ =~= Seq::<ZoneModel>::empty());
        }
        r
    }
}

/// The type a datum serializes as when the schema does not say otherwise.
pub open spec fn natural_type(d: Datum) -> IcebergType {
    match d {
        Datum::Bool(_) => IcebergType::Boolean,
        Datum::I64(_) => IcebergType::Long,
        Datum::F64(_) => IcebergType::Double,
        Datum::Bytes(_) => IcebergType::String,
        Datum::Date(_) => IcebergType::Date,
        Datum::Time(_) => IcebergType::Time,
        Datum::Timestamp(_) => IcebergType::Timestamp,
        Datum::Decimal { scale, .. } => IcebergType::Decimal { scale },
        Datum::Null => IcebergType::Long,
    }
}

/// The single-value serialization of a datum under its own type.
pub open spec fn natural_bytes(d: Datum) -> Seq<u8> {
    match d {
        Datum::Null => Seq::empty(),
        Datum::Bool(b) => seq![if b { 1u8 } else { 0u8 }],
        Datum::I64(x) => bytes::le_bytes(x as int, 8),
        Datum::F64(x) => bytes::le_bytes(x as int, 8),
        Datum::Bytes(s) => s,
        Datum::Decimal { unscaled, .. } => bytes::min_be_bytes(unscaled as int),
        Datum::Date(x) => bytes::le_bytes(x as int, 4),
        Datum::Time(x) => bytes::le_bytes(x as int, 8),
        Datum::Timestamp(x) => bytes::le_bytes(x as int, 8),
    }
}

/// The single-value serialization of a datum under a schema type: a 32-bit type shortens an
/// integer or a float; a type that does not fit the datum leaves it under its own type.
pub open spec fn typed_bytes(d: Datum, ty: IcebergType) -> Seq<u8> {
    match (ty, d) {
        (IcebergType::Int, Datum::I64(x)) => bytes::le_bytes(x as int, 4),
        (IcebergType::Float, Datum::F64(x)) => bytes::le_bytes(float::narrow(x), 4),
        _ => natural_bytes(d),
    }
}

/// A bound as stored: its length, then its bytes.
pub open spec fn bound_bytes(d: Datum, ty: IcebergType) -> Seq<u8> {
    bytes::le_bytes(typed_bytes(d, ty).len() as int, 4) + typed_bytes(d, ty)
}

/// The type of a column's bounds: the schema's, else that of the first bound present.
pub open spec fn column_type(c: ColumnModel, types: Map<i32, IcebergType>) -> IcebergType {
    if types.contains_key(c.field_id) {
        types[c.field_id]
    } else if c.min is Null {
        natural_type(c.max)
    } else {
        natural_type(c.min)
    }
}

pub open spec fn column_bytes(c: ColumnModel, types: Map<i32, IcebergType>) -> Seq<u8> {
    bytes::le_bytes(c.field_id as int, 4) + bytes::le_bytes(c.null_count as int, 8)
        + bytes::le_bytes(c.value_count as int, 8) + bound_bytes(c.min, column_type(c, types))
        + bound_bytes(c.max, column_type(c, types))
}

/// The columns from index `i` on, as stored.
pub open spec fn columns_bytes(
    cs: Seq<ColumnModel>,
    i: int,
    types: Map<i32, IcebergType>,
) -> Seq<u8>
    decreases cs.len() - i,
{
    if 0 <= i < cs.len() {
        column_bytes(cs[i], types) + columns_bytes(cs, i + 1, types)
    } else {
        Seq::empty()
    }
}

pub open spec fn zone_bytes(z: ZoneModel, types: Map<i32, IcebergType>) -> Seq<u8> {
    bytes::le_bytes(z.zone_id as int, 4) + bytes::le_bytes(z.row_offset as int, 8)
        + bytes::le_bytes(z.row_count as int, 8) + bytes::le_bytes(z.columns.len() as int, 4)
        + columns_bytes(z.columns, 0, types)
}

/// The zones from index `i` on, as stored.
pub open spec fn zones_bytes(zs: Seq<ZoneModel>, i: int, types: Map<i32, IcebergType>) -> Seq<u8>
    decreases zs.len() - i,
{
    if 0 <= i < zs.len() {
        zone_bytes(zs[i], types) + zones_bytes(zs, i + 1, types)
    } else {
        Seq::empty()
    }
}

/// A whole zone map as stored.
pub open spec fn zone_map_bytes(zs: Seq<ZoneModel>, types: Map<i32, IcebergType>) -> Seq<u8> {
    seq![VERSION] + bytes::le_bytes(zs.len() as int, 4) + zones_bytes(zs, 0, types)
}

impl Value {
    /// A string bound: its UTF-8 bytes.
    pub fn str(s: &str) -> (r: Value)
        ensures
            r@ == Datum::Bytes(vstd::utf8::encode_utf8(s@)),
    {
        Value::Bytes(vstd::slice::slice_to_vec(s.as_bytes()))
    }

    /// The Iceberg type this value serializes as, when the schema does not say otherwise
    /// (integers as `Long`, floats as `Double`, bytes as `String`).
    pub fn inferred_type(&self) -> (r: IcebergType)
        ensures
            r == natural_type(self@),
    {
        match self {
            Value::Bool(_) => IcebergType::Boolean,
            Value::I64(_) => IcebergType::Long,
            Value::F64(_) => IcebergType::Double,
            Value::Bytes(_) => IcebergType::String,
            Value::Date(_) => IcebergType::Date,
            Value::Time(_) => IcebergType::Time,
            Value::Timestamp(_) => IcebergType::Timestamp,
            Value::Decimal { scale, .. } => IcebergType::Decimal { scale: *scale },
            Value::Null => IcebergType::Long,
        }
    }
}

impl ColumnStats {
    /// The Iceberg type to use for this column's bounds, preferring the schema and falling
    /// back to inference from a non-null bound.
    pub fn resolve_type(&self, types: &ColumnTypes) -> (r: IcebergType)
        ensures
            r == column_type(self@, types@),
    {
        if let Some(t) = types.get(&self.field_id) {
            return *t;
        }
        match &self.min {
            Value::Null => self.max.inferred_type(),
            v => v.inferred_type(),
        }
    }
}

impl ZoneStats {
    /// The stats of a column: the first recorded under its field id.
    pub fn column(&self, field_id: i32) -> (r: Option<&ColumnStats>)
        ensures
            match r {
                Some(c) => first_column(self@.columns, field_id) == Some(c@),
                None => first_column(self@.columns, field_id) is None,
            },
    {
        let mut i: usize = 0;
        proof {
            assert(self@.columns.skip(0) =~= self@.columns);
        }
        while i < self.columns.len()
            invariant
                i <= self.columns@.len(),
                first_column(self@.columns, field_id) == first_column(
                    self@.columns.skip(i as int),
                    field_id,
                ),
            decreases self.columns@.len() - i,
        {
            proof {
                assert(self@.columns.skip(i as int)[0] == self.columns@[i as int]@);
                assert(self@.columns.skip(i as int).drop_first() =~= self@.columns.skip(i + 1));
            }
            if self.columns[i].field_id == field_id {
                return Some(&self.columns[i]);
            }
            i = i + 1;
        }
        None
    }
}

/// The stats recorded first under a field id.
pub open spec fn first_column(cs: Seq<ColumnModel>, field_id: i32) -> Option<ColumnModel>
    decreases cs.len(),
{
    if cs.len() == 0 {
        None
    } else if cs[0].field_id == field_id {
        Some(cs[0])
    } else {
        first_column(cs.drop_first(), field_id)
    }
}

/// A decimal's unscaled value as minimum-width, two's-complement, big-endian bytes (Java
/// `BigInteger.toByteArray`, Iceberg decimal single-value serialization).
pub fn decimal_min_be(unscaled: i128) -> (r: Vec<u8>)
    ensures
        r@ == bytes::min_be_bytes(unscaled as int),
{
    bytes::put_min_be(unscaled)
}

/// Inverse of [`decimal_min_be`]: sign-extend minimal big-endian bytes to `i128`.
pub fn decimal_from_min_be(bytes: &[u8]) -> (r: i128)
    requires
        bytes@.len() <= 16,
    ensures
        r == bytes::be_signed(bytes@),
{
    bytes::get_be_signed(bytes)
}

/// Iceberg single-value serialization of `v` interpreted as `ty`. `Null` serializes to an
/// empty byte string.
pub fn single_value_bytes(v: &Value, ty: IcebergType) -> (r: Vec<u8>)
    ensures
        r@ == typed_bytes(v@, ty),
{
    let mut out: Vec<u8> = Vec::new();
    match v {
        Value::Null => {},
        Value::Bool(b) => out.push(if *b { 1 } else { 0 }),
        Value::I64(x) => {
            match ty {
                IcebergType::Int => bytes::put_le(&mut out, *x as i128, 4),
                _ => bytes::put_le(&mut out, *x as i128, 8),
            }
        },
        Value::F64(x) => {
            match ty {
                IcebergType::Float => bytes::put_le(&mut out, float::f64_to_f32(*x) as i128, 4),
                _ => bytes::put_le(&mut out, *x as i128, 8),
            }
        },
        Value::Bytes(b) => out.extend_from_slice(b.as_slice()),
        Value::Decimal { unscaled, .. } => {
            out = decimal_min_be(*unscaled);
        },
        Value::Date(x) => bytes::put_le(&mut out, *x as i128, 4),
        Value::Time(x) => bytes::put_le(&mut out, *x as i128, 8),
        Value::Timestamp(x) => bytes::put_le(&mut out, *x as i128, 8),
    }
    proof {
        assert(out@ =~= typed_bytes(v@, ty));
    }
    out
}

/// Write one bound as `u32 length + single-value bytes` (length 0 = absent, `Null`).
fn put_bound(o: &mut Vec<u8>, v: &Value, ty: IcebergType)
    ensures
        final(o)@ == old(o)@ + bound_bytes(v@, ty),
{
    let value: Vec<u8> = single_value_bytes(v, ty);
    bytes::put_le(o, value.len() as i128, 4);
    o.extend_from_slice(value.as_slice());
    proof {
        assert(o@ =~= old(o)@ + bound_bytes(v@, ty));
    }
}

fn put_column(o: &mut Vec<u8>, c: &ColumnStats, types: &ColumnTypes)
    ensures
        final(o)@ == old(o)@ + column_bytes(c@, types@),
{
    bytes::put_le(o, c.field_id as i128, 4);
    bytes::put_le(o, c.null_count as i128, 8);
    bytes::put_le(o, c.value_count as i128, 8);
    let ty: IcebergType = c.resolve_type(types);
    put_bound(o, &c.min, ty);
    put_bound(o, &c.max, ty);
    proof {
        assert(o@ =~= old(o)@ + column_bytes(c@, types@));
    }
}

fn put_zone(o: &mut Vec<u8>, z: &ZoneStats, types: &ColumnTypes)
    ensures
        final(o)@ == old(o)@ + zone_bytes(z@, types@),
{
    bytes::put_le(o, z.zone_id as i128, 4);
    bytes::put_le(o, z.row_offset as i128, 8);
    bytes::put_le(o, z.row_count as i128, 8);
    bytes::put_le(o, z.columns.len() as i128, 4);
    let mut i: usize = 0;
    proof {
        assert(o@ + columns_bytes(z@.columns, 0, types@) =~= old(o)@ + zone_bytes(z@, types@));
    }
    while i < z.columns.len()
        invariant
            i <= z.columns@.len(),
            o@ + columns_bytes(z@.columns, i as int, types@) == old(o)@ + zone_bytes(z@, types@),
        decreases z.columns@.len() - i,
    {
        let ghost before = o@;
        put_column(o, &z.columns[i], types);
        proof {
            assert(z@.columns[i as int] == z.columns@[i as int]@);
            assert(o@ + columns_bytes(z@.columns, i + 1, types@) =~= before + columns_bytes(
                z@.columns,
                i as int,
                types@,
            ));
        }
        i = i + 1;
    }
    proof {
        assert(o@ =~= o@ + columns_bytes(z@.columns, i as int, types@));
    }
}

/// A parsed item and the position after it, or the reason there is none.
pub type Parsed<T> = Result<(T, int), ZoneMapError>;

/// Items already read, in front of the outcome of reading the rest.
pub open spec fn after<T>(done: Seq<T>, rest: Parsed<Seq<T>>) -> Parsed<Seq<T>> {
    match rest {
        Ok((items, end)) => Ok((done + items, end)),
        Err(e) => Err(e),
    }
}

/// The datum that single-value bytes stand for under a type; `None` where a fixed-width type
/// meets another width, or a decimal is wider than sixteen bytes.
pub open spec fn read_typed(s: Seq<u8>, ty: IcebergType) -> Option<Datum> {
    match ty {
        IcebergType::Boolean => if s.len() == 1 {
            Some(Datum::Bool(s[0] != 0))
        } else {
            None
        },
        IcebergType::Int => if s.len() == 4 {
            Some(Datum::I64(bytes::le_signed(s) as i64))
        } else {
            None
        },
        IcebergType::Long => if s.len() == 8 {
            Some(Datum::I64(bytes::le_signed(s) as i64))
        } else {
            None
        },
        IcebergType::Float => if s.len() == 4 {
            Some(Datum::F64(float::widen(bytes::le_unsigned(s) as u32) as u64))
        } else {
            None
        },
        IcebergType::Double => if s.len() == 8 {
            Some(Datum::F64(bytes::le_unsigned(s) as u64))
        } else {
            None
        },
        IcebergType::Date => if s.len() == 4 {
            Some(Datum::Date(bytes::le_signed(s) as i32))
        } else {
            None
        },
        IcebergType::Time => if s.len() == 8 {
            Some(Datum::Time(bytes::le_signed(s) as i64))
        } else {
            None
        },
        IcebergType::Timestamp => if s.len() == 8 {
            Some(Datum::Timestamp(bytes::le_signed(s) as i64))
        } else {
            None
        },
        IcebergType::String => Some(Datum::Bytes(s)),
        IcebergType::Binary => Some(Datum::Bytes(s)),
        IcebergType::Decimal { scale } => if s.len() <= 16 {
            Some(Datum::Decimal { unscaled: bytes::be_signed(s) as i128, scale })
        } else {
            None
        },
    }
}

/// One length-prefixed bound at position `p`.
pub open spec fn parse_bound(
    b: Seq<u8>,
    p: int,
    ty: Option<IcebergType>,
    field_id: i32,
) -> Parsed<Datum> {
    if p + 4 > b.len() {
        Err(ZoneMapError::Truncated)
    } else {
        let n = bytes::le_unsigned(b.subrange(p, p + 4));
        if n == 0 {
            Ok((Datum::Null, p + 4))
        } else if ty is None {
            Err(ZoneMapError::MissingType(field_id))
        } else if p + 4 + n > b.len() {
            Err(ZoneMapError::Truncated)
        } else {
            match read_typed(b.subrange(p + 4, p + 4 + n), ty->0) {
                Some(d) => Ok((d, p + 4 + n)),
                None => Err(ZoneMapError::Truncated),
            }
        }
    }
}

/// The schema type of a field, if the schema has one.
pub open spec fn type_of(types: Map<i32, IcebergType>, field_id: i32) -> Option<IcebergType> {
    if types.contains_key(field_id) {
        Some(types[field_id])
    } else {
        None
    }
}

pub open spec fn parse_column(b: Seq<u8>, p: int, types: Map<i32, IcebergType>) -> Parsed<
    ColumnModel,
> {
    if p + 20 > b.len() {
        Err(ZoneMapError::Truncated)
    } else {
        let field_id = bytes::le_signed(b.subrange(p, p + 4)) as i32;
        let ty = type_of(types, field_id);
        match parse_bound(b, p + 20, ty, field_id) {
            Err(e) => Err(e),
            Ok((min, q)) => match parse_bound(b, q, ty, field_id) {
                Err(e) => Err(e),
                Ok((max, end)) => Ok(
                    (
                        ColumnModel {
                            field_id,
                            min,
                            max,
                            null_count: bytes::le_unsigned(b.subrange(p + 4, p + 12)) as u64,
                            value_count: bytes::le_unsigned(b.subrange(p + 12, p + 20)) as u64,
                        },
                        end,
                    ),
                ),
            },
        }
    }
}

/// `n` columns, one after another, from position `p`.
pub open spec fn parse_columns(
    b: Seq<u8>,
    p: int,
    types: Map<i32, IcebergType>,
    n: nat,
) -> Parsed<Seq<ColumnModel>>
    decreases n,
{
    if n == 0 {
        Ok((Seq::empty(), p))
    } else {
        match parse_column(b, p, types) {
            Err(e) => Err(e),
            Ok((c, q)) => after(seq![c], parse_columns(b, q, types, (n - 1) as nat)),
        }
    }
}

pub open spec fn parse_zone(b: Seq<u8>, p: int, types: Map<i32, IcebergType>) -> Parsed<ZoneModel> {
    if p + 24 > b.len() {
        Err(ZoneMapError::Truncated)
    } else {
        let n = bytes::le_unsigned(b.subrange(p + 20, p + 24)) as nat;
        match parse_columns(b, p + 24, types, n) {
            Err(e) => Err(e),
            Ok((columns, end)) => Ok(
                (
                    ZoneModel {
                        zone_id: bytes::le_unsigned(b.subrange(p, p + 4)) as u32,
                        row_offset: bytes::le_unsigned(b.subrange(p + 4, p + 12)) as u64,
                        row_count: bytes::le_unsigned(b.subrange(p + 12, p + 20)) as u64,
                        columns,
                    },
                    end,
                ),
            ),
        }
    }
}

/// `n` zones, one after another, from position `p`.
pub open spec fn parse_zones(
    b: Seq<u8>,
    p: int,
    types: Map<i32, IcebergType>,
    n: nat,
) -> Parsed<Seq<ZoneModel>>
    decreases n,
{
    if n == 0 {
        Ok((Seq::empty(), p))
    } else {
        match parse_zone(b, p, types) {
            Err(e) => Err(e),
            Ok((z, q)) => after(seq![z], parse_zones(b, q, types, (n - 1) as nat)),
        }
    }
}

/// The zone map a payload holds, or why it cannot be read. Bytes after the last zone are
/// not looked at.
pub open spec fn parse_zone_map(b: Seq<u8>, types: Map<i32, IcebergType>) -> Result<
    Seq<ZoneModel>,
    ZoneMapError,
> {
    if b.len() < 1 {
        Err(ZoneMapError::Truncated)
    } else if b[0] != VERSION {
        Err(ZoneMapError::BadVersion(b[0]))
    } else if b.len() < 5 {
        Err(ZoneMapError::Truncated)
    } else {
        match parse_zones(b, 5, types, bytes::le_unsigned(b.subrange(1, 5)) as nat) {
            Err(e) => Err(e),
            Ok((zones, _)) => Ok(zones),
        }
    }
}

/// Interpret single-value bytes under a type.
pub fn value_from_single_value(bytes: &[u8], ty: IcebergType) -> (r: Result<Value, ZoneMapError>)
    ensures
        match r {
            Ok(v) => read_typed(bytes@, ty) == Some(v@),
            Err(e) => read_typed(bytes@, ty) is None && e == ZoneMapError::Truncated,
        },
{
    let n: usize = bytes.len();
    proof {
        if n > 0 {
            bytes::lemma_le_signed_unsigned(bytes@);
        }
        bytes::lemma_le_unsigned_bound(bytes@);
        reveal_with_fuel(bytes::pow256, 9);
    }
    match ty {
        IcebergType::Boolean if n == 1 => Ok(Value::Bool(bytes[0] != 0)),
        IcebergType::Int if n == 4 => Ok(Value::I64(bytes::get_le_signed(bytes))),
        IcebergType::Long if n == 8 => Ok(Value::I64(bytes::get_le_signed(bytes))),
        IcebergType::Float if n == 4 => Ok(
            Value::F64(float::f32_to_f64(bytes::get_le(bytes) as u32)),
        ),
        IcebergType::Double if n == 8 => Ok(Value::F64(bytes::get_le(bytes))),
        IcebergType::Date if n == 4 => Ok(Value::Date(bytes::get_le_signed(bytes) as i32)),
        IcebergType::Time if n == 8 => Ok(Value::Time(bytes::get_le_signed(bytes))),
        IcebergType::Timestamp if n == 8 => Ok(Value::Timestamp(bytes::get_le_signed(bytes))),
        IcebergType::String | IcebergType::Binary => Ok(
            Value::Bytes(vstd::slice::slice_to_vec(bytes)),
        ),
        IcebergType::Decimal { scale } if n <= 16 => Ok(
            Value::Decimal { unscaled: decimal_from_min_be(bytes), scale },
        ),
        _ => Err(ZoneMapError::Truncated),
    }
}

/// What reading an item with a cursor came to, held against its parse.
pub open spec fn read_as<T: View>(c: &Cur, at: &Cur, r: Result<T, ZoneMapError>, want: Parsed<T::V>) -> bool {
    &&& c.wf()
    &&& c.b == at.b
    &&& match r {
        Ok(v) => want == Ok::<(T::V, int), ZoneMapError>((v@, c.p as int)),
        Err(e) => want == Err::<(T::V, int), ZoneMapError>(e),
    }
}

/// Read one length-prefixed bound. A zero length is `Null`; otherwise the bytes are
/// single-value serialization interpreted with `ty` (required when present).
fn get_bound(c: &mut Cur, ty: Option<IcebergType>, field_id: i32) -> (r: Result<
    Value,
    ZoneMapError,
>)
    requires
        old(c).wf(),
    ensures
        read_as(final(c), old(c), r, parse_bound(old(c).b@, old(c).p as int, ty, field_id)),
{
    let n: usize = match c.u32() {
        Some(n) => n as usize,
        None => return Err(ZoneMapError::Truncated),
    };
    if n == 0 {
        return Ok(Value::Null);
    }
    let ty: IcebergType = match ty {
        Some(ty) => ty,
        None => return Err(ZoneMapError::MissingType(field_id)),
    };
    match c.take(n) {
        Some(value) => value_from_single_value(value, ty),
        None => Err(ZoneMapError::Truncated),
    }
}

fn get_column(c: &mut Cur, types: &ColumnTypes) -> (r: Result<ColumnStats, ZoneMapError>)
    requires
        old(c).wf(),
    ensures
        read_as(final(c), old(c), r, parse_column(old(c).b@, old(c).p as int, types@)),
{
    let field_id: i32 = match c.i32() {
        Some(v) => v,
        None => return Err(ZoneMapError::Truncated),
    };
    let null_count: u64 = match c.u64() {
        Some(v) => v,
        None => return Err(ZoneMapError::Truncated),
    };
    let value_count: u64 = match c.u64() {
        Some(v) => v,
        None => return Err(ZoneMapError::Truncated),
    };
    let ty: Option<IcebergType> = match types.get(&field_id) {
        Some(t) => Some(*t),
        None => None,
    };
    let min: Value = match get_bound(c, ty, field_id) {
        Ok(v) => v,
        Err(e) => return Err(e),
    };
    let max: Value = match get_bound(c, ty, field_id) {
        Ok(v) => v,
        Err(e) => return Err(e),
    };
    Ok(ColumnStats { field_id, min, max, null_count, value_count })
}

fn get_zone(c: &mut Cur, types: &ColumnTypes) -> (r: Result<ZoneStats, ZoneMapError>)
    requires
        old(c).wf(),
    ensures
        read_as(final(c), old(c), r, parse_zone(old(c).b@, old(c).p as int, types@)),
{
    let zone_id: u32 = match c.u32() {
        Some(v) => v,
        None => return Err(ZoneMapError::Truncated),
    };
    let row_offset: u64 = match c.u64() {
        Some(v) => v,
        None => return Err(ZoneMapError::Truncated),
    };
    let row_count: u64 = match c.u64() {
        Some(v) => v,
        None => return Err(ZoneMapError::Truncated),
    };
    let count: u32 = match c.u32() {
        Some(v) => v,
        None => return Err(ZoneMapError::Truncated),
    };
    let ghost start = c.p as int;
    let mut columns: Vec<ColumnStats> = Vec::new();
    let mut i: u32 = 0;
    let ghost model = Seq::<ColumnModel>::empty();
    proof {
        let all = parse_columns(c.b@, start, types@, count as nat);
        assert(all is Ok ==> Seq::empty() + all->Ok_0.0 =~= all->Ok_0.0);
        assert(columns@.map_values(|x: ColumnStats| x@) =~= model);
    }
    while i < count
        invariant
            i <= count,
            c.wf(),
            c.b == old(c).b,
            model == columns@.map_values(|x: ColumnStats| x@),
            parse_columns(c.b@, start, types@, count as nat) == after(
                model,
                parse_columns(c.b@, c.p as int, types@, (count - i) as nat),
            ),
            parse_zone(old(c).b@, old(c).p as int, types@) == match parse_columns(
                c.b@,
                start,
                types@,
                count as nat,
            ) {
                Err(e) => Err(e),
                Ok((cols, end)) => Ok(
                    (ZoneModel { zone_id, row_offset, row_count, columns: cols }, end),
                ),
            },
        decreases count - i,
    {
        let ghost rest = parse_columns(c.b@, c.p as int, types@, (count - i) as nat);
        let column: ColumnStats = match get_column(c, types) {
            Ok(v) => v,
            Err(e) => return Err(e),
        };
        proof {
            let tail = parse_columns(c.b@, c.p as int, types@, (count - i - 1) as nat);
            assert(rest == after(seq![column@], tail));
            if tail is Ok {
                assert(model + (seq![column@] + tail->Ok_0.0) =~= model.push(column@)
                    + tail->Ok_0.0);
            }
            model = model.push(column@);
        }
        columns.push(column);
        proof {
            assert(columns@.map_values(|x: ColumnStats| x@) =~= model);
        }
        i = i + 1;
    }
    proof {
        assert(model + Seq::<ColumnModel>::empty() =~= model);
    }
    Ok(ZoneStats { zone_id, row_offset, row_count, columns })
}

impl ZoneMap {
    pub fn new(zones: Vec<ZoneStats>) -> (r: Self)
        ensures
            r.zones == zones,
            r@ == zones@.map_values(|z: ZoneStats| z@),
    {
        Self { zones }
    }

    /// Serialize to the `karma-zonemap-v1` payload (goes into a Puffin blob body). `types`
    /// gives each field's Iceberg type so bounds are serialized with single-value
    /// serialization; a field absent from `types` is inferred from its bound (integers as
    /// `Long`, floats as `Double`, bytes as `String`).
    pub fn encode(&self, types: &ColumnTypes) -> (r: Vec<u8>)
        ensures
            r@ == zone_map_bytes(self@, types@),
    {
        let mut out: Vec<u8> = Vec::new();
        out.push(VERSION);
        bytes::put_le(&mut out, self.zones.len() as i128, 4);
        let mut i: usize = 0;
        proof {
            assert(out@ + zones_bytes(self@, 0, types@) =~= zone_map_bytes(self@, types@));
        }
        while i < self.zones.len()
            invariant
                i <= self.zones@.len(),
                out@ + zones_bytes(self@, i as int, types@) == zone_map_bytes(self@, types@),
            decreases self.zones@.len() - i,
        {
            let ghost before = out@;
            put_zone(&mut out, &self.zones[i], types);
            proof {
                assert(self@[i as int] == self.zones@[i as int]@);
                assert(out@ + zones_bytes(self@, i + 1, types@) =~= before + zones_bytes(
                    self@,
                    i as int,
                    types@,
                ));
            }
            i = i + 1;
        }
        proof {
            assert(out@ =~= out@ + zones_bytes(self@, i as int, types@));
        }
        out
    }

    /// Parse a `karma-zonemap-v1` payload. `types` must contain every field id that has a
    /// non-null bound (a bound's type is not stored in the blob; it comes from the schema).
    pub fn decode(bytes: &[u8], types: &ColumnTypes) -> (r: Result<ZoneMap, ZoneMapError>)
        ensures
            match r {
                Ok(zm) => parse_zone_map(bytes@, types@) == Ok::<Seq<ZoneModel>, ZoneMapError>(
                    zm@,
                ),
                Err(e) => parse_zone_map(bytes@, types@) == Err::<Seq<ZoneModel>, ZoneMapError>(e),
            },
    {
        let mut cur = Cur { b: bytes, p: 0 };
        let c = &mut cur;
        let version: u8 = match c.u8() {
            Some(v) => v,
            None => return Err(ZoneMapError::Truncated),
        };
        if version != VERSION {
            return Err(ZoneMapError::BadVersion(version));
        }
        let count: u32 = match c.u32() {
            Some(v) => v,
            None => return Err(ZoneMapError::Truncated),
        };
        let mut zones: Vec<ZoneStats> = Vec::new();
        let mut i: u32 = 0;
        let ghost model = Seq::<ZoneModel>::empty();
        proof {
            let all = parse_zones(bytes@, 5, types@, count as nat);
            assert(all is Ok ==> Seq::empty() + all->Ok_0.0 =~= all->Ok_0.0);
            assert(zones@.map_values(|x: ZoneStats| x@) =~= model);
        }
        while i < count
            invariant
                i <= count,
                c.wf(),
                c.b@ == bytes@,
                model == zones@.map_values(|x: ZoneStats| x@),
                parse_zones(bytes@, 5, types@, count as nat) == after(
                    model,
                    parse_zones(bytes@, c.p as int, types@, (count - i) as nat),
                ),
                parse_zone_map(bytes@, types@) == match parse_zones(
                    bytes@,
                    5,
                    types@,
                    count as nat,
                ) {
                    Err(e) => Err(e),
                    Ok((zs, _)) => Ok(zs),
                },
            decreases count - i,
        {
            let ghost rest = parse_zones(bytes@, c.p as int, types@, (count - i) as nat);
            let zone: ZoneStats = match get_zone(c, types) {
                Ok(v) => v,
                Err(e) => return Err(e),
            };
            proof {
                let tail = parse_zones(bytes@, c.p as int, types@, (count - i - 1) as nat);
                assert(rest == after(seq![zone@], tail));
                if tail is Ok {
                    assert(model + (seq![zone@] + tail->Ok_0.0) =~= model.push(zone@)
                        + tail->Ok_0.0);
                }
                model = model.push(zone@);
            }
            zones.push(zone);
            proof {
                assert(zones@.map_values(|x: ZoneStats| x@) =~= model);
            }
            i = i + 1;
        }
        proof {
            assert(model + Seq::<ZoneModel>::empty() =~= model);
        }
        Ok(ZoneMap { zones })
    }
}

/// A bound that its type stores without loss: absent, or of the type, within its width, and
/// not the empty byte string (whose stored form is that of an absent bound).
pub open spec fn lossless(d: Datum, ty: IcebergType) -> bool {
    match (ty, d) {
        (_, Datum::Null) => true,
        (IcebergType::Boolean, Datum::Bool(_)) => true,
        (IcebergType::Int, Datum::I64(x)) => i32::MIN <= x <= i32::MAX,
        (IcebergType::Long, Datum::I64(_)) => true,
        (IcebergType::Float, Datum::F64(x)) => float::widen(float::narrow(x) as u32) == x,
        (IcebergType::Double, Datum::F64(_)) => true,
        (IcebergType::Date, Datum::Date(_)) => true,
        (IcebergType::Time, Datum::Time(_)) => true,
        (IcebergType::Timestamp, Datum::Timestamp(_)) => true,
        (IcebergType::String, Datum::Bytes(s)) => 0 < s.len() <= u32::MAX,
        (IcebergType::Binary, Datum::Bytes(s)) => 0 < s.len() <= u32::MAX,
        (IcebergType::Decimal { scale }, Datum::Decimal { scale: own, .. }) => scale == own,
        _ => false,
    }
}

/// Column stats that read back as they were written: absent bounds, or bounds that the
/// schema types and stores without loss.
pub open spec fn column_storable(c: ColumnModel, types: Map<i32, IcebergType>) -> bool {
    if types.contains_key(c.field_id) {
        lossless(c.min, types[c.field_id]) && lossless(c.max, types[c.field_id])
    } else {
        c.min is Null && c.max is Null
    }
}

pub open spec fn zone_storable(z: ZoneModel, types: Map<i32, IcebergType>) -> bool {
    &&& z.columns.len() <= u32::MAX
    &&& forall|i: int|
        0 <= i < z.columns.len() ==> column_storable(#[trigger] z.columns[i], types)
}

/// A zone map that reads back as it was written; the counts are stored in four bytes.
pub open spec fn storable(zs: Seq<ZoneModel>, types: Map<i32, IcebergType>) -> bool {
    &&& zs.len() <= u32::MAX
    &&& forall|i: int| 0 <= i < zs.len() ==> zone_storable(#[trigger] zs[i], types)
}

proof fn lemma_typed_reads_back(d: Datum, ty: IcebergType)
    requires
        lossless(d, ty),
        !(d is Null),
    ensures
        0 < typed_bytes(d, ty).len() <= u32::MAX,
        read_typed(typed_bytes(d, ty), ty) == Some(d),
{
    let s = typed_bytes(d, ty);
    bytes::lemma_pow256_values();
    reveal_with_fuel(bytes::pow256, 9);
    match d {
        Datum::I64(x) => {
            let n: nat = if ty is Int {
                4
            } else {
                8
            };
            bytes::lemma_le_bytes_len(x as int, n);
            bytes::lemma_le_signed_inverse(x as int, n);
        },
        Datum::F64(x) => {
            if ty is Float {
                float::lemma_conversions_fit(float::exponent(x), float::fraction(x));
                bytes::lemma_le_bytes_len(float::narrow(x), 4);
                bytes::lemma_le_unsigned_inverse(float::narrow(x), 4);
            } else {
                bytes::lemma_le_bytes_len(x as int, 8);
                bytes::lemma_le_unsigned_inverse(x as int, 8);
            }
        },
        Datum::Date(x) => {
            bytes::lemma_le_bytes_len(x as int, 4);
            bytes::lemma_le_signed_inverse(x as int, 4);
        },
        Datum::Time(x) => {
            bytes::lemma_le_bytes_len(x as int, 8);
            bytes::lemma_le_signed_inverse(x as int, 8);
        },
        Datum::Timestamp(x) => {
            bytes::lemma_le_bytes_len(x as int, 8);
            bytes::lemma_le_signed_inverse(x as int, 8);
        },
        Datum::Decimal { unscaled, .. } => {
            bytes::lemma_min_be_inverse(unscaled as int);
            bytes::lemma_min_be_len(unscaled as int, 16);
        },
        _ => {},
    }
}

proof fn lemma_bound_reads_back(
    b: Seq<u8>,
    p: int,
    d: Datum,
    write_ty: IcebergType,
    ty: Option<IcebergType>,
    field_id: i32,
)
    requires
        bytes::stands_at(b, p, bound_bytes(d, write_ty)),
        d is Null || (ty == Some(write_ty) && lossless(d, write_ty)),
    ensures
        parse_bound(b, p, ty, field_id) == Ok::<(Datum, int), ZoneMapError>(
            (d, p + bound_bytes(d, write_ty).len()),
        ),
{
    let s = typed_bytes(d, write_ty);
    let n = s.len() as int;
    if !(d is Null) {
        lemma_typed_reads_back(d, write_ty);
    }
    bytes::lemma_pow256_values();
    bytes::lemma_le_bytes_len(n, 4);
    bytes::lemma_stands_split(b, p, bytes::le_bytes(n, 4), s);
    bytes::lemma_stands_unsigned(b, p, n, 4);
}

proof fn lemma_column_reads_back(b: Seq<u8>, p: int, c: ColumnModel, types: Map<i32, IcebergType>)
    requires
        bytes::stands_at(b, p, column_bytes(c, types)),
        column_storable(c, types),
    ensures
        parse_column(b, p, types) == Ok::<(ColumnModel, int), ZoneMapError>(
            (c, p + column_bytes(c, types).len()),
        ),
{
    let ty = column_type(c, types);
    let s1 = bytes::le_bytes(c.field_id as int, 4);
    let s2 = bytes::le_bytes(c.null_count as int, 8);
    let s3 = bytes::le_bytes(c.value_count as int, 8);
    let s4 = bound_bytes(c.min, ty);
    let s5 = bound_bytes(c.max, ty);
    bytes::lemma_le_bytes_len(c.field_id as int, 4);
    bytes::lemma_le_bytes_len(c.null_count as int, 8);
    bytes::lemma_le_bytes_len(c.value_count as int, 8);
    bytes::lemma_pow256_values();
    bytes::lemma_stands_split(b, p, s1 + s2 + s3 + s4, s5);
    bytes::lemma_stands_split(b, p, s1 + s2 + s3, s4);
    bytes::lemma_stands_split(b, p, s1 + s2, s3);
    bytes::lemma_stands_split(b, p, s1, s2);
    reveal_with_fuel(bytes::pow256, 4);
    bytes::lemma_le_signed_inverse(c.field_id as int, 4);
    bytes::lemma_stands_unsigned(b, p + 4, c.null_count as int, 8);
    bytes::lemma_stands_unsigned(b, p + 12, c.value_count as int, 8);
    let read_ty = type_of(types, c.field_id);
    lemma_bound_reads_back(b, p + 20, c.min, ty, read_ty, c.field_id);
    lemma_bound_reads_back(b, p + 20 + s4.len(), c.max, ty, read_ty, c.field_id);
}

proof fn lemma_columns_read_back(
    b: Seq<u8>,
    p: int,
    cs: Seq<ColumnModel>,
    i: int,
    types: Map<i32, IcebergType>,
)
    requires
        0 <= i <= cs.len(),
        bytes::stands_at(b, p, columns_bytes(cs, i, types)),
        forall|k: int| i <= k < cs.len() ==> column_storable(#[trigger] cs[k], types),
    ensures
        parse_columns(b, p, types, (cs.len() - i) as nat) == Ok::<
            (Seq<ColumnModel>, int),
            ZoneMapError,
        >((cs.skip(i), p + columns_bytes(cs, i, types).len())),
    decreases cs.len() - i,
{
    if i < cs.len() {
        let s = column_bytes(cs[i], types);
        bytes::lemma_stands_split(b, p, s, columns_bytes(cs, i + 1, types));
        lemma_column_reads_back(b, p, cs[i], types);
        lemma_columns_read_back(b, p + s.len(), cs, i + 1, types);
        assert(seq![cs[i]] + cs.skip(i + 1) =~= cs.skip(i));
    } else {
        assert(cs.skip(i) =~= Seq::<ColumnModel>::empty());
    }
}

proof fn lemma_zone_reads_back(b: Seq<u8>, p: int, z: ZoneModel, types: Map<i32, IcebergType>)
    requires
        bytes::stands_at(b, p, zone_bytes(z, types)),
        zone_storable(z, types),
    ensures
        parse_zone(b, p, types) == Ok::<(ZoneModel, int), ZoneMapError>(
            (z, p + zone_bytes(z, types).len()),
        ),
{
    let s1 = bytes::le_bytes(z.zone_id as int, 4);
    let s2 = bytes::le_bytes(z.row_offset as int, 8);
    let s3 = bytes::le_bytes(z.row_count as int, 8);
    let s4 = bytes::le_bytes(z.columns.len() as int, 4);
    let s5 = columns_bytes(z.columns, 0, types);
    bytes::lemma_le_bytes_len(z.zone_id as int, 4);
    bytes::lemma_le_bytes_len(z.row_offset as int, 8);
    bytes::lemma_le_bytes_len(z.row_count as int, 8);
    bytes::lemma_le_bytes_len(z.columns.len() as int, 4);
    bytes::lemma_pow256_values();
    bytes::lemma_stands_split(b, p, s1 + s2 + s3 + s4, s5);
    bytes::lemma_stands_split(b, p, s1 + s2 + s3, s4);
    bytes::lemma_stands_split(b, p, s1 + s2, s3);
    bytes::lemma_stands_split(b, p, s1, s2);
    bytes::lemma_stands_unsigned(b, p, z.zone_id as int, 4);
    bytes::lemma_stands_unsigned(b, p + 4, z.row_offset as int, 8);
    bytes::lemma_stands_unsigned(b, p + 12, z.row_count as int, 8);
    bytes::lemma_stands_unsigned(b, p + 20, z.columns.len() as int, 4);
    lemma_columns_read_back(b, p + 24, z.columns, 0, types);
    assert(z.columns.skip(0) =~= z.columns);
}

proof fn lemma_zones_read_back(
    b: Seq<u8>,
    p: int,
    zs: Seq<ZoneModel>,
    i: int,
    types: Map<i32, IcebergType>,
)
    requires
        0 <= i <= zs.len(),
        bytes::stands_at(b, p, zones_bytes(zs, i, types)),
        forall|k: int| i <= k < zs.len() ==> zone_storable(#[trigger] zs[k], types),
    ensures
        parse_zones(b, p, types, (zs.len() - i) as nat) == Ok::<
            (Seq<ZoneModel>, int),
            ZoneMapError,
        >((zs.skip(i), p + zones_bytes(zs, i, types).len())),
    decreases zs.len() - i,
{
    if i < zs.len() {
        let s = zone_bytes(zs[i], types);
        bytes::lemma_stands_split(b, p, s, zones_bytes(zs, i + 1, types));
        lemma_zone_reads_back(b, p, zs[i], types);
        lemma_zones_read_back(b, p + s.len(), zs, i + 1, types);
        assert(seq![zs[i]] + zs.skip(i + 1) =~= zs.skip(i));
    } else {
        assert(zs.skip(i) =~= Seq::<ZoneModel>::empty());
    }
}

/// Decoding an encoded zone map under the same schema gives it back, whatever follows it.
pub proof fn law_zone_map_round_trip(
    zs: Seq<ZoneModel>,
    types: Map<i32, IcebergType>,
    trailing: Seq<u8>,
)
    requires
        storable(zs, types),
    ensures
        parse_zone_map(zone_map_bytes(zs, types), types) == Ok::<Seq<ZoneModel>, ZoneMapError>(zs),
        parse_zone_map(zone_map_bytes(zs, types) + trailing, types) == Ok::<
            Seq<ZoneModel>,
            ZoneMapError,
        >(zs),
{
    lemma_round_trip(zs, types, trailing);
    lemma_round_trip(zs, types, Seq::empty());
    assert(zone_map_bytes(zs, types) + Seq::empty() =~= zone_map_bytes(zs, types));
}

proof fn lemma_round_trip(zs: Seq<ZoneModel>, types: Map<i32, IcebergType>, trailing: Seq<u8>)
    requires
        storable(zs, types),
    ensures
        parse_zone_map(zone_map_bytes(zs, types) + trailing, types) == Ok::<
            Seq<ZoneModel>,
            ZoneMapError,
        >(zs),
{
    let whole = zone_map_bytes(zs, types);
    let b = whole + trailing;
    let s1 = seq![VERSION];
    let s2 = bytes::le_bytes(zs.len() as int, 4);
    assert(b.subrange(0, whole.len() as int) =~= whole);
    bytes::lemma_le_bytes_len(zs.len() as int, 4);
    bytes::lemma_pow256_values();
    bytes::lemma_stands_split(b, 0, s1 + s2, zones_bytes(zs, 0, types));
    bytes::lemma_stands_split(b, 0, s1, s2);
    assert(b[0] == s1[0]);
    bytes::lemma_stands_unsigned(b, 1, zs.len() as int, 4);
    lemma_zones_read_back(b, 5, zs, 0, types);
    assert(zs.skip(0) =~= zs);
}

/// What reading at a position comes to where the input is cut at `k`: as before if it ended by
/// then, else truncated.
pub open spec fn cut<T>(whole: Parsed<T>, k: int) -> Parsed<T> {
    match whole {
        Ok((item, end)) => if end <= k {
            Ok((item, end))
        } else {
            Err(ZoneMapError::Truncated)
        },
        Err(e) => Err(e),
    }
}

proof fn lemma_cut_subrange(b: Seq<u8>, k: int, p: int, q: int)
    requires
        0 <= p <= q <= k <= b.len(),
    ensures
        b.take(k).subrange(p, q) == b.subrange(p, q),
{
    assert(b.take(k).subrange(p, q) =~= b.subrange(p, q));
}

proof fn lemma_cut_bound(b: Seq<u8>, k: int, p: int, ty: Option<IcebergType>, field_id: i32)
    requires
        0 <= p <= k <= b.len(),
        parse_bound(b, p, ty, field_id) is Ok,
    ensures
        parse_bound(b.take(k), p, ty, field_id) == cut(parse_bound(b, p, ty, field_id), k),
        parse_bound(b, p, ty, field_id) matches Ok((_, q)) && p <= q <= b.len(),
{
    let n = bytes::le_unsigned(b.subrange(p, p + 4));
    bytes::lemma_le_unsigned_bound(b.subrange(p, p + 4));
    if p + 4 <= k {
        lemma_cut_subrange(b, k, p, p + 4);
        if p + 4 + n <= k {
            lemma_cut_subrange(b, k, p + 4, p + 4 + n);
        }
    }
}

proof fn lemma_cut_column(b: Seq<u8>, k: int, p: int, types: Map<i32, IcebergType>)
    requires
        0 <= p <= k <= b.len(),
        parse_column(b, p, types) is Ok,
    ensures
        parse_column(b.take(k), p, types) == cut(parse_column(b, p, types), k),
        parse_column(b, p, types) matches Ok((_, q)) && p <= q <= b.len(),
{
    let field_id = bytes::le_signed(b.subrange(p, p + 4)) as i32;
    let ty = type_of(types, field_id);
    let q = match parse_bound(b, p + 20, ty, field_id) {
        Ok((_, q)) => q,
        Err(_) => 0,
    };
    lemma_cut_bound(b, b.len() as int, p + 20, ty, field_id);
    lemma_cut_bound(b, b.len() as int, q, ty, field_id);
    if p + 20 <= k {
        lemma_cut_subrange(b, k, p, p + 4);
        lemma_cut_subrange(b, k, p + 4, p + 12);
        lemma_cut_subrange(b, k, p + 12, p + 20);
        lemma_cut_bound(b, k, p + 20, ty, field_id);
        if q <= k {
            lemma_cut_bound(b, k, q, ty, field_id);
        }
    }
}

proof fn lemma_cut_columns(b: Seq<u8>, k: int, p: int, types: Map<i32, IcebergType>, n: nat)
    requires
        0 <= p <= k <= b.len(),
        parse_columns(b, p, types, n) is Ok,
    ensures
        parse_columns(b.take(k), p, types, n) == cut(parse_columns(b, p, types, n), k),
        parse_columns(b, p, types, n) matches Ok((_, q)) && p <= q <= b.len(),
    decreases n,
{
    if n > 0 {
        lemma_cut_column(b, k, p, types);
        let q = match parse_column(b, p, types) {
            Ok((_, q)) => q,
            Err(_) => 0,
        };
        lemma_cut_columns(b, b.len() as int, q, types, (n - 1) as nat);
        if q <= k {
            lemma_cut_columns(b, k, q, types, (n - 1) as nat);
        }
    }
}

proof fn lemma_cut_zone(b: Seq<u8>, k: int, p: int, types: Map<i32, IcebergType>)
    requires
        0 <= p <= k <= b.len(),
        parse_zone(b, p, types) is Ok,
    ensures
        parse_zone(b.take(k), p, types) == cut(parse_zone(b, p, types), k),
        parse_zone(b, p, types) matches Ok((_, q)) && p <= q <= b.len(),
{
    let n = bytes::le_unsigned(b.subrange(p + 20, p + 24)) as nat;
    lemma_cut_columns(b, b.len() as int, p + 24, types, n);
    if p + 24 <= k {
        lemma_cut_subrange(b, k, p, p + 4);
        lemma_cut_subrange(b, k, p + 4, p + 12);
        lemma_cut_subrange(b, k, p + 12, p + 20);
        lemma_cut_subrange(b, k, p + 20, p + 24);
        lemma_cut_columns(b, k, p + 24, types, n);
    }
}

proof fn lemma_cut_zones(b: Seq<u8>, k: int, p: int, types: Map<i32, IcebergType>, n: nat)
    requires
        0 <= p <= k <= b.len(),
        parse_zones(b, p, types, n) is Ok,
    ensures
        parse_zones(b.take(k), p, types, n) == cut(parse_zones(b, p, types, n), k),
        parse_zones(b, p, types, n) matches Ok((_, q)) && p <= q <= b.len(),
    decreases n,
{
    if n > 0 {
        lemma_cut_zone(b, k, p, types);
        let q = match parse_zone(b, p, types) {
            Ok((_, q)) => q,
            Err(_) => 0,
        };
        lemma_cut_zones(b, b.len() as int, q, types, (n - 1) as nat);
        if q <= k {
            lemma_cut_zones(b, k, q, types, (n - 1) as nat);
        }
    }
}

/// An encoded zone map that is cut short anywhere is truncated, never read as something else.
pub proof fn law_cut_zone_maps_are_truncated(
    zs: Seq<ZoneModel>,
    types: Map<i32, IcebergType>,
    k: int,
)
    requires
        storable(zs, types),
        0 <= k < zone_map_bytes(zs, types).len(),
    ensures
        parse_zone_map(zone_map_bytes(zs, types).take(k), types) == Err::<
            Seq<ZoneModel>,
            ZoneMapError,
        >(ZoneMapError::Truncated),
{
    let b = zone_map_bytes(zs, types);
    let s1 = seq![VERSION];
    let s2 = bytes::le_bytes(zs.len() as int, 4);
    assert(b.subrange(0, b.len() as int) =~= b);
    bytes::lemma_le_bytes_len(zs.len() as int, 4);
    bytes::lemma_pow256_values();
    bytes::lemma_stands_split(b, 0, s1 + s2, zones_bytes(zs, 0, types));
    bytes::lemma_stands_split(b, 0, s1, s2);
    assert(b[0] == s1[0]);
    bytes::lemma_stands_unsigned(b, 1, zs.len() as int, 4);
    lemma_zones_read_back(b, 5, zs, 0, types);
    if k >= 5 {
        lemma_cut_subrange(b, k, 1, 5);
        lemma_cut_zones(b, k, 5, types, zs.len());
    }
}

/// The decimal codec loses nothing.
pub proof fn law_decimal_round_trip(v: i128)
    ensures
        bytes::be_signed(bytes::min_be_bytes(v as int)) == v,
        0 < bytes::min_be_bytes(v as int).len() <= 16,
{
    bytes::lemma_min_be_inverse(v as int);
    reveal_with_fuel(bytes::pow256, 16);
    bytes::lemma_min_be_len(v as int, 16);
}

/// No shorter byte string stands for the same decimal.
pub proof fn law_decimal_bytes_shortest(v: i128, s: Seq<u8>)
    requires
        s.len() > 0,
        bytes::be_signed(s) == v,
    ensures
        bytes::min_be_bytes(v as int).len() <= s.len(),
{
    bytes::lemma_min_be_shortest(v as int, s);
}

/// A float column loses none of its numbers: each 32-bit number, widened, is stored without loss.
pub proof fn law_float_columns_are_lossless(f: u32)
    requires
        !float::is_nan32(f),
    ensures
        lossless(Datum::F64(float::widen(f) as u64), IcebergType::Float),
{
    let m = f as int % 0x8000_0000;
    float::law_narrow_undoes_widen(f);
    float::lemma_conversions_fit(m / 0x80_0000, m % 0x80_0000);
}

/// How a value is serialized under a type. A boolean is one byte, 1 or 0; bytes stand as they
/// are; `Null` has none. Numbers stand low byte first: an integer in eight bytes, or in four
/// under a 32-bit type; a float by its pattern in eight, or narrowed in four; a date in four; a
/// time or a timestamp in eight. A decimal is its unscaled number, high byte first, in the fewest
/// bytes.
#[verifier::rlimit(40)]
pub proof fn law_single_values_spell_the_value(
    ty: IcebergType,
    b: bool,
    x: i64,
    bits: u64,
    s: Seq<u8>,
    unscaled: i128,
    scale: i32,
    day: i32,
)
    ensures
        typed_bytes(Datum::Null, ty).len() == 0,
        typed_bytes(Datum::Bool(b), ty).len() == 1,
        b ==> typed_bytes(Datum::Bool(b), ty)[0] == 1,
        !b ==> typed_bytes(Datum::Bool(b), ty)[0] == 0,
        typed_bytes(Datum::Bytes(s), ty) == s,
        typed_bytes(Datum::I64(x), ty).len() == (if ty is Int {
            4int
        } else {
            8
        }),
        bytes::spells(typed_bytes(Datum::I64(x), ty), x as int),
        ty is Float ==> typed_bytes(Datum::F64(bits), ty).len() == 4 && bytes::spells(
            typed_bytes(Datum::F64(bits), ty),
            float::narrow(bits),
        ),
        !(ty is Float) ==> typed_bytes(Datum::F64(bits), ty).len() == 8 && bytes::spells(
            typed_bytes(Datum::F64(bits), ty),
            bits as int,
        ),
        typed_bytes(Datum::Date(day), ty).len() == 4,
        bytes::spells(typed_bytes(Datum::Date(day), ty), day as int),
        typed_bytes(Datum::Time(x), ty).len() == 8,
        bytes::spells(typed_bytes(Datum::Time(x), ty), x as int),
        typed_bytes(Datum::Timestamp(x), ty).len() == 8,
        bytes::spells(typed_bytes(Datum::Timestamp(x), ty), x as int),
        bytes::spells(
            typed_bytes(Datum::Decimal { unscaled, scale }, ty).reverse(),
            unscaled as int,
        ),
        0 < typed_bytes(Datum::Decimal { unscaled, scale }, ty).len() <= 16,
        s.len() > 0 && bytes::be_signed(s) == unscaled ==> typed_bytes(
            Datum::Decimal { unscaled, scale },
            ty,
        ).len() <= s.len(),
{
    bytes::law_le_bytes_are_the_digits(x as int, 4);
    bytes::law_le_bytes_are_the_digits(x as int, 8);
    bytes::law_le_bytes_are_the_digits(bits as int, 8);
    bytes::law_le_bytes_are_the_digits(float::narrow(bits), 4);
    bytes::law_le_bytes_are_the_digits(day as int, 4);
    bytes::law_min_be_bytes_are_the_digits(unscaled as int, s);
    law_decimal_round_trip(unscaled);
}

/// The type that a value is given where the schema names none holds it without loss: read under
/// that type, its bytes are the value again. A string may be empty.
pub proof fn law_inferred_types_hold_the_value(d: Datum)
    requires
        !(d is Null),
    ensures
        read_typed(typed_bytes(d, natural_type(d)), natural_type(d)) == Some(d),
{
    if d is Bytes {
    } else {
        lemma_typed_reads_back(d, natural_type(d));
    }
}

/// How wide a value of a type is, where its width is fixed.
pub open spec fn fixed_width(ty: IcebergType) -> Option<int> {
    match ty {
        IcebergType::Boolean => Some(1),
        IcebergType::Int => Some(4),
        IcebergType::Float => Some(4),
        IcebergType::Date => Some(4),
        IcebergType::Long => Some(8),
        IcebergType::Double => Some(8),
        IcebergType::Time => Some(8),
        IcebergType::Timestamp => Some(8),
        _ => None,
    }
}

/// Which bytes are a value of a type: those of its width, where that is fixed; at most sixteen of
/// a decimal; any of a string or a binary.
pub proof fn law_widths_decide_what_is_read(s: Seq<u8>, ty: IcebergType)
    ensures
        read_typed(s, ty) is Some <==> match fixed_width(ty) {
            Some(n) => s.len() == n,
            None => ty is Decimal ==> s.len() <= 16,
        },
{
}

/// What bytes say under a type. Numbers are read low byte first and signed, floats as patterns,
/// a narrow one as its number; a boolean is true unless its byte is 0; strings and binaries are
/// the bytes themselves; a decimal is read high byte first, signed, at the scale of the type.
#[verifier::rlimit(40)]
pub proof fn law_bytes_say_their_value(s: Seq<u8>, scale: i32, narrow: u32)
    ensures
        s.len() == 1 ==> read_typed(s, IcebergType::Boolean) == Some(Datum::Bool(s[0] != 0)),
        s.len() == 4 ==> (read_typed(s, IcebergType::Int) matches Some(Datum::I64(x))
            && bytes::spells(s, x as int) && i32::MIN <= x <= i32::MAX),
        s.len() == 4 ==> (read_typed(s, IcebergType::Date) matches Some(Datum::Date(x))
            && bytes::spells(s, x as int)),
        s.len() == 8 ==> (read_typed(s, IcebergType::Long) matches Some(Datum::I64(x))
            && bytes::spells(s, x as int)),
        s.len() == 8 ==> (read_typed(s, IcebergType::Time) matches Some(Datum::Time(x))
            && bytes::spells(s, x as int)),
        s.len() == 8 ==> (read_typed(s, IcebergType::Timestamp) matches Some(Datum::Timestamp(x))
            && bytes::spells(s, x as int)),
        s.len() == 8 ==> (read_typed(s, IcebergType::Double) matches Some(Datum::F64(x))
            && bytes::spells(s, x as int)),
        s.len() == 4 && bytes::spells(s, narrow as int) ==> (read_typed(
            s,
            IcebergType::Float,
        ) matches Some(Datum::F64(w)) && float::is_nan(w) == float::is_nan32(narrow) && (
        !float::is_nan32(narrow) ==> float::units(w) == float::units_32(narrow))),
        read_typed(s, IcebergType::String) == Some(Datum::Bytes(s)),
        read_typed(s, IcebergType::Binary) == Some(Datum::Bytes(s)),
        s.len() <= 16 ==> (read_typed(s, IcebergType::Decimal { scale }) matches Some(
            Datum::Decimal { unscaled, scale: own },
        ) && own == scale && bytes::spells(s.reverse(), unscaled as int) && (s.len() == 0
            ==> unscaled == 0) && (s.len() > 0 ==> (unscaled < 0 <==> s[0] >= 128))),
{
    bytes::lemma_pow256_values();
    reveal_with_fuel(bytes::pow256, 9);
    if s.len() == 4 || s.len() == 8 {
        bytes::law_le_signed_has_the_digits(s);
        bytes::lemma_le_signed_unsigned(s);
        bytes::law_le_unsigned_has_the_digits(s);
        bytes::lemma_le_unsigned_bound(s);
    }
    if s.len() == 4 && bytes::spells(s, narrow as int) {
        bytes::lemma_digits_are_unique(s, narrow as int);
        float::law_widening_keeps_the_number(narrow);
    }
    if 0 < s.len() <= 16 {
        let t = s.reverse();
        bytes::law_be_signed_is_le_turned_round(s);
        bytes::law_le_signed_has_the_digits(t);
        bytes::lemma_le_signed_unsigned(t);
        bytes::lemma_le_unsigned_bound(t);
        bytes::lemma_pow256_grows((t.len() - 1) as nat, 15);
        assert(t.last() == s[0]);
    }
}

/// The type of a column's bounds is the one of the schema; where it names none, the one of the
/// lower bound, or of the upper if there is no lower one.
pub proof fn law_schema_types_come_first(c: ColumnModel, types: Map<i32, IcebergType>)
    ensures
        types.contains_key(c.field_id) ==> column_type(c, types) == types[c.field_id],
        !types.contains_key(c.field_id) && !(c.min is Null) ==> read_typed(
            typed_bytes(c.min, column_type(c, types)),
            column_type(c, types),
        ) == Some(c.min),
        !types.contains_key(c.field_id) && c.min is Null && !(c.max is Null) ==> read_typed(
            typed_bytes(c.max, column_type(c, types)),
            column_type(c, types),
        ) == Some(c.max),
{
    if !(c.min is Null) {
        law_inferred_types_hold_the_value(c.min);
    }
    if !(c.max is Null) {
        law_inferred_types_hold_the_value(c.max);
    }
}

/// The stats of a field are those of the first column with its id.
pub proof fn law_first_column_has_the_id(cs: Seq<ColumnModel>, field_id: i32, i: int)
    requires
        0 <= i <= cs.len(),
        forall|k: int| 0 <= k < i ==> (#[trigger] cs[k]).field_id != field_id,
        i < cs.len() ==> cs[i].field_id == field_id,
    ensures
        i < cs.len() ==> first_column(cs, field_id) == Some(cs[i]),
        i == cs.len() ==> first_column(cs, field_id) is None,
    decreases cs.len(),
{
    if i > 0 {
        let rest = cs.drop_first();
        assert(cs[0].field_id != field_id);
        assert forall|k: int| 0 <= k < i - 1 implies (#[trigger] rest[k]).field_id
            != field_id by {
            assert(rest[k] == cs[k + 1]);
        }
        law_first_column_has_the_id(rest, field_id, i - 1);
    }
}

/// Equality of values: two floats are equal if they are the same number, and a NaN equals
/// nothing, not even itself; all other values are equal if they are the same.
pub proof fn law_equal_values_are_the_same_number(a: u64, b: u64, d: Datum, e: Datum)
    ensures
        same_datum(Datum::F64(a), Datum::F64(b)) <==> !float::is_nan(a) && !float::is_nan(b)
            && float::units(a) == float::units(b),
        !(d is F64) || !(e is F64) ==> (same_datum(d, e) <==> d == e),
{
    if !float::is_nan(a) && !float::is_nan(b) {
        float::law_key_orders_numbers(a, b);
    }
}

/// Equality of stats is field by field: zone maps are equal if and only if they have as many
/// zones, with equal ids, rows and columns, each with an equal id, bounds and counts.
pub proof fn law_equality_compares_every_field(
    a: ColumnModel,
    b: ColumnModel,
    y: ZoneModel,
    z: ZoneModel,
    i: int,
    ys: Seq<ZoneModel>,
    zs: Seq<ZoneModel>,
    k: int,
)
    ensures
        same_column(a, b) <==> a.field_id == b.field_id && a.null_count == b.null_count
            && a.value_count == b.value_count && same_datum(a.min, b.min) && same_datum(
            a.max,
            b.max,
        ),
        same_zone(y, z) ==> y.zone_id == z.zone_id && y.row_offset == z.row_offset && y.row_count
            == z.row_count && y.columns.len() == z.columns.len() && (0 <= i < y.columns.len()
            ==> same_column(y.columns[i], z.columns[i])),
        same_zones(ys, zs) ==> ys.len() == zs.len() && (0 <= k < ys.len() ==> same_zone(
            ys[k],
            zs[k],
        )),
{
    if same_zone(y, z) && 0 <= i < y.columns.len() {
        assert(same_column(y.columns[i], z.columns[i]));
    }
    if same_zones(ys, zs) && 0 <= k < ys.len() {
        assert(same_zone(ys[k], zs[k]));
    }
}

/// Stats that hold no NaN are equal to themselves.
pub proof fn law_stats_without_nan_equal_themselves(zs: Seq<ZoneModel>)
    requires
        forall|k: int, i: int|
            0 <= k < zs.len() && 0 <= i < zs[k].columns.len() ==> same_datum(
                (#[trigger] zs[k].columns[i]).min,
                zs[k].columns[i].min,
            ) && same_datum(zs[k].columns[i].max, zs[k].columns[i].max),
    ensures
        same_zones(zs, zs),
{
    assert forall|k: int| 0 <= k < zs.len() implies same_zone(#[trigger] zs[k], zs[k]) by {
        assert forall|i: int| 0 <= i < zs[k].columns.len() implies same_column(
            #[trigger] zs[k].columns[i],
            zs[k].columns[i],
        ) by {
            assert(same_datum(zs[k].columns[i].min, zs[k].columns[i].min));
        }
    }
}

/// How many bytes a column takes: twenty of id and counts, and for each bound four of length and
/// its own.
pub open spec fn column_width(c: ColumnModel, types: Map<i32, IcebergType>) -> int {
    28int + typed_bytes(c.min, column_type(c, types)).len() + typed_bytes(
        c.max,
        column_type(c, types),
    ).len()
}

/// Where column `j` of a zone starts, counted from the zone's first byte.
pub open spec fn column_start(z: ZoneModel, types: Map<i32, IcebergType>, j: int) -> int
    decreases j,
{
    if j <= 0 {
        24
    } else {
        column_start(z, types, j - 1) + column_width(z.columns[j - 1], types)
    }
}

/// Where zone `i` starts: behind the version byte and the count, each zone behind the last
/// column of the one before.
pub open spec fn zone_start(zs: Seq<ZoneModel>, types: Map<i32, IcebergType>, i: int) -> int
    decreases i,
{
    if i <= 0 {
        5
    } else {
        zone_start(zs, types, i - 1) + column_start(
            zs[i - 1],
            types,
            zs[i - 1].columns.len() as int,
        )
    }
}

proof fn lemma_column_width(c: ColumnModel, types: Map<i32, IcebergType>)
    ensures
        column_bytes(c, types).len() == column_width(c, types),
{
    let ty = column_type(c, types);
    bytes::lemma_le_bytes_len(c.field_id as int, 4);
    bytes::lemma_le_bytes_len(c.null_count as int, 8);
    bytes::lemma_le_bytes_len(c.value_count as int, 8);
    bytes::lemma_le_bytes_len(typed_bytes(c.min, ty).len() as int, 4);
    bytes::lemma_le_bytes_len(typed_bytes(c.max, ty).len() as int, 4);
}

proof fn lemma_column_stands(
    b: Seq<u8>,
    p: int,
    z: ZoneModel,
    types: Map<i32, IcebergType>,
    from: int,
    j: int,
)
    requires
        0 <= from <= j <= z.columns.len(),
        bytes::stands_at(
            b,
            p + column_start(z, types, from),
            columns_bytes(z.columns, from, types),
        ),
    ensures
        bytes::stands_at(b, p + column_start(z, types, j), columns_bytes(z.columns, j, types)),
        column_start(z, types, from) + columns_bytes(z.columns, from, types).len() == column_start(
            z,
            types,
            j,
        ) + columns_bytes(z.columns, j, types).len(),
        j < z.columns.len() ==> bytes::stands_at(
            b,
            p + column_start(z, types, j),
            column_bytes(z.columns[j], types),
        ),
    decreases j - from,
{
    if from < z.columns.len() {
        lemma_column_width(z.columns[from], types);
        bytes::lemma_stands_split(
            b,
            p + column_start(z, types, from),
            column_bytes(z.columns[from], types),
            columns_bytes(z.columns, from + 1, types),
        );
    }
    if from < j {
        lemma_column_stands(b, p, z, types, from + 1, j);
    }
}

/// The head of a zone that stands somewhere, and its columns behind it.
proof fn lemma_zone_head(b: Seq<u8>, p: int, z: ZoneModel, types: Map<i32, IcebergType>)
    requires
        bytes::stands_at(b, p, zone_bytes(z, types)),
    ensures
        bytes::spells_at(b, p, 4, z.zone_id as int),
        bytes::spells_at(b, p + 4, 8, z.row_offset as int),
        bytes::spells_at(b, p + 12, 8, z.row_count as int),
        bytes::spells_at(b, p + 20, 4, z.columns.len() as int),
        bytes::stands_at(b, p + column_start(z, types, 0), columns_bytes(z.columns, 0, types)),
        zone_bytes(z, types).len() == column_start(z, types, z.columns.len() as int),
{
    let s1 = bytes::le_bytes(z.zone_id as int, 4);
    let s2 = bytes::le_bytes(z.row_offset as int, 8);
    let s3 = bytes::le_bytes(z.row_count as int, 8);
    let s4 = bytes::le_bytes(z.columns.len() as int, 4);
    let s5 = columns_bytes(z.columns, 0, types);
    bytes::lemma_le_bytes_len(z.zone_id as int, 4);
    bytes::lemma_le_bytes_len(z.row_offset as int, 8);
    bytes::lemma_le_bytes_len(z.row_count as int, 8);
    bytes::lemma_le_bytes_len(z.columns.len() as int, 4);
    bytes::lemma_stands_split(b, p, s1 + s2 + s3 + s4, s5);
    bytes::lemma_stands_split(b, p, s1 + s2 + s3, s4);
    bytes::lemma_stands_split(b, p, s1 + s2, s3);
    bytes::lemma_stands_split(b, p, s1, s2);
    bytes::lemma_stands_spells(b, p, z.zone_id as int, 4);
    bytes::lemma_stands_spells(b, p + 4, z.row_offset as int, 8);
    bytes::lemma_stands_spells(b, p + 12, z.row_count as int, 8);
    bytes::lemma_stands_spells(b, p + 20, z.columns.len() as int, 4);
    lemma_column_stands(b, p, z, types, 0, z.columns.len() as int);
}

proof fn lemma_zone_stands(
    b: Seq<u8>,
    zs: Seq<ZoneModel>,
    types: Map<i32, IcebergType>,
    from: int,
    i: int,
)
    requires
        0 <= from <= i <= zs.len(),
        bytes::stands_at(b, zone_start(zs, types, from), zones_bytes(zs, from, types)),
    ensures
        zone_start(zs, types, from) + zones_bytes(zs, from, types).len() == zone_start(
            zs,
            types,
            i,
        ) + zones_bytes(zs, i, types).len(),
        i < zs.len() ==> bytes::stands_at(b, zone_start(zs, types, i), zone_bytes(zs[i], types)),
    decreases i - from,
{
    if from < zs.len() {
        let p = zone_start(zs, types, from);
        bytes::lemma_stands_split(
            b,
            p,
            zone_bytes(zs[from], types),
            zones_bytes(zs, from + 1, types),
        );
        lemma_zone_head(b, p, zs[from], types);
    }
    if from < i {
        lemma_zone_stands(b, zs, types, from + 1, i);
    }
}

/// How a zone map is laid out. Byte 0 is 1; then the number of zones in four bytes. A zone is
/// its id in four bytes, its row offset and its row count in eight each, the number of its columns
/// in four, and its columns. A column is its field id in four bytes, its null count and its value
/// count in eight each, and its lower and its upper bound, each as four bytes of length and the
/// bytes of the value under the column's type. All numbers stand low byte first; nothing follows
/// the last zone.
pub proof fn law_zone_map_layout(
    zs: Seq<ZoneModel>,
    types: Map<i32, IcebergType>,
    i: int,
    j: int,
)
    ensures
        zone_map_bytes(zs, types).len() == zone_start(zs, types, zs.len() as int),
        zone_map_bytes(zs, types)[0] == 1,
        bytes::spells_at(zone_map_bytes(zs, types), 1, 4, zs.len() as int),
        0 <= i < zs.len() ==> {
            let b = zone_map_bytes(zs, types);
            let p = zone_start(zs, types, i);
            &&& bytes::spells_at(b, p, 4, zs[i].zone_id as int)
            &&& bytes::spells_at(b, p + 4, 8, zs[i].row_offset as int)
            &&& bytes::spells_at(b, p + 12, 8, zs[i].row_count as int)
            &&& bytes::spells_at(b, p + 20, 4, zs[i].columns.len() as int)
        },
        0 <= i < zs.len() && 0 <= j < zs[i].columns.len() ==> {
            let b = zone_map_bytes(zs, types);
            let c = zs[i].columns[j];
            let ty = column_type(c, types);
            let q = zone_start(zs, types, i) + column_start(zs[i], types, j);
            let n = typed_bytes(c.min, ty).len() as int;
            let m = typed_bytes(c.max, ty).len() as int;
            &&& bytes::spells_at(b, q, 4, c.field_id as int)
            &&& bytes::spells_at(b, q + 4, 8, c.null_count as int)
            &&& bytes::spells_at(b, q + 12, 8, c.value_count as int)
            &&& bytes::spells_at(b, q + 20, 4, n)
            &&& bytes::stands_at(b, q + 24, typed_bytes(c.min, ty))
            &&& bytes::spells_at(b, q + 24 + n, 4, m)
            &&& bytes::stands_at(b, q + 28 + n, typed_bytes(c.max, ty))
        },
{
    let b = zone_map_bytes(zs, types);
    let s1 = seq![VERSION];
    let s2 = bytes::le_bytes(zs.len() as int, 4);
    let s3 = zones_bytes(zs, 0, types);
    assert(b.subrange(0, b.len() as int) =~= b);
    bytes::lemma_le_bytes_len(zs.len() as int, 4);
    bytes::lemma_stands_split(b, 0, s1 + s2, s3);
    bytes::lemma_stands_split(b, 0, s1, s2);
    bytes::lemma_stands_spells(b, 1, zs.len() as int, 4);
    lemma_zone_stands(b, zs, types, 0, zs.len() as int);
    if 0 <= i < zs.len() {
        lemma_zone_stands(b, zs, types, 0, i);
        let p = zone_start(zs, types, i);
        lemma_zone_head(b, p, zs[i], types);
        if 0 <= j < zs[i].columns.len() {
            lemma_column_stands(b, p, zs[i], types, 0, j);
            lemma_column_parts(b, p + column_start(zs[i], types, j), zs[i].columns[j], types);
        }
    }
}

/// The parts of a column that stands somewhere.
proof fn lemma_column_parts(b: Seq<u8>, q: int, c: ColumnModel, types: Map<i32, IcebergType>)
    requires
        bytes::stands_at(b, q, column_bytes(c, types)),
    ensures
        ({
            let ty = column_type(c, types);
            let n = typed_bytes(c.min, ty).len() as int;
            let m = typed_bytes(c.max, ty).len() as int;
            &&& bytes::spells_at(b, q, 4, c.field_id as int)
            &&& bytes::spells_at(b, q + 4, 8, c.null_count as int)
            &&& bytes::spells_at(b, q + 12, 8, c.value_count as int)
            &&& bytes::spells_at(b, q + 20, 4, n)
            &&& bytes::stands_at(b, q + 24, typed_bytes(c.min, ty))
            &&& bytes::spells_at(b, q + 24 + n, 4, m)
            &&& bytes::stands_at(b, q + 28 + n, typed_bytes(c.max, ty))
        }),
{
    let ty = column_type(c, types);
    let lo = typed_bytes(c.min, ty);
    let hi = typed_bytes(c.max, ty);
    let s1 = bytes::le_bytes(c.field_id as int, 4);
    let s2 = bytes::le_bytes(c.null_count as int, 8);
    let s3 = bytes::le_bytes(c.value_count as int, 8);
    let n = bytes::le_bytes(lo.len() as int, 4);
    let m = bytes::le_bytes(hi.len() as int, 4);
    bytes::lemma_le_bytes_len(c.field_id as int, 4);
    bytes::lemma_le_bytes_len(c.null_count as int, 8);
    bytes::lemma_le_bytes_len(c.value_count as int, 8);
    bytes::lemma_le_bytes_len(lo.len() as int, 4);
    bytes::lemma_le_bytes_len(hi.len() as int, 4);
    bytes::lemma_stands_split(b, q, s1 + s2 + s3 + (n + lo), m + hi);
    bytes::lemma_stands_split(b, q, s1 + s2 + s3, n + lo);
    bytes::lemma_stands_split(b, q, s1 + s2, s3);
    bytes::lemma_stands_split(b, q, s1, s2);
    bytes::lemma_stands_split(b, q + 20, n, lo);
    bytes::lemma_stands_split(b, q + 24 + lo.len(), m, hi);
    bytes::lemma_stands_spells(b, q, c.field_id as int, 4);
    bytes::lemma_stands_spells(b, q + 4, c.null_count as int, 8);
    bytes::lemma_stands_spells(b, q + 12, c.value_count as int, 8);
    bytes::lemma_stands_spells(b, q + 20, lo.len() as int, 4);
    bytes::lemma_stands_spells(b, q + 24 + lo.len(), hi.len() as int, 4);
}

/// How a stored bound is read. Without four bytes of length it is truncated. A length of 0 is
/// `Null`; any other needs a type, then the bytes, and then as many of them as the type takes.
pub proof fn law_bounds_are_read_by_length(
    b: Seq<u8>,
    p: int,
    n: u32,
    ty: Option<IcebergType>,
    field_id: i32,
)
    requires
        0 <= p,
    ensures
        p + 4 > b.len() ==> parse_bound(b, p, ty, field_id) == Err::<(Datum, int), ZoneMapError>(
            ZoneMapError::Truncated,
        ),
        bytes::spells_at(b, p, 4, n as int) ==> parse_bound(b, p, ty, field_id) == (if n == 0 {
            Ok::<(Datum, int), ZoneMapError>((Datum::Null, p + 4))
        } else if ty is None {
            Err(ZoneMapError::MissingType(field_id))
        } else if p + 4 + n > b.len() || read_typed(
            b.subrange(p + 4, p + 4 + n),
            ty->0,
        ) is None {
            Err(ZoneMapError::Truncated)
        } else {
            Ok((read_typed(b.subrange(p + 4, p + 4 + n), ty->0)->0, p + 4 + n))
        }),
{
    if bytes::spells_at(b, p, 4, n as int) {
        bytes::lemma_read_spelled(b, p, 4, n as int);
    }
}

/// A column that is read has the numbers that stand there, its two bounds behind them.
pub proof fn law_columns_are_read_where_they_stand(
    b: Seq<u8>,
    p: int,
    types: Map<i32, IcebergType>,
    c: ColumnModel,
    end: int,
)
    requires
        0 <= p,
        parse_column(b, p, types) == Ok::<(ColumnModel, int), ZoneMapError>((c, end)),
    ensures
        bytes::spells_at(b, p, 4, c.field_id as int),
        bytes::spells_at(b, p + 4, 8, c.null_count as int),
        bytes::spells_at(b, p + 12, 8, c.value_count as int),
        exists|q: int|
            p + 24 <= q <= end && #[trigger] parse_bound(
                b,
                p + 20,
                type_of(types, c.field_id),
                c.field_id,
            ) == Ok::<(Datum, int), ZoneMapError>((c.min, q)) && parse_bound(
                b,
                q,
                type_of(types, c.field_id),
                c.field_id,
            ) == Ok::<(Datum, int), ZoneMapError>((c.max, end)),
{
    lemma_numbers_fit(b, p, 4);
    lemma_numbers_fit(b, p + 4, 8);
    lemma_numbers_fit(b, p + 12, 8);
    let ty = type_of(types, c.field_id);
    let (lo, q) = parse_bound(b, p + 20, ty, c.field_id)->Ok_0;
    bytes::lemma_le_unsigned_bound(b.subrange(p + 20, p + 24));
    bytes::lemma_le_unsigned_bound(b.subrange(q, q + 4));
    assert(parse_bound(b, p + 20, ty, c.field_id) == Ok::<(Datum, int), ZoneMapError>((c.min, q)));
}

/// A zone that is read has the numbers that stand there, and as many columns behind them as it
/// says.
pub proof fn law_zones_are_read_where_they_stand(
    b: Seq<u8>,
    p: int,
    types: Map<i32, IcebergType>,
    z: ZoneModel,
    end: int,
)
    requires
        0 <= p,
        parse_zone(b, p, types) == Ok::<(ZoneModel, int), ZoneMapError>((z, end)),
    ensures
        bytes::spells_at(b, p, 4, z.zone_id as int),
        bytes::spells_at(b, p + 4, 8, z.row_offset as int),
        bytes::spells_at(b, p + 12, 8, z.row_count as int),
        bytes::spells_at(b, p + 20, 4, z.columns.len() as int),
        parse_columns(b, p + 24, types, z.columns.len()) == Ok::<
            (Seq<ColumnModel>, int),
            ZoneMapError,
        >((z.columns, end)),
{
    lemma_numbers_fit(b, p, 4);
    lemma_numbers_fit(b, p + 4, 8);
    lemma_numbers_fit(b, p + 12, 8);
    lemma_numbers_fit(b, p + 20, 4);
    let n = bytes::le_unsigned(b.subrange(p + 20, p + 24)) as nat;
    bytes::lemma_le_unsigned_bound(b.subrange(p + 20, p + 24));
    law_columns_are_read_in_turn(b, p + 24, types, n);
}

/// A number that is read from four or eight bytes has them as its digits and fits.
proof fn lemma_numbers_fit(b: Seq<u8>, p: int, n: int)
    requires
        0 <= p,
        n == 4 || n == 8,
        p + n <= b.len(),
    ensures
        bytes::spells_at(b, p, n, bytes::le_unsigned(b.subrange(p, p + n))),
        bytes::spells_at(b, p, n, bytes::le_signed(b.subrange(p, p + n))),
        n == 4 ==> 0 <= bytes::le_unsigned(b.subrange(p, p + n)) <= u32::MAX,
        n == 8 ==> 0 <= bytes::le_unsigned(b.subrange(p, p + n)) <= u64::MAX,
        n == 4 ==> i32::MIN <= bytes::le_signed(b.subrange(p, p + n)) <= i32::MAX,
{
    let s = b.subrange(p, p + n);
    bytes::lemma_pow256_values();
    reveal_with_fuel(bytes::pow256, 4);
    bytes::law_le_unsigned_has_the_digits(s);
    bytes::law_le_signed_has_the_digits(s);
    bytes::lemma_le_unsigned_bound(s);
    bytes::lemma_le_signed_unsigned(s);
    assert forall|j: int| 0 <= j < n implies #[trigger] b[p + j] as int == bytes::digit_256(
        bytes::le_unsigned(s),
        j,
    ) && b[p + j] as int == bytes::digit_256(bytes::le_signed(s), j) by {
        assert(s[j] == b[p + j]);
    }
}

/// Columns are read one behind the other, as many as asked for; the first that cannot be read
/// ends it with its error.
pub proof fn law_columns_are_read_in_turn(
    b: Seq<u8>,
    p: int,
    types: Map<i32, IcebergType>,
    n: nat,
)
    ensures
        parse_columns(b, p, types, 0) == Ok::<(Seq<ColumnModel>, int), ZoneMapError>(
            (Seq::empty(), p),
        ),
        parse_columns(b, p, types, n) matches Ok((cs, _)) ==> cs.len() == n,
        n > 0 ==> match parse_column(b, p, types) {
            Err(e) => parse_columns(b, p, types, n) == Err::<
                (Seq<ColumnModel>, int),
                ZoneMapError,
            >(e),
            Ok((c, q)) => match parse_columns(b, q, types, (n - 1) as nat) {
                Err(e) => parse_columns(b, p, types, n) == Err::<
                    (Seq<ColumnModel>, int),
                    ZoneMapError,
                >(e),
                Ok((rest, end)) => parse_columns(b, p, types, n) == Ok::<
                    (Seq<ColumnModel>, int),
                    ZoneMapError,
                >((seq![c] + rest, end)),
            },
        },
    decreases n,
{
    if n > 0 {
        match parse_column(b, p, types) {
            Ok((c, q)) => {
                law_columns_are_read_in_turn(b, q, types, (n - 1) as nat);
            },
            Err(_) => {},
        }
    }
}

/// Only version 1 is read: another first byte is that version refused, and nothing at all is
/// truncated.
pub proof fn law_only_version_one_is_read(b: Seq<u8>, types: Map<i32, IcebergType>, v: u8)
    ensures
        b.len() == 0 ==> parse_zone_map(b, types) == Err::<Seq<ZoneModel>, ZoneMapError>(
            ZoneMapError::Truncated,
        ),
        parse_zone_map(b, types) is Ok ==> b.len() >= 5 && b[0] == 1,
        b.len() > 0 && b[0] == v && v != 1 ==> parse_zone_map(b, types) == Err::<
            Seq<ZoneModel>,
            ZoneMapError,
        >(ZoneMapError::BadVersion(v)),
        parse_zone_map(b, types) == Err::<Seq<ZoneModel>, ZoneMapError>(
            ZoneMapError::BadVersion(v),
        ) ==> b.len() > 0 && b[0] == v && v != 1,
{
    if b.len() >= 5 {
        lemma_zones_version(b, 5, types, bytes::le_unsigned(b.subrange(1, 5)) as nat, v);
    }
}

proof fn lemma_columns_version(
    b: Seq<u8>,
    p: int,
    types: Map<i32, IcebergType>,
    n: nat,
    v: u8,
)
    ensures
        parse_columns(b, p, types, n) != Err::<(Seq<ColumnModel>, int), ZoneMapError>(
            ZoneMapError::BadVersion(v),
        ),
    decreases n,
{
    if n > 0 {
        match parse_column(b, p, types) {
            Ok((c, q)) => {
                lemma_columns_version(b, q, types, (n - 1) as nat, v);
            },
            Err(_) => {},
        }
    }
}

proof fn lemma_zones_version(b: Seq<u8>, p: int, types: Map<i32, IcebergType>, n: nat, v: u8)
    ensures
        parse_zones(b, p, types, n) != Err::<(Seq<ZoneModel>, int), ZoneMapError>(
            ZoneMapError::BadVersion(v),
        ),
    decreases n,
{
    if n > 0 {
        if p + 24 <= b.len() {
            let m = bytes::le_unsigned(b.subrange(p + 20, p + 24)) as nat;
            lemma_columns_version(b, p + 24, types, m, v);
        }
        match parse_zone(b, p, types) {
            Ok((z, q)) => {
                lemma_zones_version(b, q, types, (n - 1) as nat, v);
            },
            Err(_) => {},
        }
    }
}

/// The zones that are read are as many as the count says, each behind the one before.
pub proof fn law_zones_are_read_in_turn(
    b: Seq<u8>,
    p: int,
    types: Map<i32, IcebergType>,
    n: nat,
)
    ensures
        parse_zones(b, p, types, n) matches Ok((zs, _)) ==> zs.len() == n,
        n > 0 ==> match parse_zone(b, p, types) {
            Err(e) => parse_zones(b, p, types, n) == Err::<(Seq<ZoneModel>, int), ZoneMapError>(
                e,
            ),
            Ok((z, q)) => match parse_zones(b, q, types, (n - 1) as nat) {
                Err(e) => parse_zones(b, p, types, n) == Err::<
                    (Seq<ZoneModel>, int),
                    ZoneMapError,
                >(e),
                Ok((rest, end)) => parse_zones(b, p, types, n) == Ok::<
                    (Seq<ZoneModel>, int),
                    ZoneMapError,
                >((seq![z] + rest, end)),
            },
        },
    decreases n,
{
    if n > 0 {
        match parse_zone(b, p, types) {
            Ok((z, q)) => {
                law_zones_are_read_in_turn(b, q, types, (n - 1) as nat);
            },
            Err(_) => {},
        }
    }
}

/// A zone map that is read has as many zones as its count says, from the fifth byte on.
pub proof fn law_zone_maps_are_read_by_count(b: Seq<u8>, types: Map<i32, IcebergType>, n: u32)
    requires
        b.len() >= 5,
        b[0] == 1,
        bytes::spells_at(b, 1, 4, n as int),
    ensures
        match parse_zones(b, 5, types, n as nat) {
            Ok((zs, _)) => zs.len() == n && parse_zone_map(b, types) == Ok::<
                Seq<ZoneModel>,
                ZoneMapError,
            >(zs),
            Err(e) => parse_zone_map(b, types) == Err::<Seq<ZoneModel>, ZoneMapError>(e),
        },
{
    bytes::lemma_read_spelled(b, 1, 4, n as int);
    law_zones_are_read_in_turn(b, 5, types, n as nat);
}

/// An error names what was found: the version that was read, or the field without a type, in
/// decimal and with its sign.
pub proof fn law_errors_name_what_was_found(v: u8, id: i32)
    ensures
        text::names(
            error_words(ZoneMapError::BadVersion(v)),
            "unsupported zone-map version "@,
            text::decimal(v as nat),
            " (this build understands 1)"@,
        ),
        text::names(
            error_words(ZoneMapError::MissingType(id)),
            "no type in the schema for field id "@,
            text::signed_decimal(id as int),
            " (needed to decode its bound)"@,
        ),
        error_words(ZoneMapError::Truncated) == "truncated zone-map payload"@,
{
    text::lemma_names(
        "unsupported zone-map version "@,
        text::decimal(v as nat),
        " (this build understands 1)"@,
    );
    text::lemma_names(
        "no type in the schema for field id "@,
        text::signed_decimal(id as int),
        " (needed to decode its bound)"@,
    );
}

/// A column is read if and only if its twenty bytes are there and both its bounds are read;
/// otherwise the first thing that fails gives the error.
pub proof fn law_columns_fail_with_their_bounds(
    b: Seq<u8>,
    p: int,
    types: Map<i32, IcebergType>,
    id: i32,
)
    requires
        0 <= p,
        p + 4 <= b.len() ==> bytes::spells_at(b, p, 4, id as int),
    ensures
        p + 20 > b.len() ==> parse_column(b, p, types) == Err::<(ColumnModel, int), ZoneMapError>(
            ZoneMapError::Truncated,
        ),
        p + 20 <= b.len() ==> match parse_bound(b, p + 20, type_of(types, id), id) {
            Err(e) => parse_column(b, p, types) == Err::<(ColumnModel, int), ZoneMapError>(e),
            Ok((lo, q)) => match parse_bound(b, q, type_of(types, id), id) {
                Err(e) => parse_column(b, p, types) == Err::<(ColumnModel, int), ZoneMapError>(e),
                Ok((hi, end)) => parse_column(b, p, types) matches Ok((c, at)) && c.field_id == id
                    && c.min == lo && c.max == hi && at == end,
            },
        },
        types.contains_key(id) ==> type_of(types, id) == Some(types[id]),
        !types.contains_key(id) ==> type_of(types, id) is None,
{
    if p + 4 <= b.len() {
        bytes::lemma_read_signed_spelled(b, p, id);
    }
}

/// A zone is read if and only if its twenty-four bytes are there and all its columns are read;
/// otherwise the first thing that fails gives the error.
pub proof fn law_zones_fail_with_their_columns(
    b: Seq<u8>,
    p: int,
    types: Map<i32, IcebergType>,
    n: u32,
)
    requires
        0 <= p,
        p + 24 <= b.len() ==> bytes::spells_at(b, p + 20, 4, n as int),
    ensures
        p + 24 > b.len() ==> parse_zone(b, p, types) == Err::<(ZoneModel, int), ZoneMapError>(
            ZoneMapError::Truncated,
        ),
        p + 24 <= b.len() ==> match parse_columns(b, p + 24, types, n as nat) {
            Err(e) => parse_zone(b, p, types) == Err::<(ZoneModel, int), ZoneMapError>(e),
            Ok((cs, end)) => parse_zone(b, p, types) matches Ok((z, at)) && z.columns == cs && at
                == end,
        },
{
    if p + 24 <= b.len() {
        bytes::lemma_read_spelled(b, p + 20, 4, n as int);
    }
}

/// Decoding undoes encoding, for every zone map whose bounds the types hold.
pub proof fn law_encoded_zone_maps_decode(
    zm: ZoneMap,
    types: ColumnTypes,
    encoded: Vec<u8>,
    read: &[u8],
    r: Result<ZoneMap, ZoneMapError>,
)
    requires
        storable(zm@, types@),
        call_ensures(ZoneMap::encode, (&zm, &types), encoded),
        read@ == encoded@,
        call_ensures(ZoneMap::decode, (read, &types), r),
    ensures
        r matches Ok(out) && out@ == zm@,
{
    law_zone_map_round_trip(zm@, types@, Seq::empty());
}

/// A string bound is the whole string: its bytes decode to it, and it sorts as the string does.
pub proof fn law_string_values_are_the_string(s: &str, t: &str, v: Value, w: Value)
    requires
        call_ensures(Value::str, (s,), v),
        call_ensures(Value::str, (t,), w),
    ensures
        v@ matches Datum::Bytes(b) && vstd::utf8::valid_utf8(b) && vstd::utf8::decode_utf8(b) == s@,
        v@ == w@ <==> s@ == t@,
{
    vstd::utf8::encode_utf8_valid_utf8(s@);
    vstd::utf8::encode_utf8_decode_utf8(s@);
    vstd::utf8::encode_utf8_decode_utf8(t@);
}

/// What a model says of stats is what they hold.
pub proof fn law_models_mirror_the_stats(c: ColumnStats, z: ZoneStats, zm: ZoneMap, i: int)
    ensures
        c@.field_id == c.field_id,
        c@.min == c.min@,
        c@.max == c.max@,
        c@.null_count == c.null_count,
        c@.value_count == c.value_count,
        z@.zone_id == z.zone_id,
        z@.row_offset == z.row_offset,
        z@.row_count == z.row_count,
        z@.columns.len() == z.columns@.len(),
        0 <= i < z.columns@.len() ==> z@.columns[i] == z.columns@[i]@,
        zm@.len() == zm.zones@.len(),
        0 <= i < zm.zones@.len() ==> zm@[i] == zm.zones@[i]@,
        VERSION == 1,
        ZONEMAP_BLOB_TYPE@ == "karma-zonemap-v1"@,
{
}

} // verus!
