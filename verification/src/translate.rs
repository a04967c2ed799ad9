//! Query filters as index predicates.
//!
//! Every table provider prunes with the *same* logic: it translates filters into
//! [`Predicate`]s and IN-lists here, so no two providers drift in what they skip.
//!
//! Translation is deliberately lossy-safe: what cannot be turned into a prunable
//! constraint is dropped, and the engine re-applies the real filter on the surviving
//! rows. A literal that the units of an index cannot hold exactly is rounded and its
//! bound loosened with it; a float zero asks for either zero. A translation gap can only make a scan read *more*.
use crate::bloom;
use crate::bloom::EntryModel;
use crate::bloom::ZoneBlooms;
use crate::float;
use crate::prune;
use crate::prune::Order;
use crate::prune::Predicate;
use crate::prune::PredicateModel;
use crate::zonemap;
use crate::zonemap::Datum;
use crate::zonemap::Value;
use crate::zonemap::ZoneMap;
use crate::zonemap::ZoneModel;
use std::collections::HashSet;
use vstd::hash_map::StringHashMap;
use vstd::prelude::*;

verus! {

broadcast use vstd::std_specs::hash::group_hash_axioms;

/// Column name (how a query refers to a column) to Iceberg field id (how an index does).
pub struct FieldIds {
    ids: StringHashMap<i32>,
}

impl View for FieldIds {
    type V = Map<Seq<char>, i32>;

    closed spec fn view(&self) -> Map<Seq<char>, i32> {
        self.ids@
    }
}

impl FieldIds {
    pub fn new() -> (r: FieldIds)
        ensures
            r@ == Map::<Seq<char>, i32>::empty(),
    {
        FieldIds { ids: StringHashMap::new() }
    }

    /// Record a column's field id; the last one recorded for a name counts.
    pub fn insert(&mut self, name: String, id: i32)
        ensures
            final(self)@ == old(self)@.insert(name@, id),
    {
        self.ids.insert(name, id);
    }

    pub fn get(&self, name: &str) -> (r: Option<i32>)
        ensures
            r == (if self@.contains_key(name@) {
                Some(self@[name@])
            } else {
                None
            }),
    {
        match self.ids.get(name) {
            Some(id) => Some(*id),
            None => None,
        }
    }
}

/// A literal of a query, as far as an index can use it. A timestamp's time zone plays no part.
#[derive(Clone, Debug)]
pub enum ScalarValue {
    Int64(Option<i64>),
    Int32(Option<i32>),
    /// By its bit pattern.
    Float64(Option<u64>),
    /// By its bit pattern.
    Float32(Option<u32>),
    Utf8(Option<String>),
    LargeUtf8(Option<String>),
    Boolean(Option<bool>),
    /// Unscaled value, precision, scale.
    Decimal128(Option<i128>, u8, i8),
    /// Days since 1970-01-01.
    Date32(Option<i32>),
    /// Milliseconds since 1970-01-01.
    Date64(Option<i64>),
    TimestampSecond(Option<i64>),
    TimestampMillisecond(Option<i64>),
    TimestampMicrosecond(Option<i64>),
    TimestampNanosecond(Option<i64>),
    Time32Second(Option<i32>),
    Time32Millisecond(Option<i32>),
    Time64Microsecond(Option<i64>),
    Time64Nanosecond(Option<i64>),
    /// A literal of any other type.
    Other,
}

/// A binary operator of a query.
#[derive(Clone, Copy, Debug, PartialEq, Eq, Structural)]
pub enum Operator {
    Eq,
    NotEq,
    Lt,
    LtEq,
    Gt,
    GtEq,
    And,
    /// Any other operator.
    Other,
}

/// A filter expression, as far as an index can use it.
#[derive(Debug)]
pub enum Expr {
    /// A column, by its unqualified name.
    Column(String),
    Literal(ScalarValue),
    BinaryExpr { left: Box<Expr>, op: Operator, right: Box<Expr> },
    InList { expr: Box<Expr>, list: Vec<Expr>, negated: bool },
    /// An expression of any other kind.
    Other,
}

/// What a provider answers for a pushed-down filter: it prunes by it and leaves the rows to be
/// re-checked, or it cannot use it.
#[derive(Clone, Copy, Debug, PartialEq, Eq, Structural)]
pub enum FilterPushDown {
    Inexact,
    Unsupported,
}

/// Division that rounds toward zero.
pub open spec fn toward_zero(a: int, b: int) -> int {
    if a >= 0 {
        a / b
    } else {
        -((-a) / b)
    }
}

/// The low 32 bits of a number, in two's complement.
pub open spec fn low_32(a: int) -> int {
    (a + 0x8000_0000) % 0x1_0000_0000 - 0x8000_0000
}

/// `a * b` where it fits in 64 bits.
pub open spec fn fit_product(a: int, b: int) -> Option<i64> {
    if i64::MIN <= a * b <= i64::MAX {
        Some((a * b) as i64)
    } else {
        None
    }
}

/// The datum of a literal in the units of an index (`Date` in days, `Time` and `Timestamp` in
/// microseconds); none for a null, for a literal of another type, or where the unit conversion
/// does not fit.
pub open spec fn literal_datum(s: ScalarValue) -> Option<Datum> {
    match s {
        ScalarValue::Int64(Some(v)) => Some(Datum::I64(v)),
        ScalarValue::Int32(Some(v)) => Some(Datum::I64(v as i64)),
        ScalarValue::Float64(Some(v)) => Some(Datum::F64(v)),
        ScalarValue::Float32(Some(v)) => Some(Datum::F64(float::widen(v) as u64)),
        ScalarValue::Utf8(Some(v)) => Some(Datum::Bytes(vstd::utf8::encode_utf8(v@))),
        ScalarValue::LargeUtf8(Some(v)) => Some(Datum::Bytes(vstd::utf8::encode_utf8(v@))),
        ScalarValue::Boolean(Some(v)) => Some(Datum::Bool(v)),
        ScalarValue::Decimal128(Some(v), _, scale) => Some(
            Datum::Decimal { unscaled: v, scale: scale as i32 },
        ),
        ScalarValue::Date32(Some(d)) => Some(Datum::Date(d)),
        ScalarValue::Date64(Some(ms)) => Some(
            Datum::Date(low_32(toward_zero(ms as int, 86_400_000)) as i32),
        ),
        ScalarValue::TimestampSecond(Some(t)) => match fit_product(t as int, 1_000_000) {
            Some(v) => Some(Datum::Timestamp(v)),
            None => None,
        },
        ScalarValue::TimestampMillisecond(Some(t)) => match fit_product(t as int, 1_000) {
            Some(v) => Some(Datum::Timestamp(v)),
            None => None,
        },
        ScalarValue::TimestampMicrosecond(Some(t)) => Some(Datum::Timestamp(t)),
        ScalarValue::TimestampNanosecond(Some(t)) => Some(
            Datum::Timestamp((t as int / 1_000) as i64),
        ),
        ScalarValue::Time32Second(Some(t)) => Some(Datum::Time((t * 1_000_000) as i64)),
        ScalarValue::Time32Millisecond(Some(t)) => Some(Datum::Time((t * 1_000) as i64)),
        ScalarValue::Time64Microsecond(Some(t)) => Some(Datum::Time(t)),
        ScalarValue::Time64Nanosecond(Some(t)) => Some(Datum::Time((t as int / 1_000) as i64)),
        _ => None,
    }
}

fn thousandth(t: i64) -> (r: i64)
    ensures
        r == t as int / 1_000,
{
    if t >= 0 {
        t / 1_000
    } else {
        -((-(t + 1)) / 1_000) - 1
    }
}

fn days_of_millis(ms: i64) -> (r: i32)
    ensures
        r == low_32(toward_zero(ms as int, 86_400_000)),
{
    let days: i128 = if ms >= 0 {
        ms as i128 / 86_400_000
    } else {
        -((-(ms as i128)) / 86_400_000)
    };
    let shifted: i128 = days + 0x8000_0000;
    let low: i128 = if shifted >= 0 {
        shifted % 0x1_0000_0000
    } else {
        0xffff_ffff - (-(shifted + 1)) % 0x1_0000_0000
    };
    (low - 0x8000_0000) as i32
}

/// Translate a literal into an index [`Value`].
///
/// Decimals keep their unscaled integer and scale (never widen to a float), and temporals
/// normalize to the zone map's units (`Date` = days, `Time`/`Timestamp` = microseconds). A unit
/// conversion that would overflow yields `None`: the predicate is dropped.
pub fn scalar_to_value(s: &ScalarValue) -> (r: Option<Value>)
    ensures
        match r {
            Some(v) => literal_datum(*s) == Some(v@),
            None => literal_datum(*s) is None,
        },
{
    match s {
        ScalarValue::Int64(Some(v)) => Some(Value::I64(*v)),
        ScalarValue::Int32(Some(v)) => Some(Value::I64(*v as i64)),
        ScalarValue::Float64(Some(v)) => Some(Value::F64(*v)),
        ScalarValue::Float32(Some(v)) => Some(Value::F64(float::f32_to_f64(*v))),
        ScalarValue::Utf8(Some(v)) => Some(Value::str(v.as_str())),
        ScalarValue::LargeUtf8(Some(v)) => Some(Value::str(v.as_str())),
        ScalarValue::Boolean(Some(v)) => Some(Value::Bool(*v)),
        ScalarValue::Decimal128(Some(v), _, scale) => Some(
            Value::Decimal { unscaled: *v, scale: *scale as i32 },
        ),
        ScalarValue::Date32(Some(d)) => Some(Value::Date(*d)),
        ScalarValue::Date64(Some(ms)) => Some(Value::Date(days_of_millis(*ms))),
        ScalarValue::TimestampSecond(Some(t)) => match t.checked_mul(1_000_000) {
            Some(v) => Some(Value::Timestamp(v)),
            None => None,
        },
        ScalarValue::TimestampMillisecond(Some(t)) => match t.checked_mul(1_000) {
            Some(v) => Some(Value::Timestamp(v)),
            None => None,
        },
        ScalarValue::TimestampMicrosecond(Some(t)) => Some(Value::Timestamp(*t)),
        ScalarValue::TimestampNanosecond(Some(t)) => Some(Value::Timestamp(thousandth(*t))),
        ScalarValue::Time32Second(Some(t)) => Some(Value::Time(*t as i64 * 1_000_000)),
        ScalarValue::Time32Millisecond(Some(t)) => Some(Value::Time(*t as i64 * 1_000)),
        ScalarValue::Time64Microsecond(Some(t)) => Some(Value::Time(*t)),
        ScalarValue::Time64Nanosecond(Some(t)) => Some(Value::Time(thousandth(*t))),
        _ => None,
    }
}

/// The operator with its sides exchanged.
pub open spec fn flipped(op: Operator) -> Operator {
    match op {
        Operator::Lt => Operator::Gt,
        Operator::LtEq => Operator::GtEq,
        Operator::Gt => Operator::Lt,
        Operator::GtEq => Operator::LtEq,
        other => other,
    }
}

/// Flipping an operator twice gives it back.
pub proof fn law_flip_is_an_involution(op: Operator)
    ensures
        flipped(flipped(op)) == op,
{
}

pub fn flip_op(op: Operator) -> (r: Operator)
    ensures
        r == flipped(op),
{
    match op {
        Operator::Lt => Operator::Gt,
        Operator::LtEq => Operator::GtEq,
        Operator::Gt => Operator::Lt,
        Operator::GtEq => Operator::LtEq,
        other => other,
    }
}

/// The predicate of `column <op> value`; none where an index cannot prune.
pub open spec fn predicate_of(field_id: i32, op: Operator, d: Datum) -> Option<PredicateModel> {
    match op {
        Operator::Eq => Some(PredicateModel::Eq(field_id, d)),
        Operator::Lt => Some(PredicateModel::Lt(field_id, d)),
        Operator::LtEq => Some(PredicateModel::LtEq(field_id, d)),
        Operator::Gt => Some(PredicateModel::Gt(field_id, d)),
        Operator::GtEq => Some(PredicateModel::GtEq(field_id, d)),
        _ => None,
    }
}

pub fn make_predicate(field_id: i32, op: Operator, v: Value) -> (r: Option<Predicate>)
    ensures
        match r {
            Some(p) => predicate_of(field_id, op, v@) == Some(p@),
            None => predicate_of(field_id, op, v@) is None,
        },
{
    match op {
        Operator::Eq => Some(Predicate::Eq(field_id, v)),
        Operator::Lt => Some(Predicate::Lt(field_id, v)),
        Operator::LtEq => Some(Predicate::LtEq(field_id, v)),
        Operator::Gt => Some(Predicate::Gt(field_id, v)),
        Operator::GtEq => Some(Predicate::GtEq(field_id, v)),
        _ => None,
    }
}

/// Whether the units of an index reach as far as a literal: a date in milliseconds may lie beyond
/// 32 bits of days.
pub open spec fn in_reach(s: ScalarValue) -> bool {
    match s {
        ScalarValue::Date64(Some(ms)) => i32::MIN <= toward_zero(ms as int, 86_400_000) <= i32::MAX,
        _ => true,
    }
}

/// The datum of a literal that an index can prune by.
pub open spec fn index_datum(s: ScalarValue) -> Option<Datum> {
    if in_reach(s) {
        literal_datum(s)
    } else {
        None
    }
}

/// The value of a literal that an index can prune by.
fn index_value(s: &ScalarValue) -> (r: Option<Value>)
    ensures
        match r {
            Some(v) => index_datum(*s) == Some(v@),
            None => index_datum(*s) is None,
        },
{
    if let ScalarValue::Date64(Some(ms)) = s {
        let days: i64 = *ms / 86_400_000;
        proof {
            assert(days == toward_zero(*ms as int, 86_400_000));
        }
        if days < i32::MIN as i64 || days > i32::MAX as i64 {
            return None;
        }
    }
    scalar_to_value(s)
}

/// The operator that holds of the rounded literal wherever `op` holds of the literal itself. A
/// literal that is no whole number of units is rounded down, or toward zero for a date in
/// milliseconds: a strict bound on the side it moved away from takes in the rounded value.
pub open spec fn loosened(op: Operator, s: ScalarValue) -> Operator {
    match (op, s) {
        (Operator::Lt, ScalarValue::TimestampNanosecond(Some(t))) => if t as int % 1_000 == 0 {
            Operator::Lt
        } else {
            Operator::LtEq
        },
        (Operator::Lt, ScalarValue::Time64Nanosecond(Some(t))) => if t as int % 1_000 == 0 {
            Operator::Lt
        } else {
            Operator::LtEq
        },
        (Operator::Lt, ScalarValue::Date64(Some(ms))) => if ms <= 0 || ms as int % 86_400_000 == 0 {
            Operator::Lt
        } else {
            Operator::LtEq
        },
        (Operator::Gt, ScalarValue::Date64(Some(ms))) => if ms >= 0 || ms as int % 86_400_000 == 0 {
            Operator::Gt
        } else {
            Operator::GtEq
        },
        _ => op,
    }
}

fn loosen(op: Operator, s: &ScalarValue) -> (r: Operator)
    ensures
        r == loosened(op, *s),
{
    match (op, s) {
        (Operator::Lt, ScalarValue::TimestampNanosecond(Some(t))) => if thousandth(*t) as i128
            * 1_000 == *t as i128 {
            Operator::Lt
        } else {
            Operator::LtEq
        },
        (Operator::Lt, ScalarValue::Time64Nanosecond(Some(t))) => if thousandth(*t) as i128 * 1_000
            == *t as i128 {
            Operator::Lt
        } else {
            Operator::LtEq
        },
        (Operator::Lt, ScalarValue::Date64(Some(ms))) => if *ms <= 0 || *ms % 86_400_000 == 0 {
            Operator::Lt
        } else {
            Operator::LtEq
        },
        (Operator::Gt, ScalarValue::Date64(Some(ms))) => if *ms >= 0 || -(*ms as i128) % 86_400_000
            == 0 {
            Operator::Gt
        } else {
            Operator::GtEq
        },
        _ => op,
    }
}

/// `column <op> literal`, whichever side the column stands on (`5 < x` is `x > 5`).
pub open spec fn normalized(left: Expr, op: Operator, right: Expr) -> Option<
    (Seq<char>, Operator, ScalarValue),
> {
    match (left, right) {
        (Expr::Column(c), Expr::Literal(s)) => Some((c@, op, s)),
        (Expr::Literal(s), Expr::Column(c)) => Some((c@, flipped(op), s)),
        _ => None,
    }
}

/// Whether a datum is a float zero, of either sign.
pub open spec fn is_zero(d: Datum) -> bool {
    d == Datum::F64(0) || d == Datum::F64(0x8000_0000_0000_0000)
}

/// The two zeros of a float: equal numbers, which a filter tells apart.
pub open spec fn zeros() -> Seq<Datum> {
    seq![Datum::F64(0), Datum::F64(0x8000_0000_0000_0000)]
}

/// Data to ask for, completed: with a float zero among them, both zeros.
pub open spec fn with_zeros(ds: Seq<Datum>) -> Seq<Datum> {
    if exists|i: int| 0 <= i < ds.len() && is_zero(#[trigger] ds[i]) {
        ds + zeros()
    } else {
        ds
    }
}

fn is_zero_value(v: &Value) -> (r: bool)
    ensures
        r == is_zero(v@),
{
    match v {
        Value::F64(b) => *b == 0 || *b == 0x8000_0000_0000_0000,
        _ => false,
    }
}

/// Complete values to ask for.
fn complete(values: &mut Vec<Value>)
    ensures
        zonemap::data(final(values)@) == with_zeros(zonemap::data(old(values)@)),
{
    let ghost ds = zonemap::data(values@);
    let mut found: bool = false;
    let mut i: usize = 0;
    while i < values.len()
        invariant
            i <= values@.len(),
            ds == zonemap::data(values@),
            *values == *old(values),
            found <==> exists|k: int| 0 <= k < i && is_zero(#[trigger] ds[k]),
        decreases values@.len() - i,
    {
        proof {
            assert(ds[i as int] == values@[i as int]@);
        }
        if is_zero_value(&values[i]) {
            found = true;
        }
        i = i + 1;
    }
    if found {
        values.push(Value::F64(0));
        values.push(Value::F64(0x8000_0000_0000_0000));
        proof {
            assert(zonemap::data(values@) =~= ds + zeros());
        }
    }
}

/// The list of `column = 0.0`: either zero. Other comparisons are predicates.
pub open spec fn zero_list(
    ids: Map<Seq<char>, i32>,
    left: Expr,
    op: Operator,
    right: Expr,
) -> Option<(i32, Seq<Datum>)> {
    match normalized(left, op, right) {
        Some((column, Operator::Eq, s)) => match index_datum(s) {
            Some(d) => if ids.contains_key(column) && is_zero(d) {
                Some((ids[column], zeros()))
            } else {
                None
            },
            None => None,
        },
        _ => None,
    }
}

/// The predicate of a comparison, if an index can prune by it.
pub open spec fn comparison(
    ids: Map<Seq<char>, i32>,
    left: Expr,
    op: Operator,
    right: Expr,
) -> Option<PredicateModel> {
    match normalized(left, op, right) {
        Some((column, op, s)) => if ids.contains_key(column) && index_datum(s) is Some && !(op is Eq
            && is_zero(index_datum(s)->0)) {
            predicate_of(ids[column], loosened(op, s), index_datum(s)->0)
        } else {
            None
        },
        None => None,
    }
}

/// The comparisons of a filter that an index can prune by, those of an `AND` from both sides.
pub open spec fn predicates_of(ids: Map<Seq<char>, i32>, e: Expr) -> Seq<PredicateModel>
    decreases e,
{
    match e {
        Expr::BinaryExpr { left, op, right } => if op is And {
            predicates_of(ids, *left) + predicates_of(ids, *right)
        } else {
            match comparison(ids, *left, op, *right) {
                Some(p) => seq![p],
                None => Seq::empty(),
            }
        },
        _ => Seq::empty(),
    }
}

/// The data of a list whose items from `i` on are all translatable literals.
pub open spec fn list_data(list: Seq<Expr>, i: int) -> Option<Seq<Datum>>
    decreases list.len() - i,
{
    if 0 <= i < list.len() {
        match (list[i], list_data(list, i + 1)) {
            (Expr::Literal(s), Some(rest)) => match index_datum(s) {
                Some(d) => Some(seq![d] + rest),
                None => None,
            },
            _ => None,
        }
    } else {
        Some(Seq::empty())
    }
}

/// The list of `column IN (literals)`, if an index can prune by it.
pub open spec fn in_list(
    ids: Map<Seq<char>, i32>,
    expr: Expr,
    list: Seq<Expr>,
    negated: bool,
) -> Option<(i32, Seq<Datum>)> {
    match (expr, list_data(list, 0)) {
        (Expr::Column(c), Some(ds)) => if !negated && ds.len() > 0 && ids.contains_key(c@) {
            Some((ids[c@], with_zeros(ds)))
        } else {
            None
        },
        _ => None,
    }
}

/// The IN-lists of a filter that an index can prune by.
pub open spec fn lists_of(ids: Map<Seq<char>, i32>, e: Expr) -> Seq<(i32, Seq<Datum>)>
    decreases e,
{
    match e {
        Expr::BinaryExpr { left, op, right } => if op is And {
            lists_of(ids, *left) + lists_of(ids, *right)
        } else {
            match zero_list(ids, *left, op, *right) {
                Some(l) => seq![l],
                None => Seq::empty(),
            }
        },
        Expr::InList { expr, list, negated } => match in_list(ids, *expr, list@, negated) {
            Some(l) => seq![l],
            None => Seq::empty(),
        },
        _ => Seq::empty(),
    }
}

/// What collected predicates say.
pub open spec fn predicate_models(ps: Seq<Predicate>) -> Seq<PredicateModel> {
    ps.map_values(|p: Predicate| p@)
}

/// What collected IN-lists say.
pub open spec fn list_models(ls: Seq<(i32, Vec<Value>)>) -> Seq<(i32, Seq<Datum>)> {
    ls.map_values(|l: (i32, Vec<Value>)| (l.0, zonemap::data(l.1@)))
}

/// The values of a list of translatable literals.
fn list_values(list: &Vec<Expr>) -> (r: Option<Vec<Value>>)
    ensures
        match r {
            Some(vs) => list_data(list@, 0) == Some(zonemap::data(vs@)),
            None => list_data(list@, 0) is None,
        },
{
    let mut out: Vec<Value> = Vec::new();
    let mut i: usize = 0;
    let ghost model = Seq::<Datum>::empty();
    proof {
        assert(zonemap::data(out@) =~= model);
        if list_data(list@, 0) is Some {
            assert(model + list_data(list@, 0)->0 =~= list_data(list@, 0)->0);
        }
    }
    while i < list.len()
        invariant
            i <= list@.len(),
            model == zonemap::data(out@),
            list_data(list@, 0) == match list_data(list@, i as int) {
                Some(rest) => Some(model + rest),
                None => None,
            },
        decreases list@.len() - i,
    {
        match &list[i] {
            Expr::Literal(s) => {
                match index_value(s) {
                    Some(v) => {
                        proof {
                            let rest = list_data(list@, i + 1);
                            if rest is Some {
                                assert(model + (seq![v@] + rest->0) =~= model.push(v@) + rest->0);
                            }
                            model = model.push(v@);
                        }
                        out.push(v);
                        proof {
                            assert(zonemap::data(out@) =~= model);
                        }
                    },
                    None => return None,
                }
            },
            _ => return None,
        }
        i = i + 1;
    }
    proof {
        assert(model + Seq::<Datum>::empty() =~= model);
    }
    Some(out)
}

/// Flatten one filter into prunable constraints: comparison predicates (splitting top-level
/// `AND`s and normalizing `col <op> literal` / `literal <op> col`) and `col IN (literals)`
/// lists; an equality with a float zero is the list of both zeros. Anything else is left to the
/// engine's re-check.
pub fn collect(
    field_ids: &FieldIds,
    expr: &Expr,
    preds: &mut Vec<Predicate>,
    inlists: &mut Vec<(i32, Vec<Value>)>,
)
    ensures
        predicate_models(final(preds)@) == predicate_models(old(preds)@) + predicates_of(
            field_ids@,
            *expr,
        ),
        list_models(final(inlists)@) == list_models(old(inlists)@) + lists_of(field_ids@, *expr),
    decreases expr,
{
    proof {
        assert(predicate_models(preds@) + Seq::<PredicateModel>::empty() =~= predicate_models(
            preds@,
        ));
        assert(list_models(inlists@) + Seq::<(i32, Seq<Datum>)>::empty() =~= list_models(
            inlists@,
        ));
    }
    match expr {
        Expr::BinaryExpr { left, op, right } => {
            if *op == Operator::And {
                collect(field_ids, left, preds, inlists);
                collect(field_ids, right, preds, inlists);
                proof {
                    assert(predicate_models(old(preds)@) + predicates_of(field_ids@, **left)
                        + predicates_of(field_ids@, **right) =~= predicate_models(old(preds)@) + (
                    predicates_of(field_ids@, **left) + predicates_of(field_ids@, **right)));
                    assert(list_models(old(inlists)@) + lists_of(field_ids@, **left) + lists_of(
                        field_ids@,
                        **right,
                    ) =~= list_models(old(inlists)@) + (lists_of(field_ids@, **left) + lists_of(
                        field_ids@,
                        **right,
                    )));
                }
                return;
            }
            let (column, op, scalar): (&String, Operator, &ScalarValue) = match (&**left, &**right) {
                (Expr::Column(c), Expr::Literal(s)) => (c, *op, s),
                (Expr::Literal(s), Expr::Column(c)) => (c, flip_op(*op), s),
                _ => return,
            };
            if let (Some(id), Some(value)) = (
                field_ids.get(column.as_str()),
                index_value(scalar),
            ) {
                if op == Operator::Eq && is_zero_value(&value) {
                    let both: Vec<Value> = vec![
                        Value::F64(0),
                        Value::F64(0x8000_0000_0000_0000),
                    ];
                    let ghost item = (id, zonemap::data(both@));
                    inlists.push((id, both));
                    proof {
                        assert(item.1 =~= zeros());
                        assert(list_models(inlists@) =~= list_models(old(inlists)@) + seq![item]);
                    }
                } else if let Some(p) = make_predicate(id, loosen(op, scalar), value) {
                    preds.push(p);
                    proof {
                        assert(predicate_models(preds@) =~= predicate_models(old(preds)@)
                            + seq![p@]);
                    }
                }
            }
        },
        Expr::InList { expr: inner, list, negated } => {
            if !*negated {
                if let Expr::Column(c) = &**inner {
                    if let Some(id) = field_ids.get(c.as_str()) {
                        if let Some(mut values) = list_values(list) {
                            if values.len() > 0 {
                                complete(&mut values);
                                let ghost item = (id, zonemap::data(values@));
                                inlists.push((id, values));
                                proof {
                                    assert(list_models(inlists@) =~= list_models(old(inlists)@)
                                        + seq![item]);
                                }
                            }
                        }
                    }
                }
            }
        },
        _ => {},
    }
}

/// The comparisons of all filters from `i` on that an index can prune by.
pub open spec fn all_predicates(
    ids: Map<Seq<char>, i32>,
    filters: Seq<Expr>,
    i: int,
) -> Seq<PredicateModel>
    decreases filters.len() - i,
{
    if 0 <= i < filters.len() {
        predicates_of(ids, filters[i]) + all_predicates(ids, filters, i + 1)
    } else {
        Seq::empty()
    }
}

/// The IN-lists of all filters from `i` on that an index can prune by.
pub open spec fn all_lists(ids: Map<Seq<char>, i32>, filters: Seq<Expr>, i: int) -> Seq<
    (i32, Seq<Datum>),
>
    decreases filters.len() - i,
{
    if 0 <= i < filters.len() {
        lists_of(ids, filters[i]) + all_lists(ids, filters, i + 1)
    } else {
        Seq::empty()
    }
}

/// Whether a zone of this id must be read for a predicate.
pub open spec fn id_kept(
    zs: Seq<ZoneModel>,
    blooms: Option<Seq<EntryModel>>,
    p: PredicateModel,
    id: u32,
) -> bool {
    prune::kept_ids(zs, blooms, p, 0).contains(id)
}

/// Whether a zone of this id must be read for an equality with one of the values.
pub open spec fn id_kept_for_any(
    zs: Seq<ZoneModel>,
    blooms: Option<Seq<EntryModel>>,
    list: (i32, Seq<Datum>),
    id: u32,
) -> bool {
    exists|j: int|
        0 <= j < list.1.len() && id_kept(
            zs,
            blooms,
            PredicateModel::Eq(list.0, #[trigger] list.1[j]),
            id,
        )
}

/// Whether a zone of this id survives every constraint: predicates are ANDed, an IN-list is
/// the OR of its equalities.
pub open spec fn id_survives(
    zs: Seq<ZoneModel>,
    blooms: Option<Seq<EntryModel>>,
    preds: Seq<PredicateModel>,
    lists: Seq<(i32, Seq<Datum>)>,
    id: u32,
) -> bool {
    &&& forall|k: int| 0 <= k < preds.len() ==> id_kept(zs, blooms, #[trigger] preds[k], id)
    &&& forall|k: int|
        0 <= k < lists.len() ==> id_kept_for_any(zs, blooms, #[trigger] lists[k], id)
}

/// The positions from `i` on of the zones that survive, in order.
pub open spec fn survivors(
    zs: Seq<ZoneModel>,
    blooms: Option<Seq<EntryModel>>,
    preds: Seq<PredicateModel>,
    lists: Seq<(i32, Seq<Datum>)>,
    i: int,
) -> Seq<usize>
    decreases zs.len() - i,
{
    if 0 <= i < zs.len() {
        if id_survives(zs, blooms, preds, lists, zs[i].zone_id) {
            seq![i as usize] + survivors(zs, blooms, preds, lists, i + 1)
        } else {
            survivors(zs, blooms, preds, lists, i + 1)
        }
    } else {
        Seq::empty()
    }
}

/// The positions of the zones that a scan with these filters must read.
pub open spec fn zones_to_read(
    zs: Seq<ZoneModel>,
    blooms: Option<Seq<EntryModel>>,
    ids: Map<Seq<char>, i32>,
    filters: Seq<Expr>,
) -> Seq<usize> {
    survivors(zs, blooms, all_predicates(ids, filters, 0), all_lists(ids, filters, 0), 0)
}

/// Add ids to a set.
fn add_ids(set: &mut HashSet<u32>, ids: &Vec<u32>)
    ensures
        forall|id: u32| #[trigger]
            final(set)@.contains(id) <==> old(set)@.contains(id) || ids@.contains(id),
{
    let mut i: usize = 0;
    while i < ids.len()
        invariant
            i <= ids@.len(),
            forall|id: u32|
                set@.contains(id) <==> old(set)@.contains(id) || exists|k: int|
                    0 <= k < i && ids@[k] == id,
        decreases ids@.len() - i,
    {
        let ghost before = set@;
        set.insert(ids[i]);
        proof {
            assert forall|id: u32| set@.contains(id) <==> old(set)@.contains(id) || exists|k: int|
                0 <= k < i + 1 && ids@[k] == id by {
                if before.contains(id) && !old(set)@.contains(id) {
                    let k = choose|k: int| 0 <= k < i && ids@[k] == id;
                    assert(ids@[k] == id);
                }
                if id == ids@[i as int] {
                    assert(ids@[i as int] == id);
                }
            }
        }
        i = i + 1;
    }
}

/// Keep alive only the zones whose id is in a set.
fn retain_ids(alive: &mut Vec<bool>, zone_map: &ZoneMap, set: &HashSet<u32>)
    requires
        old(alive)@.len() == zone_map.zones@.len(),
    ensures
        final(alive)@.len() == old(alive)@.len(),
        forall|i: int|
            0 <= i < final(alive)@.len() ==> #[trigger] final(alive)@[i] == (old(alive)@[i]
                && set@.contains(zone_map@[i].zone_id)),
{
    let mut i: usize = 0;
    while i < alive.len()
        invariant
            i <= alive@.len() == old(alive)@.len() == zone_map.zones@.len(),
            forall|k: int|
                0 <= k < i ==> #[trigger] alive@[k] == (old(alive)@[k] && set@.contains(
                    zone_map@[k].zone_id,
                )),
            forall|k: int| i <= k < alive@.len() ==> #[trigger] alive@[k] == old(alive)@[k],
        decreases alive@.len() - i,
    {
        proof {
            assert(zone_map@[i as int].zone_id == zone_map.zones@[i as int].zone_id);
        }
        let keep: bool = alive[i] && set.contains(&zone_map.zones[i].zone_id);
        alive.set(i, keep);
        i = i + 1;
    }
}

/// The **indices** (positions in `zone_map.zones`) of the zones that survive every filter: the
/// zones a scan must still read. Comparison predicates are ANDed (a zone must survive each); an
/// `IN (v1, .., vn)` survives if it survives `= vj` for some `j`. Untranslatable filters are
/// ignored here (the engine re-checks the rows).
pub fn surviving_zone_indices(
    zone_map: &ZoneMap,
    blooms: Option<&ZoneBlooms>,
    field_ids: &FieldIds,
    filters: &[Expr],
) -> (r: Vec<usize>)
    ensures
        r@ == zones_to_read(zone_map@, prune::filters_of(blooms), field_ids@, filters@),
{
    let mut preds: Vec<Predicate> = Vec::new();
    let mut inlists: Vec<(i32, Vec<Value>)> = Vec::new();
    let mut i: usize = 0;
    let ghost ids = field_ids@;
    let ghost zs = zone_map@;
    let ghost es = prune::filters_of(blooms);
    let ghost want_preds = all_predicates(ids, filters@, 0);
    let ghost want_lists = all_lists(ids, filters@, 0);
    proof {
        assert(predicate_models(preds@) + want_preds =~= want_preds);
        assert(list_models(inlists@) + want_lists =~= want_lists);
    }
    while i < filters.len()
        invariant
            i <= filters@.len(),
            ids == field_ids@,
            predicate_models(preds@) + all_predicates(ids, filters@, i as int) == want_preds,
            list_models(inlists@) + all_lists(ids, filters@, i as int) == want_lists,
        decreases filters@.len() - i,
    {
        let ghost before_preds = predicate_models(preds@);
        let ghost before_lists = list_models(inlists@);
        collect(field_ids, &filters[i], &mut preds, &mut inlists);
        proof {
            assert(predicate_models(preds@) + all_predicates(ids, filters@, i + 1)
                =~= before_preds + all_predicates(ids, filters@, i as int));
            assert(list_models(inlists@) + all_lists(ids, filters@, i + 1) =~= before_lists
                + all_lists(ids, filters@, i as int));
        }
        i = i + 1;
    }
    proof {
        assert(predicate_models(preds@) + all_predicates(ids, filters@, i as int)
            =~= predicate_models(preds@));
        assert(list_models(inlists@) + all_lists(ids, filters@, i as int) =~= list_models(
            inlists@,
        ));
    }
    let mut alive: Vec<bool> = Vec::new();
    while alive.len() < zone_map.zones.len()
        invariant
            alive@.len() <= zone_map.zones@.len(),
            forall|k: int| 0 <= k < alive@.len() ==> alive@[k],
        decreases zone_map.zones@.len() - alive@.len(),
    {
        alive.push(true);
    }
    let mut p: usize = 0;
    while p < preds.len()
        invariant
            p <= preds@.len(),
            predicate_models(preds@) == want_preds,
            zs == zone_map@,
            es == prune::filters_of(blooms),
            alive@.len() == zone_map.zones@.len(),
            forall|k: int|
                0 <= k < alive@.len() ==> #[trigger] alive@[k] == id_survives(
                    zs,
                    es,
                    want_preds.take(p as int),
                    Seq::empty(),
                    zs[k].zone_id,
                ),
        decreases preds@.len() - p,
    {
        let kept: Vec<u32> = prune::surviving_zones_indexed(zone_map, blooms, &preds[p]);
        let mut set: HashSet<u32> = HashSet::new();
        add_ids(&mut set, &kept);
        let ghost before = alive@;
        retain_ids(&mut alive, zone_map, &set);
        proof {
            assert(want_preds[p as int] == preds@[p as int]@);
            assert forall|k: int| 0 <= k < alive@.len() implies #[trigger] alive@[k]
                == id_survives(
                zs,
                es,
                want_preds.take(p + 1),
                Seq::empty(),
                zs[k].zone_id,
            ) by {
                let id = zs[k].zone_id;
                assert(before[k] == id_survives(
                    zs,
                    es,
                    want_preds.take(p as int),
                    Seq::empty(),
                    id,
                ));
                lemma_survives_one_more(zs, es, want_preds, p as int, id);
                assert(set@.contains(id) <==> kept@.contains(id));
            }
        }
        p = p + 1;
    }
    proof {
        assert(want_preds.take(p as int) =~= want_preds);
        assert(want_lists.take(0) =~= Seq::<(i32, Seq<Datum>)>::empty());
    }
    let mut l: usize = 0;
    while l < inlists.len()
        invariant
            l <= inlists@.len(),
            list_models(inlists@) == want_lists,
            zs == zone_map@,
            es == prune::filters_of(blooms),
            alive@.len() == zone_map.zones@.len(),
            forall|k: int|
                0 <= k < alive@.len() ==> #[trigger] alive@[k] == id_survives(
                    zs,
                    es,
                    want_preds,
                    want_lists.take(l as int),
                    zs[k].zone_id,
                ),
        decreases inlists@.len() - l,
    {
        let field: i32 = inlists[l].0;
        let values: &Vec<Value> = &inlists[l].1;
        let ghost item = want_lists[l as int];
        proof {
            assert(item == (field, zonemap::data(values@)));
        }
        let mut set: HashSet<u32> = HashSet::new();
        let mut j: usize = 0;
        while j < values.len()
            invariant
                j <= values@.len(),
                item == (field, zonemap::data(values@)),
                zs == zone_map@,
                es == prune::filters_of(blooms),
                forall|id: u32| #[trigger]
                    set@.contains(id) <==> exists|m: int|
                        0 <= m < j && id_kept(
                            zs,
                            es,
                            PredicateModel::Eq(field, #[trigger] item.1[m]),
                            id,
                        ),
            decreases values@.len() - j,
        {
            let pred: Predicate = Predicate::Eq(field, values[j].clone());
            let kept: Vec<u32> = prune::surviving_zones_indexed(zone_map, blooms, &pred);
            let ghost before = set@;
            add_ids(&mut set, &kept);
            proof {
                assert(item.1[j as int] == values@[j as int]@);
                assert forall|id: u32| #[trigger] set@.contains(id) <==> exists|m: int|
                    0 <= m < j + 1 && id_kept(
                        zs,
                        es,
                        PredicateModel::Eq(field, #[trigger] item.1[m]),
                        id,
                    ) by {
                    assert(set@.contains(id) <==> before.contains(id) || kept@.contains(id));
                    assert(kept@.contains(id) <==> id_kept(
                        zs,
                        es,
                        PredicateModel::Eq(field, item.1[j as int]),
                        id,
                    ));
                }
            }
            j = j + 1;
        }
        let ghost before = alive@;
        retain_ids(&mut alive, zone_map, &set);
        proof {
            assert forall|k: int| 0 <= k < alive@.len() implies #[trigger] alive@[k]
                == id_survives(
                zs,
                es,
                want_preds,
                want_lists.take(l + 1),
                zs[k].zone_id,
            ) by {
                let id = zs[k].zone_id;
                assert(before[k] == id_survives(
                    zs,
                    es,
                    want_preds,
                    want_lists.take(l as int),
                    id,
                ));
                lemma_survives_one_more_list(zs, es, want_preds, want_lists, l as int, id);
                assert(set@.contains(id) <==> id_kept_for_any(zs, es, item, id));
            }
        }
        l = l + 1;
    }
    proof {
        assert(want_lists.take(l as int) =~= want_lists);
    }
    let mut out: Vec<usize> = Vec::new();
    let mut z: usize = 0;
    proof {
        assert(out@ + survivors(zs, es, want_preds, want_lists, 0) =~= survivors(
            zs,
            es,
            want_preds,
            want_lists,
            0,
        ));
    }
    while z < alive.len()
        invariant
            z <= alive@.len() == zone_map.zones@.len(),
            zs == zone_map@,
            forall|k: int|
                0 <= k < alive@.len() ==> #[trigger] alive@[k] == id_survives(
                    zs,
                    es,
                    want_preds,
                    want_lists,
                    zs[k].zone_id,
                ),
            out@ + survivors(zs, es, want_preds, want_lists, z as int) == survivors(
                zs,
                es,
                want_preds,
                want_lists,
                0,
            ),
        decreases alive@.len() - z,
    {
        let ghost before = out@;
        if alive[z] {
            out.push(z);
        }
        proof {
            assert(out@ + survivors(zs, es, want_preds, want_lists, z + 1) =~= before + survivors(
                zs,
                es,
                want_preds,
                want_lists,
                z as int,
            ));
        }
        z = z + 1;
    }
    proof {
        assert(out@ =~= out@ + survivors(zs, es, want_preds, want_lists, z as int));
    }
    out
}

proof fn lemma_survives_one_more(
    zs: Seq<ZoneModel>,
    blooms: Option<Seq<EntryModel>>,
    preds: Seq<PredicateModel>,
    p: int,
    id: u32,
)
    requires
        0 <= p < preds.len(),
    ensures
        id_survives(zs, blooms, preds.take(p + 1), Seq::empty(), id) <==> id_survives(
            zs,
            blooms,
            preds.take(p),
            Seq::empty(),
            id,
        ) && id_kept(zs, blooms, preds[p], id),
{
    let more = preds.take(p + 1);
    let less = preds.take(p);
    assert(more[p] == preds[p]);
    assert forall|k: int| 0 <= k < p implies #[trigger] more[k] == less[k] by {}
    if id_survives(zs, blooms, more, Seq::empty(), id) {
        assert forall|k: int| 0 <= k < less.len() implies id_kept(
            zs,
            blooms,
            #[trigger] less[k],
            id,
        ) by {
            assert(id_kept(zs, blooms, more[k], id));
        }
    }
}

proof fn lemma_survives_one_more_list(
    zs: Seq<ZoneModel>,
    blooms: Option<Seq<EntryModel>>,
    preds: Seq<PredicateModel>,
    lists: Seq<(i32, Seq<Datum>)>,
    l: int,
    id: u32,
)
    requires
        0 <= l < lists.len(),
    ensures
        id_survives(zs, blooms, preds, lists.take(l + 1), id) <==> id_survives(
            zs,
            blooms,
            preds,
            lists.take(l),
            id,
        ) && id_kept_for_any(zs, blooms, lists[l], id),
{
    let more = lists.take(l + 1);
    let less = lists.take(l);
    assert(more[l] == lists[l]);
    assert forall|k: int| 0 <= k < l implies #[trigger] more[k] == less[k] by {}
    if id_survives(zs, blooms, preds, more, id) {
        assert forall|k: int| 0 <= k < less.len() implies id_kept_for_any(
            zs,
            blooms,
            #[trigger] less[k],
            id,
        ) by {
            assert(id_kept_for_any(zs, blooms, more[k], id));
        }
    }
}

/// Whether an index can prune by a filter at all.
pub open spec fn usable(ids: Map<Seq<char>, i32>, e: Expr) -> bool {
    predicates_of(ids, e).len() > 0 || lists_of(ids, e).len() > 0
}

/// Pushdown verdict per filter: `Inexact` where at least one prunable constraint can be
/// extracted (the scan prunes, the engine re-checks the rows); `Unsupported` otherwise.
pub fn filters_pushdown(field_ids: &FieldIds, filters: &[&Expr]) -> (r: Vec<FilterPushDown>)
    ensures
        r@ == filters@.map_values(
            |e: &Expr|
                if usable(field_ids@, *e) {
                    FilterPushDown::Inexact
                } else {
                    FilterPushDown::Unsupported
                },
        ),
{
    let mut out: Vec<FilterPushDown> = Vec::new();
    let mut i: usize = 0;
    while i < filters.len()
        invariant
            i <= filters@.len(),
            out@.len() == i,
            forall|k: int|
                0 <= k < i ==> #[trigger] out@[k] == (if usable(field_ids@, *filters@[k]) {
                    FilterPushDown::Inexact
                } else {
                    FilterPushDown::Unsupported
                }),
        decreases filters@.len() - i,
    {
        let mut preds: Vec<Predicate> = Vec::new();
        let mut inlists: Vec<(i32, Vec<Value>)> = Vec::new();
        let ghost no_preds = predicate_models(preds@);
        let ghost no_lists = list_models(inlists@);
        collect(field_ids, filters[i], &mut preds, &mut inlists);
        proof {
            assert(no_preds + predicates_of(field_ids@, *filters@[i as int]) =~= predicates_of(
                field_ids@,
                *filters@[i as int],
            ));
            assert(no_lists + lists_of(field_ids@, *filters@[i as int]) =~= lists_of(
                field_ids@,
                *filters@[i as int],
            ));
            assert(predicate_models(preds@).len() == preds@.len());
            assert(list_models(inlists@).len() == inlists@.len());
        }
        if preds.len() == 0 && inlists.len() == 0 {
            out.push(FilterPushDown::Unsupported);
        } else {
            out.push(FilterPushDown::Inexact);
        }
        i = i + 1;
    }
    out
}

/// The survivors are exactly the positions whose zone survives, in increasing order.
pub proof fn law_survivors_are_the_surviving_positions(
    zs: Seq<ZoneModel>,
    blooms: Option<Seq<EntryModel>>,
    preds: Seq<PredicateModel>,
    lists: Seq<(i32, Seq<Datum>)>,
    i: usize,
)
    requires
        zs.len() <= usize::MAX,
    ensures
        survivors(zs, blooms, preds, lists, 0).contains(i) <==> i < zs.len() && id_survives(
            zs,
            blooms,
            preds,
            lists,
            zs[i as int].zone_id,
        ),
        forall|a: int, b: int|
            0 <= a < b < survivors(zs, blooms, preds, lists, 0).len() ==> survivors(
                zs,
                blooms,
                preds,
                lists,
                0,
            )[a] < survivors(zs, blooms, preds, lists, 0)[b],
{
    lemma_survivors_from(zs, blooms, preds, lists, 0, i);
}

proof fn lemma_survivors_from(
    zs: Seq<ZoneModel>,
    blooms: Option<Seq<EntryModel>>,
    preds: Seq<PredicateModel>,
    lists: Seq<(i32, Seq<Datum>)>,
    from: int,
    i: usize,
)
    requires
        zs.len() <= usize::MAX,
        0 <= from <= zs.len(),
    ensures
        survivors(zs, blooms, preds, lists, from).contains(i) <==> from <= i < zs.len()
            && id_survives(zs, blooms, preds, lists, zs[i as int].zone_id),
        forall|a: int|
            0 <= a < survivors(zs, blooms, preds, lists, from).len() ==> from
                <= #[trigger] survivors(zs, blooms, preds, lists, from)[a],
        forall|a: int, b: int|
            0 <= a < b < survivors(zs, blooms, preds, lists, from).len() ==> survivors(
                zs,
                blooms,
                preds,
                lists,
                from,
            )[a] < survivors(zs, blooms, preds, lists, from)[b],
    decreases zs.len() - from,
{
    let here = survivors(zs, blooms, preds, lists, from);
    if from < zs.len() {
        let rest = survivors(zs, blooms, preds, lists, from + 1);
        lemma_survivors_from(zs, blooms, preds, lists, from + 1, i);
        if id_survives(zs, blooms, preds, lists, zs[from].zone_id) {
            assert(here =~= seq![from as usize] + rest);
            assert(here[0] == from);
            assert forall|a: int| 0 < a < here.len() implies #[trigger] here[a] == rest[a - 1] by {
            }
            if rest.contains(i) {
                let k = choose|k: int| 0 <= k < rest.len() && rest[k] == i;
                assert(here[k + 1] == i);
            }
            if here.contains(i) && i != from {
                let k = choose|k: int| 0 <= k < here.len() && here[k] == i;
                assert(rest[k - 1] == i);
            }
        }
    }
}

/// Filters that no constraint can be extracted from prune nothing: every zone is read.
pub proof fn law_unusable_filters_read_everything(
    zs: Seq<ZoneModel>,
    blooms: Option<Seq<EntryModel>>,
    ids: Map<Seq<char>, i32>,
    filters: Seq<Expr>,
)
    requires
        zs.len() <= usize::MAX,
        forall|k: int| 0 <= k < filters.len() ==> !usable(ids, #[trigger] filters[k]),
    ensures
        zones_to_read(zs, blooms, ids, filters) == Seq::new(zs.len(), |i: int| i as usize),
{
    lemma_no_constraints(ids, filters, 0);
    lemma_all_survive(zs, blooms, 0);
    assert(Seq::new((zs.len() - 0) as nat, |k: int| (0 + k) as usize) =~= Seq::new(
        zs.len(),
        |i: int| i as usize,
    ));
}

proof fn lemma_no_constraints(ids: Map<Seq<char>, i32>, filters: Seq<Expr>, i: int)
    requires
        0 <= i <= filters.len(),
        forall|k: int| 0 <= k < filters.len() ==> !usable(ids, #[trigger] filters[k]),
    ensures
        all_predicates(ids, filters, i) == Seq::<PredicateModel>::empty(),
        all_lists(ids, filters, i) == Seq::<(i32, Seq<Datum>)>::empty(),
    decreases filters.len() - i,
{
    if i < filters.len() {
        assert(!usable(ids, filters[i]));
        lemma_no_constraints(ids, filters, i + 1);
        assert(all_predicates(ids, filters, i) =~= Seq::<PredicateModel>::empty());
        assert(all_lists(ids, filters, i) =~= Seq::<(i32, Seq<Datum>)>::empty());
    }
}

proof fn lemma_all_survive(zs: Seq<ZoneModel>, blooms: Option<Seq<EntryModel>>, i: int)
    requires
        0 <= i <= zs.len(),
    ensures
        survivors(zs, blooms, Seq::empty(), Seq::empty(), i) == Seq::new(
            (zs.len() - i) as nat,
            |k: int| (i + k) as usize,
        ),
    decreases zs.len() - i,
{
    let here = survivors(zs, blooms, Seq::empty(), Seq::empty(), i);
    if i < zs.len() {
        lemma_all_survive(zs, blooms, i + 1);
        assert(here =~= Seq::new((zs.len() - i) as nat, |k: int| (i + k) as usize));
    } else {
        assert(here =~= Seq::new((zs.len() - i) as nat, |k: int| (i + k) as usize));
    }
}

/// The time a temporal literal stands for, in nanoseconds.
pub open spec fn literal_nanos(s: ScalarValue) -> Option<int> {
    match s {
        ScalarValue::Date32(Some(d)) => Some(d * 86_400_000_000_000),
        ScalarValue::Date64(Some(ms)) => Some(ms * 1_000_000),
        ScalarValue::TimestampSecond(Some(t)) => Some(t * 1_000_000_000),
        ScalarValue::TimestampMillisecond(Some(t)) => Some(t * 1_000_000),
        ScalarValue::TimestampMicrosecond(Some(t)) => Some(t * 1_000),
        ScalarValue::TimestampNanosecond(Some(t)) => Some(t as int),
        ScalarValue::Time32Second(Some(t)) => Some(t * 1_000_000_000),
        ScalarValue::Time32Millisecond(Some(t)) => Some(t * 1_000_000),
        ScalarValue::Time64Microsecond(Some(t)) => Some(t * 1_000),
        ScalarValue::Time64Nanosecond(Some(t)) => Some(t as int),
        _ => None,
    }
}

/// The time a temporal datum stands for, in nanoseconds.
pub open spec fn datum_nanos(d: Datum) -> Option<int> {
    match d {
        Datum::Date(d) => Some(d * 86_400_000_000_000),
        Datum::Time(t) => Some(t * 1_000),
        Datum::Timestamp(t) => Some(t * 1_000),
        _ => None,
    }
}

/// Two dates, two times of day or two timestamps.
pub open spec fn same_temporal_kind(a: Datum, b: Datum) -> bool {
    ||| a is Date && b is Date
    ||| a is Time && b is Time
    ||| a is Timestamp && b is Timestamp
}

/// How the datum of a column stands to a literal, by what the literal says: booleans and
/// integers as they are, floats by the numbers of their patterns, strings by their UTF-8 bytes,
/// decimals of one scale by their unscaled numbers, dates and times by the instants they stand
/// for. A NaN stands in no order to anything.
pub open spec fn stands_to(d: Datum, s: ScalarValue) -> Option<Order> {
    match (d, s) {
        (Datum::Bool(x), ScalarValue::Boolean(Some(v))) => Some(
            if x == v {
                Order::Equal
            } else if v {
                Order::Less
            } else {
                Order::Greater
            },
        ),
        (Datum::I64(x), ScalarValue::Int64(Some(v))) => Some(prune::int_order(x as int, v as int)),
        (Datum::I64(x), ScalarValue::Int32(Some(v))) => Some(prune::int_order(x as int, v as int)),
        (Datum::F64(x), ScalarValue::Float64(Some(v))) => if float::is_nan(x) || float::is_nan(v) {
            None
        } else {
            Some(prune::int_order(float::units(x), float::units(v)))
        },
        (Datum::F64(x), ScalarValue::Float32(Some(v))) => if float::is_nan(x) || float::is_nan32(
            v,
        ) {
            None
        } else {
            Some(prune::int_order(float::units(x), float::units_32(v)))
        },
        (Datum::Bytes(x), ScalarValue::Utf8(Some(v))) => Some(
            prune::bytes_order(x, vstd::utf8::encode_utf8(v@)),
        ),
        (Datum::Bytes(x), ScalarValue::LargeUtf8(Some(v))) => Some(
            prune::bytes_order(x, vstd::utf8::encode_utf8(v@)),
        ),
        (
            Datum::Decimal { unscaled, scale },
            ScalarValue::Decimal128(Some(v), _, own),
        ) => if scale == own {
            Some(prune::int_order(unscaled as int, v as int))
        } else {
            None
        },
        (_, _) => if temporal_kinds_match(d, s) {
            Some(prune::int_order(datum_nanos(d)->0, literal_nanos(s)->0))
        } else {
            None
        },
    }
}

/// A date with a literal date, a time of day with a literal time, a timestamp with a literal
/// timestamp.
pub open spec fn temporal_kinds_match(d: Datum, s: ScalarValue) -> bool {
    match s {
        ScalarValue::Date32(Some(_)) => d is Date,
        ScalarValue::Date64(Some(_)) => d is Date,
        ScalarValue::TimestampSecond(Some(_)) => d is Timestamp,
        ScalarValue::TimestampMillisecond(Some(_)) => d is Timestamp,
        ScalarValue::TimestampMicrosecond(Some(_)) => d is Timestamp,
        ScalarValue::TimestampNanosecond(Some(_)) => d is Timestamp,
        ScalarValue::Time32Second(Some(_)) => d is Time,
        ScalarValue::Time32Millisecond(Some(_)) => d is Time,
        ScalarValue::Time64Microsecond(Some(_)) => d is Time,
        ScalarValue::Time64Nanosecond(Some(_)) => d is Time,
        _ => false,
    }
}

/// Whether an expression is a literal that the datum of a column equals.
pub open spec fn equals_literal(d: Datum, e: Expr) -> bool {
    e matches Expr::Literal(s) && stands_to(d, s) == Some(Order::Equal)
}

/// How the second of two data stands to the first.
pub open spec fn mirrored(o: Option<Order>) -> Option<Order> {
    match o {
        Some(Order::Less) => Some(Order::Greater),
        Some(Order::Greater) => Some(Order::Less),
        other => other,
    }
}

/// Whether a comparison holds between two data that stand to each other as given; nothing is said
/// of other operators.
pub open spec fn compares(op: Operator, o: Option<Order>) -> bool {
    match op {
        Operator::Eq => o == Some(Order::Equal),
        Operator::Lt => o == Some(Order::Less),
        Operator::LtEq => o == Some(Order::Less) || o == Some(Order::Equal),
        Operator::Gt => o == Some(Order::Greater),
        Operator::GtEq => o == Some(Order::Greater) || o == Some(Order::Equal),
        _ => true,
    }
}

/// Whether a filter may hold of a row (a datum per column name), as far as its conjunctions,
/// comparisons of a column with a literal, and IN-lists of literals tell.
pub open spec fn may_hold(e: Expr, row: spec_fn(Seq<char>) -> Datum) -> bool
    decreases e,
{
    match e {
        Expr::BinaryExpr { left, op, right } => if op is And {
            may_hold(*left, row) && may_hold(*right, row)
        } else {
            match (*left, *right) {
                (Expr::Column(c), Expr::Literal(s)) => literal_datum(s) is Some ==> compares(
                    op,
                    stands_to(row(c@), s),
                ),
                (Expr::Literal(s), Expr::Column(c)) => literal_datum(s) is Some ==> compares(
                    op,
                    mirrored(stands_to(row(c@), s)),
                ),
                _ => true,
            }
        },
        Expr::InList { expr, list, negated } => match *expr {
            Expr::Column(c) => negated || list@.len() == 0 || list_data(list@, 0) is None || exists|
                j: int,
            |
                0 <= j < list@.len() && equals_literal(row(c@), #[trigger] list@[j]),
            _ => true,
        },
        _ => true,
    }
}

#[verifier::rlimit(40)]
proof fn lemma_rounding(op: Operator, d: Datum, s: ScalarValue)
    requires
        index_datum(s) is Some,
        compares(op, stands_to(d, s)),
    ensures
        compares(loosened(op, s), prune::order(d, index_datum(s)->0)),
{
    match (d, s) {
        (Datum::F64(x), ScalarValue::Float64(Some(v))) => {
            prune::law_floats_order_as_numbers(x, v);
        },
        (Datum::F64(x), ScalarValue::Float32(Some(v))) => {
            float::law_widening_keeps_the_number(v);
            prune::law_floats_order_as_numbers(x, float::widen(v) as u64);
        },
        (Datum::Timestamp(x), ScalarValue::TimestampNanosecond(Some(t))) => {
            lemma_rounded_down(op, x as int, t as int);
        },
        (Datum::Time(x), ScalarValue::Time64Nanosecond(Some(t))) => {
            lemma_rounded_down(op, x as int, t as int);
        },
        (Datum::Date(x), ScalarValue::Date64(Some(ms))) => {
            lemma_rounded_to_days(op, x as int, ms as int);
        },
        _ => {},
    }
}

/// A bound in nanoseconds that is rounded down to microseconds.
proof fn lemma_rounded_down(op: Operator, x: int, t: int)
    requires
        compares(op, Some(prune::int_order(x * 1_000, t))),
    ensures
        compares(
            if op is Lt && t % 1_000 != 0 {
                Operator::LtEq
            } else {
                op
            },
            Some(prune::int_order(x, t / 1_000)),
        ),
{
}

/// A bound in milliseconds that is rounded toward zero to days.
proof fn lemma_rounded_to_days(op: Operator, x: int, ms: int)
    requires
        compares(op, Some(prune::int_order(x * 86_400_000_000_000, ms * 1_000_000))),
    ensures
        compares(
            if op is Lt && ms > 0 && ms % 86_400_000 != 0 {
                Operator::LtEq
            } else if op is Gt && ms < 0 && ms % 86_400_000 != 0 {
                Operator::GtEq
            } else {
                op
            },
            Some(prune::int_order(x, toward_zero(ms, 86_400_000))),
        ),
{
}

/// Whether the index of a zone covers a row: for every indexed column, the stats cover the
/// row's datum and the filter answers "maybe" for it.
pub open spec fn zone_covers(
    z: ZoneModel,
    blooms: Option<Seq<EntryModel>>,
    ids: Map<Seq<char>, i32>,
    row: spec_fn(Seq<char>) -> Datum,
) -> bool {
    forall|c: Seq<char>| #[trigger]
        ids.contains_key(c) ==> {
            &&& zonemap::first_column(z.columns, ids[c]) matches Some(st) ==> prune::covers(
                st,
                seq![row(c)],
            )
            &&& blooms matches Some(es) ==> bloom::maybe_in_zone(es, z.zone_id, ids[c], row(c))
        }
}

/// A constraint that a row meets in one of the indexed columns, an equality with the very datum.
spec fn met(
    ids: Map<Seq<char>, i32>,
    row: spec_fn(Seq<char>) -> Datum,
    p: PredicateModel,
) -> bool {
    exists|c: Seq<char>| #[trigger]
        ids.contains_key(c) && ids[c] == p.field() && accepts_exactly(p, row(c))
}

/// Whether a predicate accepts a datum, and an equality that very datum.
spec fn accepts_exactly(p: PredicateModel, d: Datum) -> bool {
    p.accepts(d) && (p matches PredicateModel::Eq(_, v) ==> v == d)
}

/// An IN-list that a row meets in one of the indexed columns.
spec fn list_met(
    ids: Map<Seq<char>, i32>,
    row: spec_fn(Seq<char>) -> Datum,
    l: (i32, Seq<Datum>),
) -> bool {
    exists|j: int| 0 <= j < l.1.len() && met(ids, row, PredicateModel::Eq(l.0, #[trigger] l.1[j]))
}

/// Constraints that a row meets, all of them.
spec fn all_met(
    ids: Map<Seq<char>, i32>,
    row: spec_fn(Seq<char>) -> Datum,
    ps: Seq<PredicateModel>,
    ls: Seq<(i32, Seq<Datum>)>,
) -> bool {
    &&& forall|k: int| 0 <= k < ps.len() ==> met(ids, row, #[trigger] ps[k])
    &&& forall|k: int| 0 <= k < ls.len() ==> list_met(ids, row, #[trigger] ls[k])
}

proof fn lemma_met_together(
    ids: Map<Seq<char>, i32>,
    row: spec_fn(Seq<char>) -> Datum,
    ps: Seq<PredicateModel>,
    ls: Seq<(i32, Seq<Datum>)>,
    qs: Seq<PredicateModel>,
    ms: Seq<(i32, Seq<Datum>)>,
)
    requires
        all_met(ids, row, ps, ls),
        all_met(ids, row, qs, ms),
    ensures
        all_met(ids, row, ps + qs, ls + ms),
{
    assert forall|k: int| 0 <= k < (ps + qs).len() implies met(
        ids,
        row,
        #[trigger] (ps + qs)[k],
    ) by {
        if k < ps.len() {
            assert(met(ids, row, ps[k]));
        } else {
            assert(met(ids, row, qs[k - ps.len()]));
        }
    }
    assert forall|k: int| 0 <= k < (ls + ms).len() implies list_met(
        ids,
        row,
        #[trigger] (ls + ms)[k],
    ) by {
        if k < ls.len() {
            assert(list_met(ids, row, ls[k]));
        } else {
            assert(list_met(ids, row, ms[k - ls.len()]));
        }
    }
}

proof fn lemma_comparison_met(
    ids: Map<Seq<char>, i32>,
    left: Expr,
    op: Operator,
    right: Expr,
    row: spec_fn(Seq<char>) -> Datum,
)
    requires
        !(op is And),
        may_hold(Expr::BinaryExpr { left: Box::new(left), op, right: Box::new(right) }, row),
    ensures
        comparison(ids, left, op, right) matches Some(p) ==> met(ids, row, p),
        zero_list(ids, left, op, right) matches Some(l) ==> list_met(ids, row, l),
{
    match comparison(ids, left, op, right) {
        Some(p) => {
            let (c, towards, s) = normalized(left, op, right)->0;
            assert(compares(towards, stands_to(row(c), s)));
            lemma_rounding(towards, row(c), s);
            lemma_equal_exactly(row(c), index_datum(s)->0);
            assert(ids.contains_key(c));
            assert(accepts_exactly(p, row(c)));
        },
        None => {},
    }
    match zero_list(ids, left, op, right) {
        Some(l) => {
            let (c, towards, s) = normalized(left, op, right)->0;
            assert(compares(towards, stands_to(row(c), s)));
            lemma_rounding(towards, row(c), s);
            lemma_equal_exactly(row(c), index_datum(s)->0);
            let j: int = if row(c) == zeros()[0] {
                0
            } else {
                1
            };
            assert(ids.contains_key(c));
            assert(accepts_exactly(PredicateModel::Eq(l.0, l.1[j]), row(c)));
            assert(met(ids, row, PredicateModel::Eq(l.0, l.1[j])));
        },
        None => {},
    }
}

/// What equals a datum is that datum, or both are float zeros; a float equals itself.
proof fn lemma_equal_exactly(d: Datum, v: Datum)
    ensures
        prune::order(d, v) == Some(Order::Equal) ==> (d == v || is_zero(d) && is_zero(v))
            && prune::order(d, d) == Some(Order::Equal),
{
    if prune::order(d, v) == Some(Order::Equal) {
        prune::law_equal_means_same(d, v);
        prune::law_order_mirrors(d, v);
    }
}

proof fn lemma_in_list_met(
    ids: Map<Seq<char>, i32>,
    expr: Expr,
    list: Vec<Expr>,
    negated: bool,
    row: spec_fn(Seq<char>) -> Datum,
)
    requires
        may_hold(Expr::InList { expr: Box::new(expr), list, negated }, row),
    ensures
        in_list(ids, expr, list@, negated) matches Some(l) ==> list_met(ids, row, l),
{
    match in_list(ids, expr, list@, negated) {
        Some(l) => {
            match expr {
                Expr::Column(c) => {
                    let j = choose|j: int|
                        0 <= j < list@.len() && equals_literal(row(c@), #[trigger] list@[j]);
                    lemma_list_data(list@, 0, j);
                    let ds = list_data(list@, 0)->0;
                    lemma_rounding(Operator::Eq, row(c@), list@[j]->Literal_0);
                    lemma_equal_exactly(row(c@), ds[j]);
                    let k: int = if row(c@) == ds[j] {
                        j
                    } else if row(c@) == zeros()[0] {
                        ds.len() as int
                    } else {
                        ds.len() as int + 1
                    };
                    let p = PredicateModel::Eq(l.0, l.1[k]);
                    assert(l.1[k] == row(c@));
                    assert(ids.contains_key(c@) && accepts_exactly(p, row(c@)));
                    assert(met(ids, row, p));
                },
                _ => {},
            }
        },
        None => {},
    }
}

proof fn lemma_constraints_met(
    ids: Map<Seq<char>, i32>,
    e: Expr,
    row: spec_fn(Seq<char>) -> Datum,
)
    requires
        may_hold(e, row),
    ensures
        all_met(ids, row, predicates_of(ids, e), lists_of(ids, e)),
    decreases e,
{
    match e {
        Expr::BinaryExpr { left, op, right } => {
            if op is And {
                lemma_constraints_met(ids, *left, row);
                lemma_constraints_met(ids, *right, row);
                lemma_met_together(
                    ids,
                    row,
                    predicates_of(ids, *left),
                    lists_of(ids, *left),
                    predicates_of(ids, *right),
                    lists_of(ids, *right),
                );
            } else {
                lemma_comparison_met(ids, *left, op, *right, row);
            }
        },
        Expr::InList { expr, list, negated } => {
            lemma_in_list_met(ids, *expr, list, negated, row);
        },
        _ => {},
    }
}

proof fn lemma_all_constraints_met(
    ids: Map<Seq<char>, i32>,
    filters: Seq<Expr>,
    i: int,
    row: spec_fn(Seq<char>) -> Datum,
)
    requires
        0 <= i <= filters.len(),
        forall|k: int| 0 <= k < filters.len() ==> may_hold(#[trigger] filters[k], row),
    ensures
        all_met(ids, row, all_predicates(ids, filters, i), all_lists(ids, filters, i)),
    decreases filters.len() - i,
{
    if i < filters.len() {
        assert(may_hold(filters[i], row));
        lemma_constraints_met(ids, filters[i], row);
        lemma_all_constraints_met(ids, filters, i + 1, row);
        lemma_met_together(
            ids,
            row,
            predicates_of(ids, filters[i]),
            lists_of(ids, filters[i]),
            all_predicates(ids, filters, i + 1),
            all_lists(ids, filters, i + 1),
        );
    }
}

proof fn lemma_met_means_kept(
    zs: Seq<ZoneModel>,
    blooms: Option<Seq<EntryModel>>,
    ids: Map<Seq<char>, i32>,
    i: int,
    row: spec_fn(Seq<char>) -> Datum,
    p: PredicateModel,
)
    requires
        0 <= i < zs.len(),
        zone_covers(zs[i], blooms, ids, row),
        met(ids, row, p),
    ensures
        id_kept(zs, blooms, p, zs[i].zone_id),
{
    let c = choose|c: Seq<char>| #[trigger]
        ids.contains_key(c) && ids[c] == p.field() && accepts_exactly(p, row(c));
    let d = row(c);
    assert(seq![d][0] == d);
    assert(seq![d].contains(d));
    prune::law_stats_never_hide_a_match(zs[i], seq![d], p, d);
    assert(prune::kept(zs[i], blooms, p));
    prune::law_kept_ids_are_the_kept_zones(zs, blooms, p, zs[i].zone_id);
}

/// Pruning never loses a row: a zone whose index covers a row of which every filter may hold is
/// among those read.
pub proof fn law_matching_rows_are_read(
    zs: Seq<ZoneModel>,
    blooms: Option<Seq<EntryModel>>,
    ids: Map<Seq<char>, i32>,
    filters: Seq<Expr>,
    row: spec_fn(Seq<char>) -> Datum,
    i: usize,
)
    requires
        zs.len() <= usize::MAX,
        i < zs.len(),
        zone_covers(zs[i as int], blooms, ids, row),
        forall|k: int| 0 <= k < filters.len() ==> may_hold(#[trigger] filters[k], row),
    ensures
        zones_to_read(zs, blooms, ids, filters).contains(i),
{
    let preds = all_predicates(ids, filters, 0);
    let lists = all_lists(ids, filters, 0);
    let id = zs[i as int].zone_id;
    lemma_all_constraints_met(ids, filters, 0, row);
    assert forall|k: int| 0 <= k < preds.len() implies id_kept(
        zs,
        blooms,
        #[trigger] preds[k],
        id,
    ) by {
        assert(met(ids, row, preds[k]));
        lemma_met_means_kept(zs, blooms, ids, i as int, row, preds[k]);
    }
    assert forall|k: int| 0 <= k < lists.len() implies id_kept_for_any(
        zs,
        blooms,
        #[trigger] lists[k],
        id,
    ) by {
        let l = lists[k];
        assert(list_met(ids, row, l));
        let j = choose|j: int|
            0 <= j < l.1.len() && met(ids, row, PredicateModel::Eq(l.0, #[trigger] l.1[j]));
        lemma_met_means_kept(zs, blooms, ids, i as int, row, PredicateModel::Eq(l.0, l.1[j]));
        assert(id_kept(zs, blooms, PredicateModel::Eq(l.0, l.1[j]), id));
    }
    law_survivors_are_the_surviving_positions(zs, blooms, preds, lists, i);
}

/// A literal whose time the units of an index can hold: whole microseconds, or whole days
/// within 32 bits.
pub open spec fn whole_units(s: ScalarValue) -> bool {
    match s {
        ScalarValue::Date64(Some(ms)) => ms as int % 86_400_000 == 0 && i32::MIN <= ms as int
            / 86_400_000 <= i32::MAX,
        ScalarValue::TimestampNanosecond(Some(t)) => t as int % 1_000 == 0,
        ScalarValue::Time64Nanosecond(Some(t)) => t as int % 1_000 == 0,
        _ => true,
    }
}

/// Normalizing a temporal literal keeps the time it stands for.
pub proof fn law_temporal_literals_keep_their_time(s: ScalarValue)
    requires
        whole_units(s),
        literal_nanos(s) is Some,
        literal_datum(s) is Some,
    ensures
        datum_nanos(literal_datum(s)->0) == literal_nanos(s),
{
    match s {
        ScalarValue::Date64(Some(ms)) => {
            let days = ms as int / 86_400_000;
            assert(toward_zero(ms as int, 86_400_000) == days);
            assert(low_32(days) == days);
        },
        ScalarValue::TimestampNanosecond(Some(t)) => {
            assert(t as int / 1_000 * 1_000 == t);
        },
        ScalarValue::Time64Nanosecond(Some(t)) => {
            assert(t as int / 1_000 * 1_000 == t);
        },
        _ => {},
    }
}

/// An `AND` of two filters reads what the two filters read together.
pub proof fn law_and_is_both_filters(
    zs: Seq<ZoneModel>,
    blooms: Option<Seq<EntryModel>>,
    ids: Map<Seq<char>, i32>,
    a: Expr,
    b: Expr,
)
    ensures
        zones_to_read(
            zs,
            blooms,
            ids,
            seq![Expr::BinaryExpr { left: Box::new(a), op: Operator::And, right: Box::new(b) }],
        ) == zones_to_read(zs, blooms, ids, seq![a, b]),
{
    let both = Expr::BinaryExpr { left: Box::new(a), op: Operator::And, right: Box::new(b) };
    let one = seq![both];
    let two = seq![a, b];
    reveal_with_fuel(all_predicates, 3);
    reveal_with_fuel(all_lists, 3);
    assert(all_predicates(ids, one, 0) =~= predicates_of(ids, a) + predicates_of(ids, b));
    assert(all_predicates(ids, two, 0) =~= predicates_of(ids, a) + predicates_of(ids, b));
    assert(all_lists(ids, one, 0) =~= lists_of(ids, a) + lists_of(ids, b));
    assert(all_lists(ids, two, 0) =~= lists_of(ids, a) + lists_of(ids, b));
}

/// The constraints of filters and further filters are those of both.
proof fn lemma_constraints_join(
    ids: Map<Seq<char>, i32>,
    filters: Seq<Expr>,
    more: Seq<Expr>,
    i: int,
)
    requires
        0 <= i <= filters.len(),
    ensures
        all_predicates(ids, filters + more, i) == all_predicates(ids, filters, i)
            + all_predicates(ids, more, 0),
        all_lists(ids, filters + more, i) == all_lists(ids, filters, i) + all_lists(ids, more, 0),
    decreases filters.len() - i,
{
    let joined = filters + more;
    if i < filters.len() {
        lemma_constraints_join(ids, filters, more, i + 1);
        assert(joined[i] == filters[i]);
        assert(all_predicates(ids, joined, i) =~= all_predicates(ids, filters, i) + all_predicates(
            ids,
            more,
            0,
        ));
        assert(all_lists(ids, joined, i) =~= all_lists(ids, filters, i) + all_lists(ids, more, 0));
    } else {
        lemma_constraints_shift(ids, filters, more, 0);
        assert(all_predicates(ids, filters, i) + all_predicates(ids, more, 0) =~= all_predicates(
            ids,
            more,
            0,
        ));
        assert(all_lists(ids, filters, i) + all_lists(ids, more, 0) =~= all_lists(ids, more, 0));
    }
}

proof fn lemma_constraints_shift(
    ids: Map<Seq<char>, i32>,
    filters: Seq<Expr>,
    more: Seq<Expr>,
    k: int,
)
    requires
        0 <= k <= more.len(),
    ensures
        all_predicates(ids, filters + more, filters.len() + k) == all_predicates(ids, more, k),
        all_lists(ids, filters + more, filters.len() + k) == all_lists(ids, more, k),
    decreases more.len() - k,
{
    if k < more.len() {
        assert((filters + more)[filters.len() + k] == more[k]);
        lemma_constraints_shift(ids, filters, more, k + 1);
    }
}

/// Further filters never make a scan read more.
pub proof fn law_more_filters_read_less(
    zs: Seq<ZoneModel>,
    blooms: Option<Seq<EntryModel>>,
    ids: Map<Seq<char>, i32>,
    filters: Seq<Expr>,
    more: Seq<Expr>,
    i: usize,
)
    requires
        zs.len() <= usize::MAX,
        zones_to_read(zs, blooms, ids, filters + more).contains(i),
    ensures
        zones_to_read(zs, blooms, ids, filters).contains(i),
        zones_to_read(zs, blooms, ids, more).contains(i),
{
    let (ps, ls) = (all_predicates(ids, filters, 0), all_lists(ids, filters, 0));
    let (qs, ms) = (all_predicates(ids, more, 0), all_lists(ids, more, 0));
    lemma_constraints_join(ids, filters, more, 0);
    law_survivors_are_the_surviving_positions(zs, blooms, ps + qs, ls + ms, i);
    law_survivors_are_the_surviving_positions(zs, blooms, ps, ls, i);
    law_survivors_are_the_surviving_positions(zs, blooms, qs, ms, i);
    let id = zs[i as int].zone_id;
    assert forall|k: int| 0 <= k < ps.len() implies id_kept(zs, blooms, #[trigger] ps[k], id) by {
        assert((ps + qs)[k] == ps[k]);
    }
    assert forall|k: int| 0 <= k < ls.len() implies id_kept_for_any(
        zs,
        blooms,
        #[trigger] ls[k],
        id,
    ) by {
        assert((ls + ms)[k] == ls[k]);
    }
    assert forall|k: int| 0 <= k < qs.len() implies id_kept(zs, blooms, #[trigger] qs[k], id) by {
        assert((ps + qs)[ps.len() + k] == qs[k]);
    }
    assert forall|k: int| 0 <= k < ms.len() implies id_kept_for_any(
        zs,
        blooms,
        #[trigger] ms[k],
        id,
    ) by {
        assert((ls + ms)[ls.len() + k] == ms[k]);
    }
}

/// The data of a list are those of its literals, one by one.
proof fn lemma_list_data(list: Seq<Expr>, i: int, j: int)
    requires
        0 <= i <= j < list.len(),
        list_data(list, i) is Some,
    ensures
        list_data(list, i)->0.len() == list.len() - i,
        list[j] matches Expr::Literal(s) && index_datum(s) == Some(list_data(list, i)->0[j - i]),
    decreases list.len() - i,
{
    lemma_list_len(list, i);
    if i < j {
        lemma_list_data(list, i + 1, j);
    }
}

proof fn lemma_list_len(list: Seq<Expr>, i: int)
    requires
        0 <= i <= list.len(),
        list_data(list, i) is Some,
    ensures
        list_data(list, i)->0.len() == list.len() - i,
    decreases list.len() - i,
{
    if i < list.len() {
        lemma_list_len(list, i + 1);
    }
}

/// `column IN (v1, .., vn)` reads a zone exactly where one of the equalities `column = vj` does.
pub proof fn law_in_list_is_or_of_equalities(
    zs: Seq<ZoneModel>,
    blooms: Option<Seq<EntryModel>>,
    ids: Map<Seq<char>, i32>,
    column: String,
    list: Vec<Expr>,
    i: usize,
)
    requires
        zs.len() <= usize::MAX,
        in_list(ids, Expr::Column(column), list@, false) is Some,
    ensures
        zones_to_read(
            zs,
            blooms,
            ids,
            seq![Expr::InList { expr: Box::new(Expr::Column(column)), list, negated: false }],
        ).contains(i) <==> exists|j: int|
            0 <= j < list@.len() && #[trigger] zones_to_read(
                zs,
                blooms,
                ids,
                seq![equality(column, list@[j])],
            ).contains(i),
{
    let e = Expr::InList { expr: Box::new(Expr::Column(column)), list, negated: false };
    let (f, all) = in_list(ids, Expr::Column(column), list@, false)->0;
    let ds = list_data(list@, 0)->0;
    reveal_with_fuel(all_predicates, 2);
    reveal_with_fuel(all_lists, 2);
    assert(all_predicates(ids, seq![e], 0) =~= Seq::<PredicateModel>::empty());
    assert(all_lists(ids, seq![e], 0) =~= seq![(f, all)]);
    lemma_list_len(list@, 0);
    lemma_one_list(zs, blooms, (f, all), i);
    let id = zs[i as int].zone_id;
    assert forall|j: int| 0 <= j < list@.len() implies (#[trigger] zones_to_read(
        zs,
        blooms,
        ids,
        seq![equality(column, list@[j])],
    ).contains(i) <==> i < zs.len() && id_kept_for_any(
        zs,
        blooms,
        (f, if is_zero(ds[j]) {
            zeros()
        } else {
            seq![ds[j]]
        }),
        id,
    )) by {
        lemma_list_data(list@, 0, j);
        let eq = equality(column, list@[j]);
        if is_zero(ds[j]) {
            assert(all_predicates(ids, seq![eq], 0) =~= Seq::<PredicateModel>::empty());
            assert(all_lists(ids, seq![eq], 0) =~= seq![(f, zeros())]);
            lemma_one_list(zs, blooms, (f, zeros()), i);
        } else {
            let p = PredicateModel::Eq(f, ds[j]);
            assert(all_predicates(ids, seq![eq], 0) =~= seq![p]);
            assert(all_lists(ids, seq![eq], 0) =~= Seq::<(i32, Seq<Datum>)>::empty());
            law_survivors_are_the_surviving_positions(zs, blooms, seq![p], Seq::empty(), i);
            assert(seq![p][0] == p);
            assert(seq![ds[j]][0] == ds[j]);
            if i < zs.len() && id_survives(zs, blooms, seq![p], Seq::empty(), id) {
                assert(id_kept(zs, blooms, seq![p][0], id));
            }
        }
    }
    if exists|j: int|
        0 <= j < list@.len() && #[trigger] zones_to_read(
            zs,
            blooms,
            ids,
            seq![equality(column, list@[j])],
        ).contains(i) {
        let j = choose|j: int|
            0 <= j < list@.len() && #[trigger] zones_to_read(
                zs,
                blooms,
                ids,
                seq![equality(column, list@[j])],
            ).contains(i);
        let part = if is_zero(ds[j]) {
            zeros()
        } else {
            seq![ds[j]]
        };
        assert(id_kept_for_any(zs, blooms, (f, part), id));
        let m = choose|m: int|
            0 <= m < part.len() && id_kept(zs, blooms, PredicateModel::Eq(f, #[trigger] part[m]), id);
        let k: int = if is_zero(ds[j]) {
            ds.len() + m
        } else {
            j
        };
        assert(all[k] == part[m]);
        assert(id_kept_for_any(zs, blooms, (f, all), id));
    }
    if i < zs.len() && id_kept_for_any(zs, blooms, (f, all), id) {
        let m = choose|m: int|
            0 <= m < all.len() && id_kept(zs, blooms, PredicateModel::Eq(f, #[trigger] all[m]), id);
        let j = if m < ds.len() {
            m
        } else {
            choose|j: int| 0 <= j < ds.len() && is_zero(#[trigger] ds[j])
        };
        let part = if is_zero(ds[j]) {
            zeros()
        } else {
            seq![ds[j]]
        };
        let k: int = if !is_zero(ds[j]) || all[m] == zeros()[0] {
            0
        } else {
            1
        };
        assert(part[k] == all[m]);
        assert(id_kept_for_any(zs, blooms, (f, part), id));
        assert(zones_to_read(zs, blooms, ids, seq![equality(column, list@[j])]).contains(i));
    }
}

/// One list alone reads the zones that are kept for one of its data.
proof fn lemma_one_list(
    zs: Seq<ZoneModel>,
    blooms: Option<Seq<EntryModel>>,
    l: (i32, Seq<Datum>),
    i: usize,
)
    requires
        zs.len() <= usize::MAX,
    ensures
        survivors(zs, blooms, Seq::empty(), seq![l], 0).contains(i) <==> i < zs.len()
            && id_kept_for_any(zs, blooms, l, zs[i as int].zone_id),
{
    law_survivors_are_the_surviving_positions(zs, blooms, Seq::empty(), seq![l], i);
    assert(seq![l][0] == l);
    if i < zs.len() {
        let id = zs[i as int].zone_id;
        if id_survives(zs, blooms, Seq::empty(), seq![l], id) {
            assert(id_kept_for_any(zs, blooms, seq![l][0], id));
        }
        if id_kept_for_any(zs, blooms, l, id) {
            assert(id_survives(zs, blooms, Seq::empty(), seq![l], id));
        }
    }
}

/// `column = item`.
pub open spec fn equality(column: String, item: Expr) -> Expr {
    Expr::BinaryExpr {
        left: Box::new(Expr::Column(column)),
        op: Operator::Eq,
        right: Box::new(item),
    }
}

/// Translating a literal keeps its value: a boolean stays that boolean, an integer that number,
/// a string becomes all of its UTF-8 bytes and nothing else, a decimal keeps its unscaled number
/// and its scale, a float its pattern or, if it is a narrow one, its number; a date in days and
/// times in microseconds stay as they are.
pub proof fn law_plain_literals_keep_their_value(
    b: bool,
    x: i64,
    y: i32,
    t: String,
    unscaled: i128,
    precision: u8,
    scale: i8,
    bits: u64,
    narrow: u32,
)
    ensures
        literal_datum(ScalarValue::Boolean(Some(b))) == Some(Datum::Bool(b)),
        literal_datum(ScalarValue::Int64(Some(x))) == Some(Datum::I64(x)),
        literal_datum(ScalarValue::Int32(Some(y))) matches Some(Datum::I64(z)) && z == y,
        literal_datum(ScalarValue::Utf8(Some(t))) matches Some(Datum::Bytes(s))
            && vstd::utf8::valid_utf8(s) && vstd::utf8::decode_utf8(s) == t@,
        literal_datum(ScalarValue::LargeUtf8(Some(t))) matches Some(Datum::Bytes(s))
            && vstd::utf8::valid_utf8(s) && vstd::utf8::decode_utf8(s) == t@,
        literal_datum(ScalarValue::Decimal128(Some(unscaled), precision, scale)) == Some(
            Datum::Decimal { unscaled, scale: scale as i32 },
        ),
        literal_datum(ScalarValue::Float64(Some(bits))) == Some(Datum::F64(bits)),
        literal_datum(ScalarValue::Float32(Some(narrow))) matches Some(Datum::F64(w))
            && float::is_nan(w) == float::is_nan32(narrow) && (!float::is_nan32(narrow)
            ==> float::units(w) == float::units_32(narrow)),
        literal_datum(ScalarValue::Date32(Some(y))) == Some(Datum::Date(y)),
        literal_datum(ScalarValue::TimestampMicrosecond(Some(x))) == Some(Datum::Timestamp(x)),
        literal_datum(ScalarValue::Time64Microsecond(Some(x))) == Some(Datum::Time(x)),
{
    vstd::utf8::encode_utf8_valid_utf8(t@);
    vstd::utf8::encode_utf8_decode_utf8(t@);
    float::law_widening_keeps_the_number(narrow);
}

/// Whether a literal says something that an index could compare with: it is not null and of a
/// type that is indexed.
pub open spec fn says_something(s: ScalarValue) -> bool {
    match s {
        ScalarValue::Int64(v) => v is Some,
        ScalarValue::Int32(v) => v is Some,
        ScalarValue::Float64(v) => v is Some,
        ScalarValue::Float32(v) => v is Some,
        ScalarValue::Utf8(v) => v is Some,
        ScalarValue::LargeUtf8(v) => v is Some,
        ScalarValue::Boolean(v) => v is Some,
        ScalarValue::Decimal128(v, _, _) => v is Some,
        ScalarValue::Date32(v) => v is Some,
        ScalarValue::Date64(v) => v is Some,
        ScalarValue::TimestampSecond(v) => v is Some,
        ScalarValue::TimestampMillisecond(v) => v is Some,
        ScalarValue::TimestampMicrosecond(v) => v is Some,
        ScalarValue::TimestampNanosecond(v) => v is Some,
        ScalarValue::Time32Second(v) => v is Some,
        ScalarValue::Time32Millisecond(v) => v is Some,
        ScalarValue::Time64Microsecond(v) => v is Some,
        ScalarValue::Time64Nanosecond(v) => v is Some,
        ScalarValue::Other => false,
    }
}

/// Which literals are translated: all that say something, but for timestamps in seconds or
/// milliseconds whose microseconds do not fit in 64 bits. Of these an index prunes by all but
/// the dates in milliseconds whose days do not fit in 32 bits.
pub proof fn law_literals_that_fit_are_translated(s: ScalarValue)
    ensures
        literal_datum(s) is Some <==> says_something(s) && (match s {
            ScalarValue::TimestampSecond(Some(t)) => i64::MIN <= t * 1_000_000 <= i64::MAX,
            ScalarValue::TimestampMillisecond(Some(t)) => i64::MIN <= t * 1_000 <= i64::MAX,
            _ => true,
        }),
        index_datum(s) is Some <==> literal_datum(s) is Some && (match s {
            ScalarValue::Date64(Some(ms)) => (i32::MIN - 1) * 86_400_000 < ms < (i32::MAX + 1)
                * 86_400_000,
            _ => true,
        }),
        index_datum(s) is Some ==> index_datum(s) == literal_datum(s),
{
}

/// The datum of a literal stands to the literal as its equal, where it is a whole number of the
/// units of an index and not a NaN; and only one datum does, but for the two zeros of a float.
#[verifier::rlimit(40)]
pub proof fn law_translated_literals_equal_themselves(s: ScalarValue, d: Datum)
    requires
        index_datum(s) is Some,
        whole_units(s),
    ensures
        s matches ScalarValue::Float64(Some(v)) ==> (float::is_nan(v) <==> stands_to(
            index_datum(s)->0,
            s,
        ) is None),
        s matches ScalarValue::Float32(Some(v)) ==> (float::is_nan32(v) <==> stands_to(
            index_datum(s)->0,
            s,
        ) is None),
        !(s is Float64) && !(s is Float32) ==> stands_to(index_datum(s)->0, s) is Some,
        stands_to(index_datum(s)->0, s) is Some ==> stands_to(index_datum(s)->0, s) == Some(
            Order::Equal,
        ),
        stands_to(d, s) == Some(Order::Equal) ==> d == index_datum(s)->0 || is_zero(d) && is_zero(
            index_datum(s)->0,
        ),
{
    let v = index_datum(s)->0;
    match s {
        ScalarValue::Float32(Some(narrow)) => {
            float::law_widening_keeps_the_number(narrow);
        },
        ScalarValue::Utf8(Some(t)) => {
            let b = vstd::utf8::encode_utf8(t@);
            prune::law_bytes_order_at_first_difference(b, b, b.len() as int);
        },
        ScalarValue::LargeUtf8(Some(t)) => {
            let b = vstd::utf8::encode_utf8(t@);
            prune::law_bytes_order_at_first_difference(b, b, b.len() as int);
        },
        _ => {},
    }
    if literal_nanos(s) is Some {
        law_temporal_literals_keep_their_time(s);
    }
    if stands_to(d, s) == Some(Order::Equal) {
        lemma_rounding(Operator::Eq, d, s);
        lemma_equal_exactly(d, v);
    }
}

/// A time that is finer than the units of an index is rounded: nanoseconds down to the
/// microsecond before, a date in milliseconds toward 1970 to a whole day.
pub proof fn law_fine_literals_are_rounded(t: i64)
    ensures
        literal_datum(ScalarValue::TimestampNanosecond(Some(t))) matches Some(Datum::Timestamp(u))
            && u * 1_000 <= t < u * 1_000 + 1_000,
        literal_datum(ScalarValue::Time64Nanosecond(Some(t))) matches Some(Datum::Time(u)) && u
            * 1_000 <= t < u * 1_000 + 1_000,
        index_datum(ScalarValue::Date64(Some(t))) is Some ==> (index_datum(
            ScalarValue::Date64(Some(t)),
        ) matches Some(Datum::Date(day)) && (t >= 0 ==> day * 86_400_000 <= t < day * 86_400_000
            + 86_400_000) && (t <= 0 ==> day * 86_400_000 - 86_400_000 < t <= day * 86_400_000)),
{
}

/// Turning a comparison round means the same: `5 < x` is `x > 5`.
pub proof fn law_flipped_operators_mean_the_same(op: Operator, o: Option<Order>)
    ensures
        compares(flipped(op), mirrored(o)) == compares(op, o),
        op is Eq ==> flipped(op) is Eq,
        op is Lt ==> flipped(op) is Gt,
        op is Gt ==> flipped(op) is Lt,
        op is LtEq ==> flipped(op) is GtEq,
        op is GtEq ==> flipped(op) is LtEq,
        op is NotEq || op is And || op is Other ==> flipped(op) == op,
{
}

/// Whether an operator compares in a way that bounds can tell.
pub open spec fn is_bounding(op: Operator) -> bool {
    op is Eq || op is Lt || op is LtEq || op is Gt || op is GtEq
}

/// A predicate is made of the operators that bounds can tell, and means what they say.
pub proof fn law_predicates_mean_the_operator(field_id: i32, op: Operator, v: Datum, d: Datum)
    ensures
        predicate_of(field_id, op, v) is Some <==> is_bounding(op),
        predicate_of(field_id, op, v) matches Some(p) ==> p.field() == field_id
            && prune::asks_about(p, v) && (p.accepts(d) <==> compares(op, prune::order(d, v))),
{
}

/// Strict bounds are translated exactly, however fine the literal: the rounded comparison holds
/// of a datum if and only if the comparison with the literal itself does. Where the literal is a
/// whole number of units, every comparison is, and keeps its operator.
#[verifier::rlimit(40)]
pub proof fn law_translated_bounds_are_exact(op: Operator, s: ScalarValue, d: Datum)
    requires
        index_datum(s) is Some,
        is_bounding(op),
    ensures
        op is Lt || op is Gt || whole_units(s) ==> (compares(
            loosened(op, s),
            prune::order(d, index_datum(s)->0),
        ) <==> compares(op, stands_to(d, s))),
        whole_units(s) || op is Eq || op is LtEq || op is GtEq ==> loosened(op, s) == op,
        op is Lt ==> loosened(op, s) is Lt || loosened(op, s) is LtEq,
        op is Gt ==> loosened(op, s) is Gt || loosened(op, s) is GtEq,
{
    match (d, s) {
        (Datum::F64(x), ScalarValue::Float64(Some(v))) => {
            prune::law_floats_order_as_numbers(x, v);
        },
        (Datum::F64(x), ScalarValue::Float32(Some(v))) => {
            float::law_widening_keeps_the_number(v);
            prune::law_floats_order_as_numbers(x, float::widen(v) as u64);
        },
        _ => {},
    }
    if literal_nanos(s) is Some && whole_units(s) {
        law_temporal_literals_keep_their_time(s);
    }
    law_fine_literals_are_rounded(
        match s {
            ScalarValue::TimestampNanosecond(Some(t)) => t,
            ScalarValue::Time64Nanosecond(Some(t)) => t,
            ScalarValue::Date64(Some(t)) => t,
            _ => 0,
        },
    );
}

/// A comparison of a column with a literal is the same from either side; of anything else there
/// is none, nor of a column that is not indexed.
pub proof fn law_comparisons_have_two_sides(
    ids: Map<Seq<char>, i32>,
    column: String,
    op: Operator,
    s: ScalarValue,
    left: Expr,
    right: Expr,
)
    ensures
        comparison(ids, Expr::Literal(s), op, Expr::Column(column)) == comparison(
            ids,
            Expr::Column(column),
            flipped(op),
            Expr::Literal(s),
        ),
        zero_list(ids, Expr::Literal(s), op, Expr::Column(column)) == zero_list(
            ids,
            Expr::Column(column),
            flipped(op),
            Expr::Literal(s),
        ),
        !(left is Column && right is Literal) && !(left is Literal && right is Column)
            ==> comparison(ids, left, op, right) is None && zero_list(ids, left, op, right) is None,
        !ids.contains_key(column@) ==> comparison(
            ids,
            Expr::Column(column),
            op,
            Expr::Literal(s),
        ) is None && zero_list(ids, Expr::Column(column), op, Expr::Literal(s)) is None,
{
}

/// A comparison of an indexed column with a literal becomes one constraint on the field of that
/// column. An equality with a float zero asks for both zeros; any other comparison that bounds
/// can tell is a predicate that accepts a datum, where the literal is whole, if and only if the
/// comparison holds of it.
#[verifier::rlimit(40)]
pub proof fn law_comparisons_mean_what_they_say(
    ids: Map<Seq<char>, i32>,
    column: String,
    op: Operator,
    s: ScalarValue,
    d: Datum,
)
    requires
        ids.contains_key(column@),
        index_datum(s) is Some,
    ensures
        is_bounding(op) && !(op is Eq && is_zero(index_datum(s)->0)) ==> {
            &&& comparison(ids, Expr::Column(column), op, Expr::Literal(s)) is Some
            &&& zero_list(ids, Expr::Column(column), op, Expr::Literal(s)) is None
            &&& {
                let p = comparison(ids, Expr::Column(column), op, Expr::Literal(s))->0;
                &&& p.field() == ids[column@]
                &&& prune::asks_about(p, index_datum(s)->0)
                &&& whole_units(s) || op is Lt || op is Gt ==> (p.accepts(d) <==> compares(
                    op,
                    stands_to(d, s),
                ))
            }
        },
        op is Eq && is_zero(index_datum(s)->0) ==> {
            &&& comparison(ids, Expr::Column(column), op, Expr::Literal(s)) is None
            &&& zero_list(ids, Expr::Column(column), op, Expr::Literal(s)) == Some(
                (ids[column@], seq![Datum::F64(0), Datum::F64(0x8000_0000_0000_0000)]),
            )
        },
        !is_bounding(op) ==> comparison(ids, Expr::Column(column), op, Expr::Literal(s)) is None
            && zero_list(ids, Expr::Column(column), op, Expr::Literal(s)) is None,
{
    if is_bounding(op) {
        law_translated_bounds_are_exact(op, s, d);
        law_predicates_mean_the_operator(
            ids[column@],
            loosened(op, s),
            index_datum(s)->0,
            d,
        );
    }
}

/// A float zero is one of the two patterns whose number is 0.
pub proof fn law_zeros_are_the_number_zero(b: u64)
    ensures
        is_zero(Datum::F64(b)) <==> float::units(b) == 0,
        forall|d: Datum| #[trigger] is_zero(d) ==> d is F64,
        is_zero(Datum::F64(b)) ==> zeros().contains(Datum::F64(b)),
        zeros().len() == 2,
        zeros()[0] != zeros()[1],
        is_zero(zeros()[0]) && is_zero(zeros()[1]),
{
    float::law_key_orders_zero(b);
    assert(zeros()[0] == Datum::F64(0));
    assert(zeros()[1] == Datum::F64(0x8000_0000_0000_0000));
}

/// Which filters an index can use: an `AND` if it can use a side; a comparison of an indexed
/// column with a translatable literal by an operator that bounds can tell; an IN-list of an
/// indexed column, not negated and not empty, whose items are all translatable literals; and
/// nothing else.
#[verifier::rlimit(40)]
pub proof fn law_usable_filters(
    ids: Map<Seq<char>, i32>,
    a: Expr,
    b: Expr,
    column: String,
    op: Operator,
    s: ScalarValue,
    list: Vec<Expr>,
    negated: bool,
)
    ensures
        usable(
            ids,
            Expr::BinaryExpr { left: Box::new(a), op: Operator::And, right: Box::new(b) },
        ) <==> usable(ids, a) || usable(ids, b),
        !(op is And) ==> (usable(
            ids,
            Expr::BinaryExpr {
                left: Box::new(Expr::Column(column)),
                op,
                right: Box::new(Expr::Literal(s)),
            },
        ) <==> ids.contains_key(column@) && index_datum(s) is Some && is_bounding(op)),
        !(op is And) ==> (usable(
            ids,
            Expr::BinaryExpr {
                left: Box::new(Expr::Literal(s)),
                op,
                right: Box::new(Expr::Column(column)),
            },
        ) <==> ids.contains_key(column@) && index_datum(s) is Some && is_bounding(op)),
        usable(
            ids,
            Expr::InList { expr: Box::new(Expr::Column(column)), list, negated },
        ) <==> ids.contains_key(column@) && !negated && list@.len() > 0 && forall|j: int|
            0 <= j < list@.len() ==> is_index_literal(#[trigger] list@[j]),
        !(a is Column) ==> !usable(ids, Expr::InList { expr: Box::new(a), list, negated }),
        a is Column || a is Literal || a is Other ==> !usable(ids, a),
{
    if ids.contains_key(column@) && index_datum(s) is Some {
        law_comparisons_mean_what_they_say(ids, column, op, s, Datum::Null);
        law_comparisons_mean_what_they_say(ids, column, flipped(op), s, Datum::Null);
    }
    law_comparisons_have_two_sides(ids, column, op, s, a, b);
    law_flipped_operators_mean_the_same(op, None);
    lemma_list_translates(list@, 0);
}

/// Whether an item of a list is a literal that an index can prune by.
pub open spec fn is_index_literal(e: Expr) -> bool {
    e matches Expr::Literal(s) && index_datum(s) is Some
}

/// A list translates if and only if each of its items does.
proof fn lemma_list_translates(list: Seq<Expr>, i: int)
    requires
        0 <= i <= list.len(),
    ensures
        list_data(list, i) is Some <==> forall|j: int|
            i <= j < list.len() ==> is_index_literal(#[trigger] list[j]),
        list_data(list, i) matches Some(ds) ==> ds.len() == list.len() - i,
    decreases list.len() - i,
{
    if i < list.len() {
        lemma_list_translates(list, i + 1);
        if forall|j: int| i <= j < list.len() ==> is_index_literal(#[trigger] list[j]) {
            assert(is_index_literal(list[i]));
        }
    }
}

/// Filters prune one by one: a zone is read if and only if each filter alone reads it.
pub proof fn law_filters_prune_one_by_one(
    zs: Seq<ZoneModel>,
    blooms: Option<Seq<EntryModel>>,
    ids: Map<Seq<char>, i32>,
    filters: Seq<Expr>,
    i: usize,
)
    requires
        zs.len() <= usize::MAX,
        i < zs.len(),
    ensures
        zones_to_read(zs, blooms, ids, filters).contains(i) <==> forall|k: int|
            0 <= k < filters.len() ==> zones_to_read(
                zs,
                blooms,
                ids,
                seq![#[trigger] filters[k]],
            ).contains(i),
    decreases filters.len(),
{
    if filters.len() == 0 {
        law_survivors_are_the_surviving_positions(
            zs,
            blooms,
            all_predicates(ids, filters, 0),
            all_lists(ids, filters, 0),
            i,
        );
    } else {
        let before = filters.drop_last();
        let last = seq![filters.last()];
        assert(before + last =~= filters);
        law_filters_prune_one_by_one(zs, blooms, ids, before, i);
        lemma_both_read(zs, blooms, ids, before, last, i);
        let both = zones_to_read(zs, blooms, ids, filters).contains(i);
        if both {
            assert forall|k: int| 0 <= k < filters.len() implies zones_to_read(
                zs,
                blooms,
                ids,
                seq![#[trigger] filters[k]],
            ).contains(i) by {
                if k < before.len() {
                    assert(before[k] == filters[k]);
                }
            }
        }
        if forall|k: int|
            0 <= k < filters.len() ==> zones_to_read(
                zs,
                blooms,
                ids,
                seq![#[trigger] filters[k]],
            ).contains(i) {
            assert forall|k: int| 0 <= k < before.len() implies zones_to_read(
                zs,
                blooms,
                ids,
                seq![#[trigger] before[k]],
            ).contains(i) by {
                assert(before[k] == filters[k]);
            }
            assert(filters[filters.len() - 1] == filters.last());
        }
    }
}

/// A zone that filters and further filters read each is read by all of them.
proof fn lemma_both_read(
    zs: Seq<ZoneModel>,
    blooms: Option<Seq<EntryModel>>,
    ids: Map<Seq<char>, i32>,
    filters: Seq<Expr>,
    more: Seq<Expr>,
    i: usize,
)
    requires
        zs.len() <= usize::MAX,
        i < zs.len(),
    ensures
        zones_to_read(zs, blooms, ids, filters + more).contains(i) <==> zones_to_read(
            zs,
            blooms,
            ids,
            filters,
        ).contains(i) && zones_to_read(zs, blooms, ids, more).contains(i),
{
    if zones_to_read(zs, blooms, ids, filters + more).contains(i) {
        law_more_filters_read_less(zs, blooms, ids, filters, more, i);
    }
    let (ps, ls) = (all_predicates(ids, filters, 0), all_lists(ids, filters, 0));
    let (qs, ms) = (all_predicates(ids, more, 0), all_lists(ids, more, 0));
    lemma_constraints_join(ids, filters, more, 0);
    law_survivors_are_the_surviving_positions(zs, blooms, ps + qs, ls + ms, i);
    law_survivors_are_the_surviving_positions(zs, blooms, ps, ls, i);
    law_survivors_are_the_surviving_positions(zs, blooms, qs, ms, i);
    let id = zs[i as int].zone_id;
    if id_survives(zs, blooms, ps, ls, id) && id_survives(zs, blooms, qs, ms, id) {
        assert forall|k: int| 0 <= k < (ps + qs).len() implies id_kept(
            zs,
            blooms,
            #[trigger] (ps + qs)[k],
            id,
        ) by {
            if k < ps.len() {
                assert(id_kept(zs, blooms, ps[k], id));
            } else {
                assert(id_kept(zs, blooms, qs[k - ps.len()], id));
            }
        }
        assert forall|k: int| 0 <= k < (ls + ms).len() implies id_kept_for_any(
            zs,
            blooms,
            #[trigger] (ls + ms)[k],
            id,
        ) by {
            if k < ls.len() {
                assert(id_kept_for_any(zs, blooms, ls[k], id));
            } else {
                assert(id_kept_for_any(zs, blooms, ms[k - ls.len()], id));
            }
        }
    }
}

/// A single comparison reads the zones that its predicate keeps: those whose stats and filter
/// leave room for a value that it accepts, and any other of the same id.
pub proof fn law_single_comparisons_read_the_kept_zones(
    zs: Seq<ZoneModel>,
    blooms: Option<Seq<EntryModel>>,
    ids: Map<Seq<char>, i32>,
    left: Expr,
    op: Operator,
    right: Expr,
    p: PredicateModel,
    i: usize,
)
    requires
        zs.len() <= usize::MAX,
        i < zs.len(),
        !(op is And),
        comparison(ids, left, op, right) == Some(p),
    ensures
        zones_to_read(
            zs,
            blooms,
            ids,
            seq![Expr::BinaryExpr { left: Box::new(left), op, right: Box::new(right) }],
        ).contains(i) <==> exists|k: int|
            0 <= k < zs.len() && (#[trigger] zs[k]).zone_id == zs[i as int].zone_id && prune::kept(
                zs[k],
                blooms,
                p,
            ),
{
    let e = Expr::BinaryExpr { left: Box::new(left), op, right: Box::new(right) };
    reveal_with_fuel(all_predicates, 2);
    reveal_with_fuel(all_lists, 2);
    assert(zero_list(ids, left, op, right) is None);
    assert(all_predicates(ids, seq![e], 0) =~= seq![p]);
    assert(all_lists(ids, seq![e], 0) =~= Seq::<(i32, Seq<Datum>)>::empty());
    law_survivors_are_the_surviving_positions(zs, blooms, seq![p], Seq::empty(), i);
    let id = zs[i as int].zone_id;
    prune::law_kept_ids_are_the_kept_zones(zs, blooms, p, id);
    assert(seq![p][0] == p);
    if id_survives(zs, blooms, seq![p], Seq::empty(), id) {
        assert(id_kept(zs, blooms, seq![p][0], id));
    }
}

/// A date in milliseconds becomes its day, counted toward 1970 and cut to 32 bits.
pub proof fn law_dates_in_millis_are_cut_to_days(ms: i64, days: int)
    requires
        ms >= 0 ==> days * 86_400_000 <= ms < days * 86_400_000 + 86_400_000,
        ms <= 0 ==> days * 86_400_000 - 86_400_000 < ms <= days * 86_400_000,
    ensures
        literal_datum(ScalarValue::Date64(Some(ms))) matches Some(Datum::Date(d)) && (days - d)
            % 0x1_0000_0000 == 0,
{
    assert(toward_zero(ms as int, 86_400_000) == days);
}

/// Coarser times are scaled up to microseconds, where they fit: seconds by a million,
/// milliseconds by a thousand.
pub proof fn law_coarse_literals_scale_up(t: i64, u: i32)
    ensures
        i64::MIN <= t * 1_000_000 <= i64::MAX ==> (literal_datum(
            ScalarValue::TimestampSecond(Some(t)),
        ) matches Some(Datum::Timestamp(v)) && v == t * 1_000_000),
        i64::MIN <= t * 1_000 <= i64::MAX ==> (literal_datum(
            ScalarValue::TimestampMillisecond(Some(t)),
        ) matches Some(Datum::Timestamp(v)) && v == t * 1_000),
        literal_datum(ScalarValue::Time32Second(Some(u))) matches Some(Datum::Time(v)) && v == u
            * 1_000_000,
        literal_datum(ScalarValue::Time32Millisecond(Some(u))) matches Some(Datum::Time(v)) && v
            == u * 1_000,
{
}

/// Whether a filter is used is answered for each filter by itself, in order: `Inexact` for one
/// that an index can use, `Unsupported` for any other.
pub proof fn law_verdicts_are_per_filter(
    ids: &FieldIds,
    filters: &[&Expr],
    verdicts: Vec<FilterPushDown>,
    k: int,
)
    requires
        call_ensures(filters_pushdown, (ids, filters), verdicts),
        0 <= k < filters@.len(),
    ensures
        verdicts@.len() == filters@.len(),
        usable(ids@, *filters@[k]) ==> verdicts@[k] is Inexact,
        !usable(ids@, *filters@[k]) ==> verdicts@[k] is Unsupported,
{
}

/// A literal becomes the value that says the same.
pub proof fn law_values_are_those_of_the_literals(s: ScalarValue, r: Option<Value>)
    requires
        call_ensures(scalar_to_value, (&s,), r),
    ensures
        literal_datum(s) is None <==> r is None,
        r matches Some(v) ==> literal_datum(s) == Some(v@),
        r matches Some(v) ==> (s matches ScalarValue::Boolean(Some(b)) ==> v@ == Datum::Bool(b)),
        r matches Some(v) ==> (s matches ScalarValue::Int64(Some(x)) ==> v@ == Datum::I64(x)),
        index_datum(s) is Some && whole_units(s) && stands_to(index_datum(s)->0, s) is Some ==> (
        r matches Some(v) && stands_to(v@, s) == Some(Order::Equal)),
{
    if index_datum(s) is Some && whole_units(s) {
        law_translated_literals_equal_themselves(s, Datum::Null);
    }
}

/// A temporal literal keeps its kind: a date stays a date, a time of day a time of day, a
/// timestamp a timestamp, and nothing else becomes one.
pub proof fn law_temporal_literals_keep_their_kind(d: Datum, s: ScalarValue)
    requires
        literal_datum(s) is Some,
    ensures
        same_temporal_kind(d, literal_datum(s)->0) <==> temporal_kinds_match(d, s),
{
}

} // verus!
