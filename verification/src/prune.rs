//! Turn a predicate and a [`ZoneMap`] into the set of zones an engine must still
//! read.
//!
//! Pruning is *conservative*: a zone is skipped only when the index proves that no
//! row in it can satisfy the predicate. If the bounds are missing, the types are
//! incomparable, or a float bound is NaN, the zone survives (is read).
use crate::bloom;
use crate::bloom::EntryModel;
use crate::bloom::ZoneBlooms;
use crate::float;
use crate::zonemap;
use crate::zonemap::ColumnModel;
use crate::zonemap::Datum;
use crate::zonemap::Value;
use crate::zonemap::ZoneMap;
use crate::zonemap::ZoneModel;
use crate::zonemap::ZoneStats;
use vstd::prelude::*;
use vstd::utf8::encode_scalar;
use vstd::utf8::encode_utf8;

verus! {

/// How two values stand to each other.
#[derive(Clone, Copy, Debug, PartialEq, Eq, Structural)]
pub enum Order {
    Less,
    Equal,
    Greater,
}

pub open spec fn int_order(a: int, b: int) -> Order {
    if a < b {
        Order::Less
    } else if a == b {
        Order::Equal
    } else {
        Order::Greater
    }
}

/// Lexicographic order of byte strings, a proper prefix first. On UTF-8 this is code-point
/// order.
pub open spec fn bytes_order(a: Seq<u8>, b: Seq<u8>) -> Order
    decreases a.len(),
{
    if a.len() == 0 {
        if b.len() == 0 {
            Order::Equal
        } else {
            Order::Less
        }
    } else if b.len() == 0 {
        Order::Greater
    } else if a[0] == b[0] {
        bytes_order(a.drop_first(), b.drop_first())
    } else {
        int_order(a[0] as int, b[0] as int)
    }
}

/// The order of two data. `None`: they cannot be compared (different kinds, a `Null`, a NaN,
/// or decimals of different scale).
pub open spec fn order(a: Datum, b: Datum) -> Option<Order> {
    match (a, b) {
        (Datum::Bool(x), Datum::Bool(y)) => Some(
            int_order(
                if x {
                    1
                } else {
                    0
                },
                if y {
                    1
                } else {
                    0
                },
            ),
        ),
        (Datum::I64(x), Datum::I64(y)) => Some(int_order(x as int, y as int)),
        (Datum::F64(x), Datum::F64(y)) => if float::is_nan(x) || float::is_nan(y) {
            None
        } else {
            Some(int_order(float::float_key(x), float::float_key(y)))
        },
        (Datum::Bytes(x), Datum::Bytes(y)) => Some(bytes_order(x, y)),
        (
            Datum::Decimal { unscaled: x, scale: s },
            Datum::Decimal { unscaled: y, scale: t },
        ) => if s == t {
            Some(int_order(x as int, y as int))
        } else {
            None
        },
        (Datum::Date(x), Datum::Date(y)) => Some(int_order(x as int, y as int)),
        (Datum::Time(x), Datum::Time(y)) => Some(int_order(x as int, y as int)),
        (Datum::Timestamp(x), Datum::Timestamp(y)) => Some(int_order(x as int, y as int)),
        _ => None,
    }
}

proof fn lemma_bytes_order_mirror(a: Seq<u8>, b: Seq<u8>)
    ensures
        bytes_order(a, b) is Less <==> bytes_order(b, a) is Greater,
        bytes_order(a, b) is Equal <==> a == b,
        bytes_order(a, b) is Equal <==> bytes_order(b, a) is Equal,
    decreases a.len(),
{
    if a.len() == 0 || b.len() == 0 {
        assert(a.len() == b.len() ==> a =~= b);
    } else {
        lemma_bytes_order_mirror(a.drop_first(), b.drop_first());
        if a[0] == b[0] {
            assert(a =~= seq![a[0]] + a.drop_first());
            assert(b =~= seq![b[0]] + b.drop_first());
        }
    }
}

proof fn lemma_bytes_order_chains(a: Seq<u8>, b: Seq<u8>, c: Seq<u8>)
    requires
        bytes_order(a, b) is Less,
        bytes_order(b, c) is Less,
    ensures
        bytes_order(a, c) is Less,
    decreases a.len(),
{
    if a.len() > 0 && a[0] == b[0] && b[0] == c[0] {
        lemma_bytes_order_chains(a.drop_first(), b.drop_first(), c.drop_first());
    }
}

/// Turning two data round turns their order round.
pub proof fn law_order_mirrors(a: Datum, b: Datum)
    ensures
        order(a, b) == Some(Order::Less) <==> order(b, a) == Some(Order::Greater),
        order(a, b) == Some(Order::Equal) <==> order(b, a) == Some(Order::Equal),
        order(a, b) is None <==> order(b, a) is None,
{
    match (a, b) {
        (Datum::Bytes(x), Datum::Bytes(y)) => {
            lemma_bytes_order_mirror(x, y);
            lemma_bytes_order_mirror(y, x);
        },
        _ => {},
    }
}

/// The order chains: what is below or equal stays so through a third datum.
pub proof fn law_order_chains(a: Datum, b: Datum, c: Datum)
    ensures
        order(a, b) == Some(Order::Less) && order(b, c) == Some(Order::Less) ==> order(a, c) == Some(
            Order::Less,
        ),
        order(a, b) == Some(Order::Less) && order(b, c) == Some(Order::Equal) ==> order(a, c)
            == Some(Order::Less),
        order(a, b) == Some(Order::Equal) && order(b, c) == Some(Order::Less) ==> order(a, c)
            == Some(Order::Less),
        order(a, b) == Some(Order::Equal) && order(b, c) == Some(Order::Equal) ==> order(a, c)
            == Some(Order::Equal),
{
    match (a, b, c) {
        (Datum::Bytes(x), Datum::Bytes(y), Datum::Bytes(z)) => {
            lemma_bytes_order_mirror(x, y);
            lemma_bytes_order_mirror(y, z);
            if bytes_order(x, y) is Less && bytes_order(y, z) is Less {
                lemma_bytes_order_chains(x, y, z);
            }
        },
        _ => {},
    }
}

fn compare_bytes(a: &Vec<u8>, b: &Vec<u8>) -> (r: Order)
    ensures
        r == bytes_order(a@, b@),
{
    let mut i: usize = 0;
    proof {
        assert(a@.skip(0) =~= a@);
        assert(b@.skip(0) =~= b@);
    }
    while i < a.len() && i < b.len()
        invariant
            i <= a@.len(),
            i <= b@.len(),
            bytes_order(a@, b@) == bytes_order(a@.skip(i as int), b@.skip(i as int)),
        decreases a@.len() - i,
    {
        proof {
            assert(a@.skip(i as int).drop_first() =~= a@.skip(i + 1));
            assert(b@.skip(i as int).drop_first() =~= b@.skip(i + 1));
        }
        if a[i] < b[i] {
            return Order::Less;
        }
        if a[i] > b[i] {
            return Order::Greater;
        }
        i = i + 1;
    }
    if a.len() < b.len() {
        Order::Less
    } else if a.len() == b.len() {
        Order::Equal
    } else {
        Order::Greater
    }
}

fn compare_ints(a: i128, b: i128) -> (r: Order)
    ensures
        r == int_order(a as int, b as int),
{
    if a < b {
        Order::Less
    } else if a == b {
        Order::Equal
    } else {
        Order::Greater
    }
}

/// Ordering of two bounds. `None` = "cannot be compared" (different variants, a `Null` bound,
/// a NaN float, decimals of different scale): callers treat `None` as "don't skip".
pub fn compare(a: &Value, b: &Value) -> (r: Option<Order>)
    ensures
        r == order(a@, b@),
{
    match (a, b) {
        (Value::Bool(x), Value::Bool(y)) => Some(
            compare_ints(
                if *x {
                    1
                } else {
                    0
                },
                if *y {
                    1
                } else {
                    0
                },
            ),
        ),
        (Value::I64(x), Value::I64(y)) => Some(compare_ints(*x as i128, *y as i128)),
        (Value::F64(x), Value::F64(y)) => {
            match (float::number_key(*x), float::number_key(*y)) {
                (Some(p), Some(q)) => Some(compare_ints(p as i128, q as i128)),
                _ => None,
            }
        },
        (Value::Bytes(x), Value::Bytes(y)) => Some(compare_bytes(x, y)),
        (
            Value::Decimal { unscaled: x, scale: s },
            Value::Decimal { unscaled: y, scale: t },
        ) => {
            if *s == *t {
                Some(compare_ints(*x, *y))
            } else {
                None
            }
        },
        (Value::Date(x), Value::Date(y)) => Some(compare_ints(*x as i128, *y as i128)),
        (Value::Time(x), Value::Time(y)) => Some(compare_ints(*x as i128, *y as i128)),
        (Value::Timestamp(x), Value::Timestamp(y)) => Some(compare_ints(*x as i128, *y as i128)),
        _ => None,
    }
}

/// A single-column comparison predicate over an Iceberg field ID.
#[derive(Debug)]
pub enum Predicate {
    Eq(i32, Value),
    Lt(i32, Value),
    LtEq(i32, Value),
    Gt(i32, Value),
    GtEq(i32, Value),
}

/// What a [`Predicate`] says.
#[verifier::ext_equal]
pub enum PredicateModel {
    Eq(i32, Datum),
    Lt(i32, Datum),
    LtEq(i32, Datum),
    Gt(i32, Datum),
    GtEq(i32, Datum),
}

impl View for Predicate {
    type V = PredicateModel;

    open spec fn view(&self) -> PredicateModel {
        match self {
            Predicate::Eq(f, v) => PredicateModel::Eq(*f, v@),
            Predicate::Lt(f, v) => PredicateModel::Lt(*f, v@),
            Predicate::LtEq(f, v) => PredicateModel::LtEq(*f, v@),
            Predicate::Gt(f, v) => PredicateModel::Gt(*f, v@),
            Predicate::GtEq(f, v) => PredicateModel::GtEq(*f, v@),
        }
    }
}

impl PredicateModel {
    /// The field the predicate is about.
    pub open spec fn field(self) -> i32 {
        match self {
            PredicateModel::Eq(f, _) => f,
            PredicateModel::Lt(f, _) => f,
            PredicateModel::LtEq(f, _) => f,
            PredicateModel::Gt(f, _) => f,
            PredicateModel::GtEq(f, _) => f,
        }
    }

    /// Whether a column value satisfies the predicate.
    pub open spec fn accepts(self, d: Datum) -> bool {
        match self {
            PredicateModel::Eq(_, v) => order(d, v) == Some(Order::Equal),
            PredicateModel::Lt(_, v) => order(d, v) == Some(Order::Less),
            PredicateModel::LtEq(_, v) => order(d, v) == Some(Order::Less) || order(d, v) == Some(
                Order::Equal,
            ),
            PredicateModel::Gt(_, v) => order(d, v) == Some(Order::Greater),
            PredicateModel::GtEq(_, v) => order(d, v) == Some(Order::Greater) || order(d, v)
                == Some(Order::Equal),
        }
    }
}

impl Clone for Predicate {
    fn clone(&self) -> (r: Self)
        ensures
            r@ == self@,
    {
        match self {
            Predicate::Eq(f, v) => Predicate::Eq(*f, v.clone()),
            Predicate::Lt(f, v) => Predicate::Lt(*f, v.clone()),
            Predicate::LtEq(f, v) => Predicate::LtEq(*f, v.clone()),
            Predicate::Gt(f, v) => Predicate::Gt(*f, v.clone()),
            Predicate::GtEq(f, v) => Predicate::GtEq(*f, v.clone()),
        }
    }
}

impl Predicate {
    /// The field the predicate is about.
    pub fn field(&self) -> (r: i32)
        ensures
            r == self@.field(),
    {
        match self {
            Predicate::Eq(f, _) => *f,
            Predicate::Lt(f, _) => *f,
            Predicate::LtEq(f, _) => *f,
            Predicate::Gt(f, _) => *f,
            Predicate::GtEq(f, _) => *f,
        }
    }
}

/// Whether the bounds `[lo, hi]` leave no room for a value that the predicate accepts.
pub open spec fn out_of_bounds(lo: Datum, hi: Datum, pred: PredicateModel) -> bool {
    match pred {
        PredicateModel::Eq(_, v) => order(v, lo) == Some(Order::Less) || order(v, hi) == Some(
            Order::Greater,
        ),
        PredicateModel::Lt(_, v) => order(lo, v) == Some(Order::Greater) || order(lo, v) == Some(
            Order::Equal,
        ),
        PredicateModel::LtEq(_, v) => order(lo, v) == Some(Order::Greater),
        PredicateModel::Gt(_, v) => order(hi, v) == Some(Order::Less) || order(hi, v) == Some(
            Order::Equal,
        ),
        PredicateModel::GtEq(_, v) => order(hi, v) == Some(Order::Less),
    }
}

/// Whether the stats of a zone rule a predicate out: the column is all null, or its bounds
/// leave no room.
pub open spec fn ruled_out(z: ZoneModel, pred: PredicateModel) -> bool {
    match zonemap::first_column(z.columns, pred.field()) {
        Some(c) => c.value_count == 0 || out_of_bounds(c.min, c.max, pred),
        None => false,
    }
}

/// Whether a Bloom filter of a zone proves the value of an equality absent.
pub open spec fn filtered_out(
    z: ZoneModel,
    blooms: Option<Seq<EntryModel>>,
    pred: PredicateModel,
) -> bool {
    match (pred, blooms) {
        (PredicateModel::Eq(f, v), Some(es)) => !bloom::maybe_in_zone(es, z.zone_id, f, v),
        _ => false,
    }
}

/// Whether a zone must be read.
pub open spec fn kept(z: ZoneModel, blooms: Option<Seq<EntryModel>>, pred: PredicateModel) -> bool {
    !ruled_out(z, pred) && !filtered_out(z, blooms, pred)
}

/// The ids of the zones from index `i` on that must be read, in order.
pub open spec fn kept_ids(
    zs: Seq<ZoneModel>,
    blooms: Option<Seq<EntryModel>>,
    pred: PredicateModel,
    i: int,
) -> Seq<u32>
    decreases zs.len() - i,
{
    if 0 <= i < zs.len() {
        if kept(zs[i], blooms, pred) {
            seq![zs[i].zone_id] + kept_ids(zs, blooms, pred, i + 1)
        } else {
            kept_ids(zs, blooms, pred, i + 1)
        }
    } else {
        Seq::empty()
    }
}

/// What an optional set of filters holds.
pub open spec fn filters_of(blooms: Option<&ZoneBlooms>) -> Option<Seq<EntryModel>> {
    match blooms {
        Some(b) => Some(b@),
        None => None,
    }
}

/// Can this zone be skipped for this predicate? Only `true` when *proven*.
pub fn can_skip(zone: &ZoneStats, pred: &Predicate) -> (r: bool)
    ensures
        r == ruled_out(zone@, pred@),
{
    let col = match zone.column(pred.field()) {
        Some(c) => c,
        None => return false,
    };
    if col.value_count == 0 {
        return true;
    }
    match pred {
        Predicate::Eq(_, v) => matches!(compare(v, &col.min), Some(Order::Less))
            || matches!(compare(v, &col.max), Some(Order::Greater)),
        Predicate::Lt(_, v) => matches!(
            compare(&col.min, v),
            Some(Order::Greater) | Some(Order::Equal)
        ),
        Predicate::LtEq(_, v) => matches!(compare(&col.min, v), Some(Order::Greater)),
        Predicate::Gt(_, v) => matches!(
            compare(&col.max, v),
            Some(Order::Less) | Some(Order::Equal)
        ),
        Predicate::GtEq(_, v) => matches!(compare(&col.max, v), Some(Order::Less)),
    }
}

/// The `zone_id`s that survive pruning (must be read). The complement of these is safe to
/// skip.
pub fn surviving_zones(zm: &ZoneMap, pred: &Predicate) -> (r: Vec<u32>)
    ensures
        r@ == kept_ids(zm@, None, pred@, 0),
{
    surviving_zones_indexed(zm, None, pred)
}

/// Like [`surviving_zones`], but also consults a [`ZoneBlooms`] index: for an equality
/// predicate, a zone is *additionally* skipped when its Bloom proves the value absent. Blooms
/// only tighten pruning: a missing Bloom leaves the zone map's verdict untouched, and a Bloom
/// never keeps a zone the zone map skipped.
pub fn surviving_zones_indexed(
    zm: &ZoneMap,
    blooms: Option<&ZoneBlooms>,
    pred: &Predicate,
) -> (r: Vec<u32>)
    ensures
        r@ == kept_ids(zm@, filters_of(blooms), pred@, 0),
{
    let ghost filters = filters_of(blooms);
    let mut out: Vec<u32> = Vec::new();
    let mut i: usize = 0;
    proof {
        assert(out@ + kept_ids(zm@, filters, pred@, 0) =~= kept_ids(zm@, filters, pred@, 0));
    }
    while i < zm.zones.len()
        invariant
            i <= zm.zones@.len(),
            filters == filters_of(blooms),
            out@ + kept_ids(zm@, filters, pred@, i as int) == kept_ids(zm@, filters, pred@, 0),
        decreases zm.zones@.len() - i,
    {
        let zone: &ZoneStats = &zm.zones[i];
        let mut keep: bool = !can_skip(zone, pred);
        if let (Predicate::Eq(field, v), Some(bl)) = (pred, blooms) {
            if !bl.might_contain(zone.zone_id, *field, v) {
                keep = false;
            }
        }
        let ghost before = out@;
        if keep {
            out.push(zone.zone_id);
        }
        proof {
            assert(zm@[i as int] == zone@);
            assert(keep == kept(zone@, filters, pred@));
            assert(out@ + kept_ids(zm@, filters, pred@, i + 1) =~= before + kept_ids(
                zm@,
                filters,
                pred@,
                i as int,
            ));
        }
        i = i + 1;
    }
    proof {
        assert(out@ =~= out@ + kept_ids(zm@, filters, pred@, i as int));
    }
    out
}

/// Column stats that cover the values of a zone's column: no value lies outside the bounds,
/// and a zero count means there are none. `Null`s are not values.
pub open spec fn covers(c: ColumnModel, values: Seq<Datum>) -> bool {
    &&& forall|d: Datum| #[trigger]
        values.contains(d) && !(d is Null) ==> {
            &&& c.value_count > 0
            &&& order(d, c.min) != Some(Order::Less)
            &&& order(d, c.max) != Some(Order::Greater)
        }
}

/// Pruning by stats is conservative: a zone whose column holds a value that the predicate
/// accepts is never ruled out.
pub proof fn law_stats_never_hide_a_match(
    z: ZoneModel,
    values: Seq<Datum>,
    pred: PredicateModel,
    d: Datum,
)
    requires
        zonemap::first_column(z.columns, pred.field()) matches Some(c) ==> covers(c, values),
        values.contains(d),
        pred.accepts(d),
    ensures
        !ruled_out(z, pred),
{
    match zonemap::first_column(z.columns, pred.field()) {
        Some(c) => {
            let v = match pred {
                PredicateModel::Eq(_, v) => v,
                PredicateModel::Lt(_, v) => v,
                PredicateModel::LtEq(_, v) => v,
                PredicateModel::Gt(_, v) => v,
                PredicateModel::GtEq(_, v) => v,
            };
            law_order_mirrors(d, v);
            law_order_mirrors(v, c.min);
            law_order_mirrors(v, c.max);
            law_order_mirrors(d, c.max);
            law_order_chains(d, v, c.min);
            law_order_chains(c.max, v, d);
        },
        None => {},
    }
}

/// The two zeros of a float: equal numbers with different patterns, which hash apart.
pub open spec fn opposite_zeros(a: Datum, b: Datum) -> bool {
    match (a, b) {
        (Datum::F64(x), Datum::F64(y)) => float::float_key(x) == 0 && float::float_key(y) == 0 && x
            != y,
        _ => false,
    }
}

/// Equal data are the same datum, but for the two zeros of a float.
pub proof fn law_equal_means_same(a: Datum, b: Datum)
    requires
        order(a, b) == Some(Order::Equal),
    ensures
        a == b || opposite_zeros(a, b),
{
    match (a, b) {
        (Datum::Bytes(x), Datum::Bytes(y)) => {
            lemma_bytes_order_mirror(x, y);
        },
        _ => {},
    }
}

/// Pruning by stats and Bloom filters is conservative: a zone whose column holds a value that
/// the predicate accepts is kept, where the filter of the column answers "maybe" for each of
/// its values. One case is left out: a float zero asked for where the column holds the other
/// zero alone.
pub proof fn law_index_never_hides_a_match(
    z: ZoneModel,
    blooms: Option<Seq<EntryModel>>,
    values: Seq<Datum>,
    pred: PredicateModel,
    d: Datum,
)
    requires
        zonemap::first_column(z.columns, pred.field()) matches Some(c) ==> covers(c, values),
        blooms matches Some(es) ==> forall|x: Datum| #[trigger]
            values.contains(x) ==> bloom::maybe_in_zone(es, z.zone_id, pred.field(), x),
        values.contains(d),
        pred.accepts(d),
        pred matches PredicateModel::Eq(_, v) ==> (opposite_zeros(d, v) ==> values.contains(v)),
    ensures
        kept(z, blooms, pred),
{
    law_stats_never_hide_a_match(z, values, pred, d);
    match (pred, blooms) {
        (PredicateModel::Eq(_, v), Some(es)) => {
            law_equal_means_same(d, v);
        },
        _ => {},
    }
}

/// Blooms only tighten: a zone kept with them is kept without, and where no filter stands for
/// the zone and the field the verdict is that of the stats.
pub proof fn law_blooms_only_tighten(z: ZoneModel, es: Seq<EntryModel>, pred: PredicateModel)
    ensures
        kept(z, Some(es), pred) ==> kept(z, None, pred),
        !(pred is Eq) ==> kept(z, Some(es), pred) == kept(z, None, pred),
        bloom::first_filter(es, z.zone_id, pred.field()) is None ==> kept(z, Some(es), pred)
            == kept(z, None, pred),
{
}

/// What cannot be compared is never ruled out: a column without stats, or bounds that stand in
/// no order to the value asked for (a NaN, an absent bound, another kind, another scale).
pub proof fn law_unsure_means_kept(z: ZoneModel, pred: PredicateModel, v: Datum)
    requires
        pred == PredicateModel::Eq(pred.field(), v) || pred == PredicateModel::Lt(pred.field(), v)
            || pred == PredicateModel::LtEq(pred.field(), v) || pred == PredicateModel::Gt(
            pred.field(),
            v,
        ) || pred == PredicateModel::GtEq(pred.field(), v),
        zonemap::first_column(z.columns, pred.field()) matches Some(c) ==> c.value_count > 0
            && order(c.min, v) is None && order(c.max, v) is None,
    ensures
        kept(z, None, pred),
{
    match zonemap::first_column(z.columns, pred.field()) {
        Some(c) => {
            law_order_mirrors(c.min, v);
            law_order_mirrors(c.max, v);
        },
        None => {},
    }
}

/// The ids kept are exactly those of the zones that must be read.
pub proof fn law_kept_ids_are_the_kept_zones(
    zs: Seq<ZoneModel>,
    blooms: Option<Seq<EntryModel>>,
    pred: PredicateModel,
    id: u32,
)
    ensures
        kept_ids(zs, blooms, pred, 0).contains(id) <==> exists|k: int|
            0 <= k < zs.len() && (#[trigger] zs[k]).zone_id == id && kept(zs[k], blooms, pred),
{
    lemma_kept_ids_from(zs, blooms, pred, 0, id);
}

proof fn lemma_kept_ids_from(
    zs: Seq<ZoneModel>,
    blooms: Option<Seq<EntryModel>>,
    pred: PredicateModel,
    i: int,
    id: u32,
)
    requires
        0 <= i <= zs.len(),
    ensures
        kept_ids(zs, blooms, pred, i).contains(id) <==> exists|k: int|
            i <= k < zs.len() && (#[trigger] zs[k]).zone_id == id && kept(zs[k], blooms, pred),
    decreases zs.len() - i,
{
    let ids = kept_ids(zs, blooms, pred, i);
    if i < zs.len() {
        let rest = kept_ids(zs, blooms, pred, i + 1);
        lemma_kept_ids_from(zs, blooms, pred, i + 1, id);
        if kept(zs[i], blooms, pred) {
            assert(ids[0] == zs[i].zone_id);
            if rest.contains(id) {
                let k = choose|k: int| 0 <= k < rest.len() && rest[k] == id;
                assert(ids[k + 1] == id);
            }
            if ids.contains(id) {
                let k = choose|k: int| 0 <= k < ids.len() && ids[k] == id;
                if k > 0 {
                    assert(rest[k - 1] == id);
                }
            }
        }
    }
}

/// A zone whose column holds no value is skipped for every comparison: a comparison with NULL is
/// never true.
pub proof fn law_all_null_zones_are_skipped(z: ZoneModel, pred: PredicateModel)
    requires
        zonemap::first_column(z.columns, pred.field()) matches Some(c) && c.value_count == 0,
    ensures
        ruled_out(z, pred),
{
}

/// Byte strings are told apart by their first difference. Where they share their first `k`
/// bytes, the smaller unsigned byte at position `k` makes the smaller string; a string that
/// ends at `k` comes before one that goes on; two that both end there are equal.
pub proof fn law_bytes_order_at_first_difference(a: Seq<u8>, b: Seq<u8>, k: int)
    requires
        0 <= k <= a.len(),
        k <= b.len(),
        forall|i: int| 0 <= i < k ==> a[i] == b[i],
    ensures
        k < a.len() && k < b.len() && a[k] < b[k] ==> order(Datum::Bytes(a), Datum::Bytes(b))
            == Some(Order::Less),
        k < a.len() && k < b.len() && a[k] > b[k] ==> order(Datum::Bytes(a), Datum::Bytes(b))
            == Some(Order::Greater),
        k == a.len() && k < b.len() ==> order(Datum::Bytes(a), Datum::Bytes(b)) == Some(
            Order::Less,
        ),
        k < a.len() && k == b.len() ==> order(Datum::Bytes(a), Datum::Bytes(b)) == Some(
            Order::Greater,
        ),
        k == a.len() && k == b.len() ==> order(Datum::Bytes(a), Datum::Bytes(b)) == Some(
            Order::Equal,
        ),
    decreases k,
{
    if k > 0 {
        law_bytes_order_at_first_difference(a.drop_first(), b.drop_first(), k - 1);
    }
}

/// Whether an answer of [`compare`] is the one that two numbers give.
pub open spec fn agrees(answer: Option<Order>, x: int, y: int) -> bool {
    &&& answer == Some(Order::Less) <==> x < y
    &&& answer == Some(Order::Equal) <==> x == y
    &&& answer == Some(Order::Greater) <==> x > y
}

/// Integers, dates, times and timestamps are ordered as the numbers they hold, decimals of one
/// scale by their unscaled numbers, and `false` stands before `true`.
pub proof fn law_whole_values_order_as_numbers(
    x: i64,
    y: i64,
    day: i32,
    other_day: i32,
    unscaled: i128,
    other_unscaled: i128,
    scale: i32,
)
    ensures
        agrees(order(Datum::I64(x), Datum::I64(y)), x as int, y as int),
        agrees(order(Datum::Time(x), Datum::Time(y)), x as int, y as int),
        agrees(order(Datum::Timestamp(x), Datum::Timestamp(y)), x as int, y as int),
        agrees(order(Datum::Date(day), Datum::Date(other_day)), day as int, other_day as int),
        agrees(
            order(
                Datum::Decimal { unscaled, scale },
                Datum::Decimal { unscaled: other_unscaled, scale },
            ),
            unscaled as int,
            other_unscaled as int,
        ),
        agrees(order(Datum::Bool(false), Datum::Bool(true)), 0, 1),
        agrees(order(Datum::Bool(true), Datum::Bool(false)), 1, 0),
        agrees(order(Datum::Bool(true), Datum::Bool(true)), 1, 1),
        agrees(order(Datum::Bool(false), Datum::Bool(false)), 0, 0),
{
}

/// Floats are ordered as the numbers their patterns stand for, the infinities at the ends and
/// the two zeros equal. A NaN stands in no order to anything.
pub proof fn law_floats_order_as_numbers(a: u64, b: u64)
    ensures
        !float::is_nan(a) && !float::is_nan(b) ==> agrees(
            order(Datum::F64(a), Datum::F64(b)),
            float::units(a),
            float::units(b),
        ),
        order(Datum::F64(a), Datum::F64(b)) is None <==> float::is_nan(a) || float::is_nan(b),
{
    if !float::is_nan(a) && !float::is_nan(b) {
        float::law_key_orders_numbers(a, b);
    }
}

/// Only data of one kind can be compared: no `Null`, and no decimals of different scale.
pub proof fn law_kinds_do_not_mix(a: Datum, b: Datum)
    ensures
        order(a, b) is Some ==> {
            ||| a is Bool && b is Bool
            ||| a is I64 && b is I64
            ||| a is F64 && b is F64
            ||| a is Bytes && b is Bytes
            ||| a is Decimal && b is Decimal && a->scale == b->scale
            ||| a is Date && b is Date
            ||| a is Time && b is Time
            ||| a is Timestamp && b is Timestamp
        },
{
}

/// A predicate accepts what its sign says, seen on integers.
pub proof fn law_predicates_mean_their_sign(field: i32, x: i64, v: i64)
    ensures
        PredicateModel::Eq(field, Datum::I64(v)).accepts(Datum::I64(x)) <==> x == v,
        PredicateModel::Lt(field, Datum::I64(v)).accepts(Datum::I64(x)) <==> x < v,
        PredicateModel::LtEq(field, Datum::I64(v)).accepts(Datum::I64(x)) <==> x <= v,
        PredicateModel::Gt(field, Datum::I64(v)).accepts(Datum::I64(x)) <==> x > v,
        PredicateModel::GtEq(field, Datum::I64(v)).accepts(Datum::I64(x)) <==> x >= v,
{
}

/// Whether a predicate asks for a column value by comparing it with `v`.
pub open spec fn asks_about(pred: PredicateModel, v: Datum) -> bool {
    ||| pred == PredicateModel::Eq(pred.field(), v)
    ||| pred == PredicateModel::Lt(pred.field(), v)
    ||| pred == PredicateModel::LtEq(pred.field(), v)
    ||| pred == PredicateModel::Gt(pred.field(), v)
    ||| pred == PredicateModel::GtEq(pred.field(), v)
}

/// Whether a datum lies between two bounds, both included.
pub open spec fn lies_between(d: Datum, lo: Datum, hi: Datum) -> bool {
    &&& order(d, lo) == Some(Order::Equal) || order(d, lo) == Some(Order::Greater)
    &&& order(d, hi) == Some(Order::Equal) || order(d, hi) == Some(Order::Less)
}

/// Bounds decide exactly. A zone that holds values, with bounds that stand in order to each
/// other and to the value asked for, is ruled out if and only if no datum between its bounds
/// is one that the predicate accepts.
#[verifier::rlimit(40)]
pub proof fn law_stats_skip_all_they_can(
    z: ZoneModel,
    c: ColumnModel,
    pred: PredicateModel,
    v: Datum,
)
    requires
        zonemap::first_column(z.columns, pred.field()) == Some(c),
        c.value_count > 0,
        asks_about(pred, v),
        order(c.min, c.max) == Some(Order::Less) || order(c.min, c.max) == Some(Order::Equal),
        order(v, c.min) is Some,
    ensures
        ruled_out(z, pred) <==> !exists|d: Datum| #[trigger]
            lies_between(d, c.min, c.max) && pred.accepts(d),
{
    law_order_mirrors(v, c.min);
    law_order_mirrors(v, c.max);
    law_order_mirrors(c.min, c.max);
    lemma_comparable(c.min, c.max, v);
    lemma_orders_itself(c.min, c.max);
    lemma_orders_itself(c.max, c.min);
    lemma_orders_itself(v, c.min);
    if ruled_out(z, pred) {
        assert forall|d: Datum| #[trigger] lies_between(d, c.min, c.max) implies !pred.accepts(
            d,
        ) by {
            law_order_mirrors(d, v);
            law_order_mirrors(d, c.min);
            law_order_mirrors(d, c.max);
            law_order_chains(v, c.min, d);
            law_order_chains(d, v, c.min);
            law_order_chains(d, c.max, v);
            law_order_chains(c.max, v, d);
            law_order_chains(v, d, c.max);
            law_order_chains(c.min, d, v);
        }
    } else {
        let d = match pred {
            PredicateModel::Eq(_, _) => v,
            PredicateModel::Lt(_, _) => c.min,
            PredicateModel::LtEq(_, _) => c.min,
            PredicateModel::Gt(_, _) => c.max,
            PredicateModel::GtEq(_, _) => c.max,
        };
        assert(lies_between(d, c.min, c.max) && pred.accepts(d));
    }
}

/// What can be compared with one of two comparable data can be compared with the other.
proof fn lemma_comparable(a: Datum, b: Datum, v: Datum)
    requires
        order(a, b) is Some,
        order(v, a) is Some,
    ensures
        order(v, b) is Some,
{
}

/// What can be compared at all equals itself.
proof fn lemma_orders_itself(a: Datum, b: Datum)
    requires
        order(a, b) is Some,
    ensures
        order(a, a) == Some(Order::Equal),
{
    match a {
        Datum::Bytes(x) => {
            lemma_bytes_order_mirror(x, x);
        },
        _ => {},
    }
}

/// A filter that does not hold the value asked for has its zone skipped by an equality.
pub proof fn law_absent_values_are_skipped(
    z: ZoneModel,
    es: Seq<EntryModel>,
    field: i32,
    v: Datum,
    filter: Seq<Seq<u32>>,
)
    requires
        bloom::first_filter(es, z.zone_id, field) == Some(filter),
        !bloom::maybe_in(filter, v),
    ensures
        !kept(z, Some(es), PredicateModel::Eq(field, v)),
{
}

/// Zones are judged one by one and their ids come in the order of the zones: the ids kept of
/// two runs of zones are those of the first and then those of the second, and a single zone
/// gives its id if it is kept, and nothing if it is not.
pub proof fn law_kept_ids_come_in_order(
    zs: Seq<ZoneModel>,
    more: Seq<ZoneModel>,
    z: ZoneModel,
    blooms: Option<Seq<EntryModel>>,
    pred: PredicateModel,
)
    ensures
        kept_ids(zs + more, blooms, pred, 0) == kept_ids(zs, blooms, pred, 0) + kept_ids(
            more,
            blooms,
            pred,
            0,
        ),
        kept(z, blooms, pred) ==> kept_ids(seq![z], blooms, pred, 0) == seq![z.zone_id],
        !kept(z, blooms, pred) ==> kept_ids(seq![z], blooms, pred, 0) == Seq::<u32>::empty(),
{
    lemma_kept_ids_join(zs, more, blooms, pred, 0);
    assert(kept_ids(seq![z], blooms, pred, 1) =~= Seq::<u32>::empty());
    assert(seq![z.zone_id] + Seq::<u32>::empty() =~= seq![z.zone_id]);
}

proof fn lemma_kept_ids_join(
    zs: Seq<ZoneModel>,
    more: Seq<ZoneModel>,
    blooms: Option<Seq<EntryModel>>,
    pred: PredicateModel,
    i: int,
)
    requires
        0 <= i <= zs.len(),
    ensures
        kept_ids(zs + more, blooms, pred, i) == kept_ids(zs, blooms, pred, i) + kept_ids(
            more,
            blooms,
            pred,
            0,
        ),
    decreases zs.len() - i,
{
    if i < zs.len() {
        lemma_kept_ids_join(zs, more, blooms, pred, i + 1);
        assert((zs + more)[i] == zs[i]);
        assert(kept_ids(zs + more, blooms, pred, i) =~= kept_ids(zs, blooms, pred, i) + kept_ids(
            more,
            blooms,
            pred,
            0,
        ));
    } else {
        lemma_kept_ids_shift(zs, more, blooms, pred, 0);
        assert(kept_ids(zs, blooms, pred, i) + kept_ids(more, blooms, pred, 0) =~= kept_ids(
            more,
            blooms,
            pred,
            0,
        ));
    }
}

proof fn lemma_kept_ids_shift(
    zs: Seq<ZoneModel>,
    more: Seq<ZoneModel>,
    blooms: Option<Seq<EntryModel>>,
    pred: PredicateModel,
    i: int,
)
    requires
        0 <= i <= more.len(),
    ensures
        kept_ids(zs + more, blooms, pred, zs.len() + i) == kept_ids(more, blooms, pred, i),
    decreases more.len() - i,
{
    if i < more.len() {
        lemma_kept_ids_shift(zs, more, blooms, pred, i + 1);
        assert((zs + more)[zs.len() + i] == more[i]);
    }
}

/// Strings are ordered by code point: where two share their first `k` characters, the smaller
/// character at position `k` makes the smaller UTF-8 string, and a string that ends there comes
/// before one that goes on.
pub proof fn law_strings_order_by_code_point(s: Seq<char>, t: Seq<char>, k: int)
    requires
        0 <= k <= s.len(),
        k <= t.len(),
        forall|i: int| 0 <= i < k ==> s[i] == t[i],
    ensures
        k < s.len() && k < t.len() && (s[k] as u32) < (t[k] as u32) ==> order(
            Datum::Bytes(encode_utf8(s)),
            Datum::Bytes(encode_utf8(t)),
        ) == Some(Order::Less),
        k == s.len() && k < t.len() ==> order(
            Datum::Bytes(encode_utf8(s)),
            Datum::Bytes(encode_utf8(t)),
        ) == Some(Order::Less),
        k == s.len() && k == t.len() ==> order(
            Datum::Bytes(encode_utf8(s)),
            Datum::Bytes(encode_utf8(t)),
        ) == Some(Order::Equal),
    decreases k,
{
    if k > 0 {
        let head = encode_scalar(s[0] as u32);
        law_strings_order_by_code_point(s.drop_first(), t.drop_first(), k - 1);
        lemma_shared_head(
            head,
            encode_utf8(s.drop_first()),
            encode_utf8(t.drop_first()),
        );
    } else {
        if s.len() > 0 && t.len() > 0 && (s[0] as u32) < (t[0] as u32) {
            vstd::utf8::char_is_scalar(s[0]);
            vstd::utf8::char_is_scalar(t[0]);
            lemma_scalars_order(
                s[0] as u32,
                t[0] as u32,
                encode_utf8(s.drop_first()),
                encode_utf8(t.drop_first()),
            );
        }
    }
}

/// A shared beginning does not count.
proof fn lemma_shared_head(head: Seq<u8>, a: Seq<u8>, b: Seq<u8>)
    ensures
        bytes_order(head + a, head + b) == bytes_order(a, b),
    decreases head.len(),
{
    if head.len() > 0 {
        let rest = head.drop_first();
        assert((head + a).drop_first() =~= rest + a);
        assert((head + b).drop_first() =~= rest + b);
        lemma_shared_head(rest, a, b);
    } else {
        assert(head + a =~= a);
        assert(head + b =~= b);
    }
}

/// The encodings of two characters differ first where the smaller one has the smaller byte.
proof fn lemma_scalars_order(x: u32, y: u32, a: Seq<u8>, b: Seq<u8>)
    requires
        x < y,
        vstd::utf8::is_scalar(x),
        vstd::utf8::is_scalar(y),
    ensures
        bytes_order(encode_scalar(x) + a, encode_scalar(y) + b) is Less,
{
    let p = encode_scalar(x);
    let q = encode_scalar(y);
    let m = p + a;
    let n = q + b;
    assert(p.len() <= q.len());
    let j = lemma_first_smaller_byte(x, y);
    assert forall|i: int| 0 <= i < j implies m[i] == n[i] by {
        assert(p[i] == q[i]);
    }
    law_bytes_order_at_first_difference(m, n, j);
}

/// Where the smaller byte stands.
proof fn lemma_first_smaller_byte(x: u32, y: u32) -> (j: int)
    requires
        x < y,
        vstd::utf8::is_scalar(x),
        vstd::utf8::is_scalar(y),
    ensures
        0 <= j < encode_scalar(x).len(),
        j < encode_scalar(y).len(),
        encode_scalar(x)[j] < encode_scalar(y)[j],
        forall|i: int| 0 <= i < j ==> encode_scalar(x)[i] == encode_scalar(y)[i],
{
    lemma_leading_bytes(x);
    lemma_leading_bytes(y);
    lemma_byte_steps(x, y);
    let p = encode_scalar(x);
    let q = encode_scalar(y);
    if p[0] < q[0] {
        0
    } else if p[1] < q[1] {
        1
    } else if p[2] < q[2] {
        2
    } else {
        3
    }
}

/// The ranges of the leading bytes, by width.
proof fn lemma_leading_bytes(x: u32)
    requires
        vstd::utf8::is_scalar(x),
    ensures
        x <= 0x7f ==> ((x & 0x7F) as u8) <= 0x7f,
        0x80 <= x <= 0x7ff ==> 0xc0 <= (0xC0 | ((x >> 6) & 0x1F) as u8) <= 0xdf,
        0x800 <= x <= 0xffff ==> 0xe0 <= (0xE0 | ((x >> 12) & 0x0F) as u8) <= 0xef,
        0x1_0000 <= x <= 0x10_ffff ==> 0xf0 <= (0xF0 | ((x >> 18) & 0x7) as u8),
{
    assert(x <= 0x7f ==> ((x & 0x7F) as u8) <= 0x7f) by (bit_vector);
    assert(0x80 <= x <= 0x7ff ==> 0xc0 <= (0xC0u8 | ((x >> 6) & 0x1F) as u8) <= 0xdf)
        by (bit_vector);
    assert(0x800 <= x <= 0xffff ==> 0xe0 <= (0xE0u8 | ((x >> 12) & 0x0F) as u8) <= 0xef)
        by (bit_vector);
    assert(0x1_0000 <= x <= 0x10_ffff ==> 0xf0 <= (0xF0u8 | ((x >> 18) & 0x7) as u8))
        by (bit_vector);
}

/// Of two characters of one width, the first byte that differs is the smaller for the smaller.
proof fn lemma_byte_steps(x: u32, y: u32)
    requires
        x < y,
    ensures
        y <= 0x7f ==> ((x & 0x7F) as u8) < ((y & 0x7F) as u8),
        0x80 <= x && y <= 0x7ff ==> {
            let (x0, y0) = (0xC0u8 | ((x >> 6) & 0x1F) as u8, 0xC0u8 | ((y >> 6) & 0x1F) as u8);
            let (x1, y1) = (0x80u8 | (x & 0x3F) as u8, 0x80u8 | (y & 0x3F) as u8);
            x0 < y0 || (x0 == y0 && x1 < y1)
        },
        0x800 <= x && y <= 0xffff ==> {
            let (x0, y0) = (0xE0u8 | ((x >> 12) & 0x0F) as u8, 0xE0u8 | ((y >> 12) & 0x0F) as u8);
            let (x1, y1) = (0x80u8 | ((x >> 6) & 0x3F) as u8, 0x80u8 | ((y >> 6) & 0x3F) as u8);
            let (x2, y2) = (0x80u8 | (x & 0x3F) as u8, 0x80u8 | (y & 0x3F) as u8);
            x0 < y0 || (x0 == y0 && (x1 < y1 || (x1 == y1 && x2 < y2)))
        },
        0x1_0000 <= x && y <= 0x10_ffff ==> {
            let (x0, y0) = (0xF0u8 | ((x >> 18) & 0x7) as u8, 0xF0u8 | ((y >> 18) & 0x7) as u8);
            let (x1, y1) = (0x80u8 | ((x >> 12) & 0x3F) as u8, 0x80u8 | ((y >> 12) & 0x3F) as u8);
            let (x2, y2) = (0x80u8 | ((x >> 6) & 0x3F) as u8, 0x80u8 | ((y >> 6) & 0x3F) as u8);
            let (x3, y3) = (0x80u8 | (x & 0x3F) as u8, 0x80u8 | (y & 0x3F) as u8);
            x0 < y0 || (x0 == y0 && (x1 < y1 || (x1 == y1 && (x2 < y2 || (x2 == y2 && x3 < y3)))))
        },
{
    assert(y <= 0x7f ==> ((x & 0x7F) as u8) < ((y & 0x7F) as u8)) by (bit_vector)
        requires
            x < y,
    ;
    let (x0, y0) = (0xC0u8 | ((x >> 6) & 0x1F) as u8, 0xC0u8 | ((y >> 6) & 0x1F) as u8);
    let (x1, y1) = (0x80u8 | (x & 0x3F) as u8, 0x80u8 | (y & 0x3F) as u8);
    assert(0x80 <= x && y <= 0x7ff ==> x0 < y0 || (x0 == y0 && x1 < y1)) by (bit_vector)
        requires
            x < y,
            x0 == 0xC0u8 | ((x >> 6) & 0x1F) as u8,
            y0 == 0xC0u8 | ((y >> 6) & 0x1F) as u8,
            x1 == 0x80u8 | (x & 0x3F) as u8,
            y1 == 0x80u8 | (y & 0x3F) as u8,
    ;
    let (u0, v0) = (0xE0u8 | ((x >> 12) & 0x0F) as u8, 0xE0u8 | ((y >> 12) & 0x0F) as u8);
    let (u1, v1) = (0x80u8 | ((x >> 6) & 0x3F) as u8, 0x80u8 | ((y >> 6) & 0x3F) as u8);
    assert(0x800 <= x && y <= 0xffff ==> u0 < v0 || (u0 == v0 && (u1 < v1 || (u1 == v1 && x1
        < y1)))) by (bit_vector)
        requires
            x < y,
            u0 == 0xE0u8 | ((x >> 12) & 0x0F) as u8,
            v0 == 0xE0u8 | ((y >> 12) & 0x0F) as u8,
            u1 == 0x80u8 | ((x >> 6) & 0x3F) as u8,
            v1 == 0x80u8 | ((y >> 6) & 0x3F) as u8,
            x1 == 0x80u8 | (x & 0x3F) as u8,
            y1 == 0x80u8 | (y & 0x3F) as u8,
    ;
    let (w0, z0) = (0xF0u8 | ((x >> 18) & 0x7) as u8, 0xF0u8 | ((y >> 18) & 0x7) as u8);
    let (w1, z1) = (0x80u8 | ((x >> 12) & 0x3F) as u8, 0x80u8 | ((y >> 12) & 0x3F) as u8);
    assert(0x1_0000 <= x && y <= 0x10_ffff ==> w0 < z0 || (w0 == z0 && (w1 < z1 || (w1 == z1 && (u1
        < v1 || (u1 == v1 && x1 < y1)))))) by (bit_vector)
        requires
            x < y,
            w0 == 0xF0u8 | ((x >> 18) & 0x7) as u8,
            z0 == 0xF0u8 | ((y >> 18) & 0x7) as u8,
            w1 == 0x80u8 | ((x >> 12) & 0x3F) as u8,
            z1 == 0x80u8 | ((y >> 12) & 0x3F) as u8,
            u1 == 0x80u8 | ((x >> 6) & 0x3F) as u8,
            v1 == 0x80u8 | ((y >> 6) & 0x3F) as u8,
            x1 == 0x80u8 | (x & 0x3F) as u8,
            y1 == 0x80u8 | (y & 0x3F) as u8,
    ;
}

/// What [`compare`] answers for strings: they are told apart by their first different character,
/// in the order of code points.
pub proof fn law_compare_tells_strings_apart(
    a: Value,
    b: Value,
    r: Option<Order>,
    s: Seq<char>,
    t: Seq<char>,
    k: int,
)
    requires
        call_ensures(compare, (&a, &b), r),
        a@ == Datum::Bytes(encode_utf8(s)),
        b@ == Datum::Bytes(encode_utf8(t)),
        0 <= k <= s.len(),
        k <= t.len(),
        forall|i: int| 0 <= i < k ==> s[i] == t[i],
    ensures
        k < s.len() && k < t.len() && (s[k] as u32) < (t[k] as u32) ==> r == Some(Order::Less),
        k < s.len() && k < t.len() && (s[k] as u32) > (t[k] as u32) ==> r == Some(Order::Greater),
        k == s.len() && k < t.len() ==> r == Some(Order::Less),
        k < s.len() && k == t.len() ==> r == Some(Order::Greater),
        k == s.len() && k == t.len() ==> r == Some(Order::Equal),
{
    law_strings_order_by_code_point(s, t, k);
    law_strings_order_by_code_point(t, s, k);
    law_order_mirrors(a@, b@);
    law_order_mirrors(b@, a@);
}

/// What pruning keeps: a zone is skipped for a predicate only if its stats rule it out, and then
/// it is skipped.
pub proof fn law_zones_are_skipped_when_ruled_out(
    zone: ZoneStats,
    pred: Predicate,
    skip: bool,
    zm: ZoneMap,
    ids: Vec<u32>,
    id: u32,
)
    requires
        call_ensures(can_skip, (&zone, &pred), skip),
        call_ensures(surviving_zones, (&zm, &pred), ids),
    ensures
        skip <==> ruled_out(zone@, pred@),
        ids@.contains(id) <==> exists|k: int|
            0 <= k < zm@.len() && (#[trigger] zm@[k]).zone_id == id && !ruled_out(zm@[k], pred@),
{
    law_kept_ids_are_the_kept_zones(zm@, None, pred@, id);
    if exists|k: int|
        0 <= k < zm@.len() && (#[trigger] zm@[k]).zone_id == id && !ruled_out(zm@[k], pred@) {
        let k = choose|k: int|
            0 <= k < zm@.len() && (#[trigger] zm@[k]).zone_id == id && !ruled_out(zm@[k], pred@);
        assert(kept(zm@[k], None, pred@));
    }
}

} // verus!
