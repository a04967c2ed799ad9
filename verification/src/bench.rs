//! Benchmark data and measurements: a deterministic synthetic table, a spectrum of
//! queries over it, and the analytical report (how many row groups and bytes a scan
//! would read, with the zone map alone and with the blooms).
//!
//! The columns exercise the whole spectrum: `id` and `ts` are clustered, so the zone
//! map prunes them well; `user_id` and `event_id` are scattered with high
//! cardinality, so only the bloom prunes a point lookup; `region` has eight values
//! everywhere, so nothing prunes it.
use crate::float;
use crate::sidecar;
use crate::sidecar::FieldModel;
use crate::sidecar::IndexField;
use crate::sidecar::Sidecar;
use crate::text;
use crate::translate;
use crate::translate::Expr;
use crate::translate::Operator;
use crate::translate::ScalarValue;
use crate::zonemap::ZoneModel;
use vstd::arithmetic::power::pow;
use vstd::prelude::*;

verus! {

/// Field ids, stable across the sidecar.
pub const F_ID: i32 = 1;

pub const F_TS: i32 = 2;

pub const F_USER_ID: i32 = 3;

pub const F_EVENT_ID: i32 = 4;

pub const F_AMOUNT: i32 = 5;

pub const F_REGION: i32 = 6;

/// How many distinct `user_id`s there are.
pub const USER_CARD: u64 = 10_000_000;

/// The time of row zero: 2020-09-13T12:26:40Z in microseconds.
pub const TS_BASE: i64 = 1_600_000_000_000_000;

/// The time between two rows: one second.
pub const TS_STEP: i64 = 1_000_000;

/// The columns to index, as the benchmark has them.
pub open spec fn bench_fields() -> Seq<FieldModel> {
    seq![
        FieldModel { name: "id"@, field_id: F_ID, bloom: false },
        FieldModel { name: "ts"@, field_id: F_TS, bloom: false },
        FieldModel { name: "user_id"@, field_id: F_USER_ID, bloom: true },
        FieldModel { name: "event_id"@, field_id: F_EVENT_ID, bloom: true },
        FieldModel { name: "amount"@, field_id: F_AMOUNT, bloom: false },
        FieldModel { name: "region"@, field_id: F_REGION, bloom: false },
    ]
}

/// The columns to index: `user_id` and `event_id` get blooms (scattered, high cardinality); the
/// rest get zone maps only.
pub fn index_fields() -> (r: Vec<IndexField>)
    ensures
        sidecar::field_models(r@) == bench_fields(),
{
    let mut out: Vec<IndexField> = Vec::new();
    out.push(IndexField::zonemap("id", F_ID));
    out.push(IndexField::zonemap("ts", F_TS));
    out.push(IndexField::zonemap_and_bloom("user_id", F_USER_ID));
    out.push(IndexField::zonemap_and_bloom("event_id", F_EVENT_ID));
    out.push(IndexField::zonemap("amount", F_AMOUNT));
    out.push(IndexField::zonemap("region", F_REGION));
    proof {
        assert(sidecar::field_models(out@) =~= bench_fields());
    }
    out
}

/// A product or sum in 64 bits.
pub open spec fn low_64(a: int) -> u64 {
    (a % 0x1_0000_0000_0000_0000) as u64
}

/// SplitMix64 of a row index.
pub open spec fn mixed(i: u64) -> u64 {
    let a = low_64(i + 0x9E37_79B9_7F4A_7C15);
    let b = low_64((a ^ (a >> 30)) * 0xBF58_476D_1CE4_E5B9);
    let c = low_64((b ^ (b >> 27)) * 0x94D0_49BB_1331_11EB);
    c ^ (c >> 31)
}

/// SplitMix64: a deterministic scatter for a row index.
pub fn mix(i: u64) -> (r: u64)
    ensures
        r == mixed(i),
{
    let a: u64 = ((i as u128 + 0x9E37_79B9_7F4A_7C15) % 0x1_0000_0000_0000_0000) as u64;
    let b: u64 = product_64(a ^ (a >> 30), 0xBF58_476D_1CE4_E5B9);
    let c: u64 = product_64(b ^ (b >> 27), 0x94D0_49BB_1331_11EB);
    c ^ (c >> 31)
}

fn product_64(a: u64, b: u64) -> (r: u64)
    ensures
        r == low_64(a * b),
{
    proof {
        assert(a * b <= 0xffff_ffff_ffff_ffff * 0xffff_ffff_ffff_ffff) by (nonlinear_arith)
            requires
                a <= 0xffff_ffff_ffff_ffff,
                b <= 0xffff_ffff_ffff_ffff,
        ;
    }
    ((a as u128 * b as u128) % 0x1_0000_0000_0000_0000) as u64
}

proof fn lemma_shifts_invert(x: u64, y: u64)
    ensures
        x ^ (x >> 30) == y ^ (y >> 30) ==> x == y,
        x ^ (x >> 27) == y ^ (y >> 27) ==> x == y,
        x ^ (x >> 31) == y ^ (y >> 31) ==> x == y,
{
    assert(x ^ (x >> 30) == y ^ (y >> 30) ==> x == y) by (bit_vector);
    assert(x ^ (x >> 27) == y ^ (y >> 27) ==> x == y) by (bit_vector);
    assert(x ^ (x >> 31) == y ^ (y >> 31) ==> x == y) by (bit_vector);
}

/// Multiplying by a number that has an inverse in 64 bits loses nothing.
proof fn lemma_products_invert(x: u64, y: u64, c: int, inverse: int, k: int)
    requires
        c * inverse == 1 + k * 0x1_0000_0000_0000_0000,
        low_64(x * c) == low_64(y * c),
    ensures
        x == y,
{
    let m: int = 0x1_0000_0000_0000_0000;
    let t = (x * c) / m - (y * c) / m;
    assert(x * c - y * c == t * m) by (nonlinear_arith)
        requires
            (x * c) % m == (y * c) % m,
            t == (x * c) / m - (y * c) / m,
            m > 0,
    ;
    let d = x - y;
    assert(d == (t * inverse - d * k) * m) by (nonlinear_arith)
        requires
            x * c - y * c == t * m,
            c * inverse == 1 + k * m,
            d == x - y,
    ;
    let q = t * inverse - d * k;
    assert(q == 0) by (nonlinear_arith)
        requires
            d == q * m,
            -m < d < m,
            m > 0,
    ;
}

/// SplitMix64 is a bijection: different rows scatter to different hashes.
pub proof fn law_mix_is_injective(i: u64, j: u64)
    requires
        mixed(i) == mixed(j),
    ensures
        i == j,
{
    let (a, x) = (low_64(i + 0x9E37_79B9_7F4A_7C15), low_64(j + 0x9E37_79B9_7F4A_7C15));
    let (b, y) = (
        low_64((a ^ (a >> 30)) * 0xBF58_476D_1CE4_E5B9),
        low_64((x ^ (x >> 30)) * 0xBF58_476D_1CE4_E5B9),
    );
    let (c, z) = (
        low_64((b ^ (b >> 27)) * 0x94D0_49BB_1331_11EB),
        low_64((y ^ (y >> 27)) * 0x94D0_49BB_1331_11EB),
    );
    lemma_shifts_invert(c, z);
    lemma_products_invert(
        b ^ (b >> 27),
        y ^ (y >> 27),
        0x94D0_49BB_1331_11EB,
        0x3196_42b2_d24d_8ec3,
        2077064247507883091,
    );
    lemma_shifts_invert(b, y);
    lemma_products_invert(
        a ^ (a >> 30),
        x ^ (x >> 30),
        0xBF58_476D_1CE4_E5B9,
        0x96de_1b17_3f11_9089,
        8125545580553827436,
    );
    lemma_shifts_invert(a, x);
}

/// The event id of a row.
pub open spec fn event_id(r: u64) -> Seq<char> {
    "evt-"@ + text::padded_hex(mixed(r) as nat, 16)
}

/// The name of a region.
pub open spec fn region_name(i: int) -> Seq<char> {
    if i == 0 {
        "af"@
    } else if i == 1 {
        "as"@
    } else if i == 2 {
        "eu"@
    } else if i == 3 {
        "na"@
    } else if i == 4 {
        "sa"@
    } else if i == 5 {
        "oc"@
    } else if i == 6 {
        "me"@
    } else {
        "an"@
    }
}

fn region(i: u64) -> (r: &'static str)
    requires
        i < 8,
    ensures
        r@ == region_name(i as int),
{
    match i {
        0 => "af",
        1 => "as",
        2 => "eu",
        3 => "na",
        4 => "sa",
        5 => "oc",
        6 => "me",
        _ => "an",
    }
}

fn event_text(h: u64) -> (r: String)
    ensures
        r@ == "evt-"@ + text::padded_hex(h as nat, 16),
{
    let mut out: String = "evt-".to_owned();
    text::put_padded_hex(&mut out, h, 16);
    out
}

/// Different rows have different event ids.
pub proof fn law_event_ids_are_unique(i: u64, j: u64)
    requires
        event_id(i) == event_id(j),
    ensures
        i == j,
{
    let (a, b) = (
        text::padded_hex(mixed(i) as nat, 16),
        text::padded_hex(mixed(j) as nat, 16),
    );
    let n = "evt-"@.len() as int;
    text::lemma_padded_hex_len(mixed(i) as nat, 16);
    text::lemma_padded_hex_len(mixed(j) as nat, 16);
    assert(event_id(i).skip(n) =~= a);
    assert(event_id(j).skip(n) =~= b);
    reveal_with_fuel(text::pow16, 17);
    text::lemma_padded_hex_injective(mixed(i) as nat, mixed(j) as nat, 16);
    law_mix_is_injective(i, j);
}

/// The columns of a run of rows.
pub struct RowColumns {
    pub ids: Vec<i64>,
    pub ts: Vec<i64>,
    pub user_ids: Vec<i64>,
    pub event_ids: Vec<String>,
    pub amounts: Vec<i128>,
    pub regions: Vec<&'static str>,
}

impl RowColumns {
    /// The row at position `k` is row `r` of the table: `id` and `ts` grow with the row, the rest
    /// is scattered.
    pub open spec fn row_is(&self, k: int, r: u64) -> bool {
        &&& self.ids@[k] == r
        &&& self.ts@[k] == TS_BASE + r * TS_STEP
        &&& self.user_ids@[k] == mixed(r) % USER_CARD
        &&& self.event_ids@[k]@ == event_id(r)
        &&& self.amounts@[k] == mixed(r) % 10_000_000
        &&& self.regions@[k]@ == region_name((mixed(r) % 8) as int)
    }

    /// The columns hold the rows from `first` on, `n` of them.
    pub open spec fn rows_are(&self, first: u64, n: int) -> bool {
        &&& self.ids@.len() == n
        &&& self.ts@.len() == n
        &&& self.user_ids@.len() == n
        &&& self.event_ids@.len() == n
        &&& self.amounts@.len() == n
        &&& self.regions@.len() == n
        &&& forall|k: int| 0 <= k < n ==> self.row_is(k, #[trigger] nth_row(first, k))
    }
}

/// The row `k` after `first`.
pub open spec fn nth_row(first: u64, k: int) -> u64 {
    (first + k) as u64
}

/// The time of row `row` fits a timestamp.
pub open spec fn time_fits(row: int) -> bool {
    TS_BASE + row * TS_STEP <= i64::MAX
}

/// The columns of the rows from `first` on, `n` of them.
pub fn generate_rows(first: u64, n: u64) -> (r: RowColumns)
    requires
        n > 0 ==> time_fits(first + n - 1),
    ensures
        r.rows_are(first, n as int),
{
    let mut out = RowColumns {
        ids: Vec::new(),
        ts: Vec::new(),
        user_ids: Vec::new(),
        event_ids: Vec::new(),
        amounts: Vec::new(),
        regions: Vec::new(),
    };
    let mut k: u64 = 0;
    while k < n
        invariant
            k <= n,
            n > 0 ==> time_fits(first + n - 1),
            out.rows_are(first, k as int),
        decreases n - k,
    {
        let row: u64 = first + k;
        let h: u64 = mix(row);
        let ghost before = out;
        out.ids.push(row as i64);
        out.ts.push(TS_BASE + row as i64 * TS_STEP);
        out.user_ids.push((h % USER_CARD) as i64);
        out.event_ids.push(event_text(h));
        out.amounts.push((h % 10_000_000) as i128);
        out.regions.push(region(h % 8));
        proof {
            assert forall|j: int| 0 <= j < k + 1 implies out.row_is(
                j,
                #[trigger] nth_row(first, j),
            ) by {
                if j < k {
                    assert(before.row_is(j, nth_row(first, j)));
                }
            }
        }
        k = k + 1;
    }
    out
}

/// A run of rows.
#[derive(Clone, Copy, Debug, PartialEq, Eq)]
pub struct RowRange {
    pub first: u64,
    pub count: u64,
}

/// How many row groups hold `rows` rows.
pub open spec fn group_count(rows: int, size: int) -> int {
    (rows + size - 1) / size
}

/// The row group at position `k`: full but for the last.
pub open spec fn group_at(first_row: int, rows: int, size: int, k: int) -> (int, int) {
    (
        first_row + k * size,
        if rows - k * size < size {
            rows - k * size
        } else {
            size
        },
    )
}

/// The row groups of `rows` rows from `first_row` on, in order.
pub open spec fn groups_are(gs: Seq<RowRange>, first_row: int, rows: int, size: int) -> bool {
    &&& gs.len() == group_count(rows, size)
    &&& forall|k: int|
        0 <= k < gs.len() ==> ((#[trigger] gs[k]).first as int, gs[k].count as int) == group_at(
            first_row,
            rows,
            size,
            k,
        )
}

/// The row groups of a file: `rows` rows from `first_row` on, in groups of `row_group_size`.
pub fn row_groups(first_row: u64, rows: u64, row_group_size: u64) -> (r: Vec<RowRange>)
    requires
        row_group_size > 0,
        first_row + rows <= u64::MAX,
    ensures
        groups_are(r@, first_row as int, rows as int, row_group_size as int),
{
    let mut out: Vec<RowRange> = Vec::new();
    let mut done: u64 = 0;
    let ghost size = row_group_size as int;
    let ghost mut groups: int = 0;
    proof {
        lemma_group_count(rows as int, size, 0);
    }
    while done < rows
        invariant
            0 <= groups,
            size == row_group_size > 0,
            done <= rows,
            first_row + rows <= u64::MAX,
            out@.len() == groups,
            done == (if groups * size < rows {
                groups * size
            } else {
                rows as int
            }),
            groups > 0 ==> (groups - 1) * size < rows,
            rows == 0 ==> groups == 0,
            forall|k: int|
                0 <= k < groups ==> ((#[trigger] out@[k]).first as int, out@[k].count as int)
                    == group_at(first_row as int, rows as int, size, k),
        decreases rows - done,
    {
        let left: u64 = rows - done;
        let n: u64 = if row_group_size < left {
            row_group_size
        } else {
            left
        };
        out.push(RowRange { first: first_row + done, count: n });
        proof {
            assert((groups + 1) * size == groups * size + size) by (nonlinear_arith);
            groups = groups + 1;
        }
        done = done + n;
    }
    proof {
        lemma_group_count(rows as int, size, groups);
    }
    out
}

proof fn lemma_group_count(rows: int, size: int, groups: int)
    requires
        size > 0,
        rows >= 0,
        groups >= 0,
    ensures
        (groups > 0 ==> (groups - 1) * size < rows) && groups * size >= rows && (rows == 0
            ==> groups == 0) ==> groups == group_count(rows, size),
{
    if groups > 0 && (groups - 1) * size < rows && groups * size >= rows {
        let q = (rows + size - 1) / size;
        assert(q == groups) by (nonlinear_arith)
            requires
                size > 0,
                (groups - 1) * size < rows,
                groups * size >= rows,
                q == (rows + size - 1) / size,
        ;
    }
    if groups == 0 && rows == 0 {
        assert((size - 1) / size == 0) by (nonlinear_arith)
            requires
                size > 0,
        ;
    }
}

/// Generation is deterministic: the same arguments give the same row groups, and the same rows in
/// each of them.
pub proof fn law_generation_is_deterministic(
    gs: Seq<RowRange>,
    hs: Seq<RowRange>,
    first_row: int,
    rows: int,
    size: int,
    a: RowColumns,
    b: RowColumns,
    first: u64,
    n: u64,
)
    requires
        groups_are(gs, first_row, rows, size),
        groups_are(hs, first_row, rows, size),
        a.rows_are(first, n as int),
        b.rows_are(first, n as int),
    ensures
        gs == hs,
        a.ids@ == b.ids@,
        a.ts@ == b.ts@,
        a.user_ids@ == b.user_ids@,
        a.event_ids@.map_values(|s: String| s@) == b.event_ids@.map_values(|s: String| s@),
        a.amounts@ == b.amounts@,
        a.regions@.map_values(|s: &'static str| s@) == b.regions@.map_values(
            |s: &'static str| s@,
        ),
{
    assert forall|k: int| 0 <= k < gs.len() implies gs[k] == hs[k] by {
        assert((gs[k].first as int, gs[k].count as int) == (
            hs[k].first as int,
            hs[k].count as int,
        ));
    }
    assert(gs =~= hs);
    assert forall|k: int| 0 <= k < n implies a.row_is(k, nth_row(first, k)) && b.row_is(
        k,
        #[trigger] nth_row(first, k),
    ) by {}
    assert forall|k: int| 0 <= k < n implies #[trigger] a.ids@[k] == b.ids@[k] by {
        assert(a.row_is(k, nth_row(first, k)));
    }
    assert(a.ids@ =~= b.ids@);
    assert forall|k: int| 0 <= k < n implies #[trigger] a.ts@[k] == b.ts@[k] by {
        assert(a.row_is(k, nth_row(first, k)));
    }
    assert(a.ts@ =~= b.ts@);
    assert forall|k: int| 0 <= k < n implies #[trigger] a.user_ids@[k] == b.user_ids@[k] by {
        assert(a.row_is(k, nth_row(first, k)));
    }
    assert(a.user_ids@ =~= b.user_ids@);
    assert forall|k: int| 0 <= k < n implies #[trigger] a.amounts@[k] == b.amounts@[k] by {
        assert(a.row_is(k, nth_row(first, k)));
    }
    assert(a.amounts@ =~= b.amounts@);
    let (x, y) = (
        a.event_ids@.map_values(|s: String| s@),
        b.event_ids@.map_values(|s: String| s@),
    );
    assert forall|k: int| 0 <= k < n implies #[trigger] x[k] == y[k] by {
        assert(a.row_is(k, nth_row(first, k)));
    }
    assert(x =~= y);
    let (u, v) = (
        a.regions@.map_values(|s: &'static str| s@),
        b.regions@.map_values(|s: &'static str| s@),
    );
    assert forall|k: int| 0 <= k < n implies #[trigger] u[k] == v[k] by {
        assert(a.row_is(k, nth_row(first, k)));
    }
    assert(u =~= v);
}

/// The row groups of a file follow one another and hold all its rows.
pub proof fn law_row_groups_tile_the_rows(first_row: int, rows: int, size: int, k: int)
    requires
        size > 0,
        rows >= 0,
        0 <= k < group_count(rows, size),
    ensures
        group_at(first_row, rows, size, 0).0 == first_row,
        0 < group_at(first_row, rows, size, k).1 <= size,
        k + 1 < group_count(rows, size) ==> group_at(first_row, rows, size, k).0 + group_at(
            first_row,
            rows,
            size,
            k,
        ).1 == group_at(first_row, rows, size, k + 1).0,
        k + 1 == group_count(rows, size) ==> group_at(first_row, rows, size, k).0 + group_at(
            first_row,
            rows,
            size,
            k,
        ).1 == first_row + rows,
{
    let n = group_count(rows, size);
    assert(n * size <= rows + size - 1 < (n + 1) * size) by (nonlinear_arith)
        requires
            size > 0,
            n == (rows + size - 1) / size,
    ;
    assert((k + 1) * size == k * size + size) by (nonlinear_arith);
    assert((n + 1) * size == n * size + size) by (nonlinear_arith);
    assert(k * size <= (n - 1) * size) by (nonlinear_arith)
        requires
            k <= n - 1,
            size > 0,
    ;
    assert((n - 1) * size == n * size - size) by (nonlinear_arith);
    if k + 1 < n {
        assert((k + 1) * size <= (n - 1) * size) by (nonlinear_arith)
            requires
                k + 1 <= n - 1,
                size > 0,
        ;
    }
}

/// A benchmark query and the predicate class it exercises.
pub struct Query {
    pub name: &'static str,
    pub class: &'static str,
    pub filters: Vec<Expr>,
    /// SQL predicate (for the measured-latency phase).
    pub sql_where: String,
    /// Take part in the (memory-safe, heavily-pruned) latency subset.
    pub latency: bool,
}

/// `column <op> literal`, of a literal that is no string.
pub open spec fn compares_with(e: Expr, column: Seq<char>, op: Operator, s: ScalarValue) -> bool {
    match e {
        Expr::BinaryExpr { left, op: own, right } => own == op && *right == Expr::Literal(s)
            && match *left {
            Expr::Column(c) => c@ == column,
            _ => false,
        },
        _ => false,
    }
}

/// `column = string`.
pub open spec fn equals_text(e: Expr, column: Seq<char>, t: Seq<char>) -> bool {
    match e {
        Expr::BinaryExpr { left, op, right } => op is Eq && match (*left, *right) {
            (Expr::Column(c), Expr::Literal(ScalarValue::Utf8(Some(s)))) => c@ == column && s@ == t,
            _ => false,
        },
        _ => false,
    }
}

/// Nine tenths of a count, computed in binary64 and cut to a whole number: `0.9` is
/// `8106479329266893 / 2^53` there, and both the count and the product round to 53 bits.
pub open spec fn nine_tenths(rows: int) -> int {
    float::round_53(float::round_53(rows) * 8_106_479_329_266_893) / 0x20_0000_0000_0000
}

/// The time that nine tenths of the rows come before.
pub open spec fn p90_time(rows: int) -> int {
    TS_BASE + nine_tenths(rows) * TS_STEP
}

/// The row that a query for an existing value picks.
pub open spec fn existing_row(rows: u64) -> u64 {
    rows / 3
}

/// An event id that no row has: an existing one and a letter that is no hexadecimal digit.
pub open spec fn absent_event(rows: u64) -> Seq<char> {
    event_id(existing_row(rows)).push('z')
}

/// What a query says in words.
pub open spec fn query_words(
    q: Query,
    name: Seq<char>,
    class: Seq<char>,
    sql_where: Seq<char>,
    latency: bool,
) -> bool {
    &&& q.name@ == name
    &&& q.class@ == class
    &&& q.sql_where@ == sql_where
    &&& q.latency == latency
    &&& q.filters@.len() == 1
}

/// The query spectrum over a table of `rows` rows.
pub open spec fn spectrum(qs: Seq<Query>, rows: u64) -> bool {
    let mid = (rows / 2) as i64;
    let user = (mixed(existing_row(rows)) % USER_CARD) as i64;
    let event = event_id(existing_row(rows));
    &&& qs.len() == 7
    &&& query_words(
        qs[0],
        "id = mid"@,
        "clustered point (zone map)"@,
        "id = "@ + text::signed_decimal(mid as int),
        true,
    )
    &&& compares_with(qs[0].filters@[0], "id"@, Operator::Eq, ScalarValue::Int64(Some(mid)))
    &&& query_words(
        qs[1],
        "ts >= p90"@,
        "clustered range (zone map)"@,
        "ts >= arrow_cast("@ + text::signed_decimal(p90_time(rows as int))
            + ", 'Timestamp(Microsecond, None)')"@,
        false,
    )
    &&& compares_with(
        qs[1].filters@[0],
        "ts"@,
        Operator::GtEq,
        ScalarValue::TimestampMicrosecond(Some(p90_time(rows as int) as i64)),
    )
    &&& query_words(
        qs[2],
        "user_id = X"@,
        "scattered point — BLOOM vs stats"@,
        "user_id = "@ + text::signed_decimal(user as int),
        false,
    )
    &&& compares_with(qs[2].filters@[0], "user_id"@, Operator::Eq, ScalarValue::Int64(Some(user)))
    &&& query_words(
        qs[3],
        "event_id = existing"@,
        "unique point — BLOOM vs stats"@,
        "event_id = '"@ + event + "'"@,
        true,
    )
    &&& equals_text(qs[3].filters@[0], "event_id"@, event)
    &&& query_words(
        qs[4],
        "event_id = ABSENT (in-range)"@,
        "absent value — BLOOM prunes ALL"@,
        "event_id = '"@ + absent_event(rows) + "'"@,
        true,
    )
    &&& equals_text(qs[4].filters@[0], "event_id"@, absent_event(rows))
    &&& query_words(
        qs[5],
        "amount > 99000.00"@,
        "scattered numeric (zone map — honest miss)"@,
        "amount > 99000.00"@,
        false,
    )
    &&& compares_with(
        qs[5].filters@[0],
        "amount"@,
        Operator::Gt,
        ScalarValue::Decimal128(Some(9_900_000), 12, 2),
    )
    &&& query_words(
        qs[6],
        "region = 'eu'"@,
        "low-card everywhere (honest 0%)"@,
        "region = 'eu'"@,
        false,
    )
    &&& equals_text(qs[6].filters@[0], "region"@, "eu"@)
}

fn column_compare(column: &str, op: Operator, s: ScalarValue) -> (r: Expr)
    ensures
        !(s is Utf8) ==> compares_with(r, column@, op, s),
        op is Eq && s is Utf8 && s->Utf8_0 is Some ==> equals_text(r, column@, s->Utf8_0->0@),
{
    Expr::BinaryExpr {
        left: Box::new(Expr::Column(column.to_owned())),
        op,
        right: Box::new(Expr::Literal(s)),
    }
}

fn one_filter(e: Expr) -> (r: Vec<Expr>)
    ensures
        r@ == seq![e],
{
    let mut out: Vec<Expr> = Vec::new();
    out.push(e);
    out
}

fn quoted(before: &str, detail: &String, after: &str) -> (r: String)
    ensures
        r@ == before@ + detail@ + after@,
{
    let mut out: String = before.to_owned();
    out.append(detail.as_str());
    out.append(after);
    out
}

fn numbered(before: &str, n: i64, after: &str) -> (r: String)
    ensures
        r@ == before@ + text::signed_decimal(n as int) + after@,
{
    let mut out: String = before.to_owned();
    text::put_signed_decimal(&mut out, n);
    out.append(after);
    out
}

/// Nine tenths of a count, as binary64 arithmetic has it.
fn p90_row(rows: u64) -> (r: u128)
    ensures
        r == nine_tenths(rows as int),
{
    let n: u128 = float::round_to_double(rows as u128);
    proof {
        float::lemma_round_53(rows as int);
        assert(n * 8_106_479_329_266_893 <= 0x2_0000_0000_0000_0000 * 8_106_479_329_266_893) by (
        nonlinear_arith)
            requires
                n <= 0x2_0000_0000_0000_0000,
        ;
    }
    float::round_to_double(n * 8_106_479_329_266_893) / 0x20_0000_0000_0000
}

/// The query spectrum, parameterized by the row count so the picked values exist.
pub fn queries(rows: u64) -> (r: Vec<Query>)
    requires
        p90_time(rows as int) <= i64::MAX,
    ensures
        spectrum(r@, rows),
{
    let mid: i64 = (rows / 2) as i64;
    let p90: u128 = p90_row(rows);
    let p90_ts: i64 = TS_BASE + p90 as i64 * TS_STEP;
    let h: u64 = mix(rows / 3);
    let user: i64 = (h % USER_CARD) as i64;
    let event: String = event_text(h);
    let mut absent: String = event.clone();
    absent.push('z');
    let mut out: Vec<Query> = Vec::new();
    out.push(
        Query {
            name: "id = mid",
            class: "clustered point (zone map)",
            filters: one_filter(
                column_compare("id", Operator::Eq, ScalarValue::Int64(Some(mid))),
            ),
            sql_where: numbered("id = ", mid, ""),
            latency: true,
        },
    );
    out.push(
        Query {
            name: "ts >= p90",
            class: "clustered range (zone map)",
            filters: one_filter(
                column_compare(
                    "ts",
                    Operator::GtEq,
                    ScalarValue::TimestampMicrosecond(Some(p90_ts)),
                ),
            ),
            sql_where: numbered(
                "ts >= arrow_cast(",
                p90_ts,
                ", 'Timestamp(Microsecond, None)')",
            ),
            latency: false,
        },
    );
    out.push(
        Query {
            name: "user_id = X",
            class: "scattered point — BLOOM vs stats",
            filters: one_filter(
                column_compare("user_id", Operator::Eq, ScalarValue::Int64(Some(user))),
            ),
            sql_where: numbered("user_id = ", user, ""),
            latency: false,
        },
    );
    let where_event: String = quoted("event_id = '", &event, "'");
    let where_absent: String = quoted("event_id = '", &absent, "'");
    out.push(
        Query {
            name: "event_id = existing",
            class: "unique point — BLOOM vs stats",
            filters: one_filter(
                column_compare("event_id", Operator::Eq, ScalarValue::Utf8(Some(event))),
            ),
            sql_where: where_event,
            latency: true,
        },
    );
    out.push(
        Query {
            name: "event_id = ABSENT (in-range)",
            class: "absent value — BLOOM prunes ALL",
            filters: one_filter(
                column_compare("event_id", Operator::Eq, ScalarValue::Utf8(Some(absent))),
            ),
            sql_where: where_absent,
            latency: true,
        },
    );
    out.push(
        Query {
            name: "amount > 99000.00",
            class: "scattered numeric (zone map — honest miss)",
            filters: one_filter(
                column_compare(
                    "amount",
                    Operator::Gt,
                    ScalarValue::Decimal128(Some(9_900_000), 12, 2),
                ),
            ),
            sql_where: "amount > 99000.00".to_owned(),
            latency: false,
        },
    );
    out.push(
        Query {
            name: "region = 'eu'",
            class: "low-card everywhere (honest 0%)",
            filters: one_filter(
                column_compare(
                    "region",
                    Operator::Eq,
                    ScalarValue::Utf8(Some("eu".to_owned())),
                ),
            ),
            sql_where: "region = 'eu'".to_owned(),
            latency: false,
        },
    );
    proof {
        reveal_strlit("");
        assert("id = "@ + text::signed_decimal(mid as int) + ""@ =~= "id = "@
            + text::signed_decimal(mid as int));
        assert("user_id = "@ + text::signed_decimal(user as int) + ""@ =~= "user_id = "@
            + text::signed_decimal(user as int));
    }
    out
}

/// The event id that the spectrum calls absent is that of no row.
pub proof fn law_absent_event_is_absent(rows: u64, r: u64)
    ensures
        event_id(r) != absent_event(rows),
{
    text::lemma_padded_hex_len(mixed(r) as nat, 16);
    text::lemma_padded_hex_len(mixed(existing_row(rows)) as nat, 16);
    assert(absent_event(rows).len() == event_id(r).len() + 1);
}

/// One row of the analytical report.
#[derive(Clone, Debug)]
pub struct AnalyticRow {
    pub name: &'static str,
    pub class: &'static str,
    pub rg_total: usize,
    /// Survivors with the zone map only.
    pub rg_zonemap: usize,
    /// Survivors with the zone map and the blooms.
    pub rg_karma: usize,
    pub bytes_total: u64,
    pub bytes_karma: u64,
}

/// The bytes of a zone's row group; a negative size counts as none.
pub open spec fn group_bytes(zs: Seq<ZoneModel>, sizes: Seq<i64>, i: int) -> int {
    let size = sizes[zs[i].zone_id as int];
    if size < 0 {
        0
    } else {
        size as int
    }
}

/// The bytes of the row groups at some positions, from the `k`th position on.
pub open spec fn bytes_at(
    zs: Seq<ZoneModel>,
    sizes: Seq<i64>,
    positions: Seq<usize>,
    k: int,
) -> int
    decreases positions.len() - k,
{
    if 0 <= k < positions.len() {
        group_bytes(zs, sizes, positions[k] as int) + bytes_at(zs, sizes, positions, k + 1)
    } else {
        0
    }
}

/// All positions of a zone map.
pub open spec fn every_position(zs: Seq<ZoneModel>) -> Seq<usize> {
    Seq::new(zs.len(), |i: int| i as usize)
}

/// The bytes a scan of some zones fetches: their row groups, and eight bytes of footer.
pub open spec fn scan_bytes(zs: Seq<ZoneModel>, sizes: Seq<i64>, positions: Seq<usize>) -> int {
    bytes_at(zs, sizes, positions, 0) + 8
}

/// Every zone is a row group of the file.
pub open spec fn sizes_known(zs: Seq<ZoneModel>, sizes: Seq<i64>) -> bool {
    forall|i: int| 0 <= i < zs.len() ==> (#[trigger] zs[i]).zone_id < sizes.len()
}

proof fn lemma_bytes_nonnegative(
    zs: Seq<ZoneModel>,
    sizes: Seq<i64>,
    positions: Seq<usize>,
    k: int,
)
    ensures
        0 <= bytes_at(zs, sizes, positions, k),
    decreases positions.len() - k,
{
    if 0 <= k < positions.len() {
        lemma_bytes_nonnegative(zs, sizes, positions, k + 1);
    }
}

proof fn lemma_bytes_split(
    zs: Seq<ZoneModel>,
    sizes: Seq<i64>,
    positions: Seq<usize>,
    head: usize,
    rest: Seq<usize>,
    k: int,
)
    requires
        positions == seq![head] + rest,
        0 <= k <= rest.len(),
    ensures
        bytes_at(zs, sizes, positions, k + 1) == bytes_at(zs, sizes, rest, k),
    decreases rest.len() - k,
{
    if k < rest.len() {
        assert(positions[k + 1] == rest[k]);
        lemma_bytes_split(zs, sizes, positions, head, rest, k + 1);
    }
}

/// The bytes of the positions from `i` on.
proof fn lemma_survivors_weigh_less(
    zs: Seq<ZoneModel>,
    blooms: Option<Seq<crate::bloom::EntryModel>>,
    preds: Seq<crate::prune::PredicateModel>,
    lists: Seq<(i32, Seq<crate::zonemap::Datum>)>,
    sizes: Seq<i64>,
    i: int,
)
    requires
        0 <= i <= zs.len(),
        zs.len() <= usize::MAX,
    ensures
        bytes_at(zs, sizes, translate::survivors(zs, blooms, preds, lists, i), 0) <= bytes_at(
            zs,
            sizes,
            every_position(zs),
            i,
        ),
    decreases zs.len() - i,
{
    let here = translate::survivors(zs, blooms, preds, lists, i);
    if i < zs.len() {
        let rest = translate::survivors(zs, blooms, preds, lists, i + 1);
        lemma_survivors_weigh_less(zs, blooms, preds, lists, sizes, i + 1);
        if translate::id_survives(zs, blooms, preds, lists, zs[i].zone_id) {
            assert(here =~= seq![i as usize] + rest);
            lemma_bytes_split(zs, sizes, here, i as usize, rest, 0);
        }
    }
}

/// A pruned scan never fetches more than a full one.
pub proof fn law_pruning_never_reads_more(
    zs: Seq<ZoneModel>,
    blooms: Option<Seq<crate::bloom::EntryModel>>,
    ids: Map<Seq<char>, i32>,
    filters: Seq<Expr>,
    sizes: Seq<i64>,
)
    requires
        zs.len() <= usize::MAX,
    ensures
        scan_bytes(zs, sizes, translate::zones_to_read(zs, blooms, ids, filters)) <= scan_bytes(
            zs,
            sizes,
            every_position(zs),
        ),
{
    lemma_survivors_weigh_less(
        zs,
        blooms,
        translate::all_predicates(ids, filters, 0),
        translate::all_lists(ids, filters, 0),
        sizes,
        0,
    );
}

/// Sum the compressed sizes of the given zones' row groups (and the footer): the bytes a scan of
/// exactly those zones would fetch. `sizes` holds the compressed size of each row group.
pub fn bytes_for<S>(sizes: &[i64], sidecar: &Sidecar<S>, zone_indices: &[usize]) -> (r: u64)
    requires
        sizes_known(sidecar.zone_map@, sizes@),
        forall|k: int|
            0 <= k < zone_indices@.len() ==> #[trigger] zone_indices@[k]
                < sidecar.zone_map@.len(),
        scan_bytes(sidecar.zone_map@, sizes@, zone_indices@) <= u64::MAX,
    ensures
        r == scan_bytes(sidecar.zone_map@, sizes@, zone_indices@),
{
    let ghost zs = sidecar.zone_map@;
    let mut sum: u64 = 8;
    let mut k: usize = 0;
    while k < zone_indices.len()
        invariant
            k <= zone_indices@.len(),
            zs == sidecar.zone_map@,
            sizes_known(zs, sizes@),
            forall|j: int|
                0 <= j < zone_indices@.len() ==> #[trigger] zone_indices@[j]
                    < sidecar.zone_map@.len(),
            scan_bytes(zs, sizes@, zone_indices@) <= u64::MAX,
            sum + bytes_at(zs, sizes@, zone_indices@, k as int) == scan_bytes(
                zs,
                sizes@,
                zone_indices@,
            ),
        decreases zone_indices@.len() - k,
    {
        proof {
            lemma_bytes_nonnegative(zs, sizes@, zone_indices@, k + 1);
            assert(zs[zone_indices@[k as int] as int].zone_id < sizes@.len());
            assert(zs[zone_indices@[k as int] as int].zone_id
                == sidecar.zone_map.zones@[zone_indices@[k as int] as int].zone_id);
        }
        let rg: usize = sidecar.zone_map.zones[zone_indices[k]].zone_id as usize;
        let size: i64 = sizes[rg];
        if size > 0 {
            sum = sum + size as u64;
        }
        k = k + 1;
    }
    sum
}

/// What the report says of one query.
pub open spec fn row_reports<S>(
    row: AnalyticRow,
    q: Query,
    sizes: Seq<i64>,
    sidecar: Sidecar<S>,
) -> bool {
    let zs = sidecar.zone_map@;
    let ids = sidecar.field_ids@;
    let stats = translate::zones_to_read(zs, None, ids, q.filters@);
    let karma = translate::zones_to_read(zs, Some(sidecar.blooms@), ids, q.filters@);
    &&& row.name@ == q.name@
    &&& row.class@ == q.class@
    &&& row.rg_total == zs.len()
    &&& row.rg_zonemap == stats.len()
    &&& row.rg_karma == karma.len()
    &&& row.bytes_total == scan_bytes(zs, sizes, every_position(zs))
    &&& row.bytes_karma == scan_bytes(zs, sizes, karma)
}

proof fn lemma_positions_in_range<S>(
    sidecar: Sidecar<S>,
    blooms: Option<Seq<crate::bloom::EntryModel>>,
    filters: Seq<Expr>,
)
    requires
        sidecar.zone_map@.len() <= usize::MAX,
    ensures
        forall|k: int|
            0 <= k < translate::zones_to_read(
                sidecar.zone_map@,
                blooms,
                sidecar.field_ids@,
                filters,
            ).len() ==> #[trigger] translate::zones_to_read(
                sidecar.zone_map@,
                blooms,
                sidecar.field_ids@,
                filters,
            )[k] < sidecar.zone_map@.len(),
{
    let zs = sidecar.zone_map@;
    let ids = sidecar.field_ids@;
    let read = translate::zones_to_read(zs, blooms, ids, filters);
    assert forall|k: int| 0 <= k < read.len() implies #[trigger] read[k] < zs.len() by {
        assert(read.contains(read[k]));
        translate::law_survivors_are_the_surviving_positions(
            zs,
            blooms,
            translate::all_predicates(ids, filters, 0),
            translate::all_lists(ids, filters, 0),
            read[k],
        );
    }
}

/// Measure every query: how many row groups survive and how many bytes a scan would fetch.
/// Nothing is read from the file, so this runs at any scale.
pub fn analyse<S>(sizes: &[i64], sidecar: &Sidecar<S>, qs: &[Query]) -> (r: Vec<AnalyticRow>)
    requires
        sizes_known(sidecar.zone_map@, sizes@),
        scan_bytes(sidecar.zone_map@, sizes@, every_position(sidecar.zone_map@)) <= u64::MAX,
    ensures
        r@.len() == qs@.len(),
        forall|k: int|
            0 <= k < qs@.len() ==> row_reports(#[trigger] r@[k], qs@[k], sizes@, *sidecar),
{
    let n: usize = sidecar.zone_map.zones.len();
    let ghost zs = sidecar.zone_map@;
    let mut all: Vec<usize> = Vec::new();
    while all.len() < n
        invariant
            all@.len() <= n,
            forall|k: int| 0 <= k < all@.len() ==> #[trigger] all@[k] == k,
        decreases n - all@.len(),
    {
        let i: usize = all.len();
        all.push(i);
    }
    proof {
        assert(all@ =~= every_position(zs));
    }
    let bytes_total: u64 = bytes_for(sizes, sidecar, all.as_slice());
    let mut out: Vec<AnalyticRow> = Vec::new();
    let mut k: usize = 0;
    while k < qs.len()
        invariant
            k <= qs@.len(),
            n == sidecar.zone_map.zones@.len(),
            zs == sidecar.zone_map@,
            sizes_known(zs, sizes@),
            scan_bytes(zs, sizes@, every_position(zs)) <= u64::MAX,
            bytes_total == scan_bytes(zs, sizes@, every_position(zs)),
            out@.len() == k,
            forall|j: int|
                0 <= j < k ==> row_reports(#[trigger] out@[j], qs@[j], sizes@, *sidecar),
        decreases qs@.len() - k,
    {
        let q: &Query = &qs[k];
        let stats: Vec<usize> = translate::surviving_zone_indices(
            &sidecar.zone_map,
            None,
            &sidecar.field_ids,
            q.filters.as_slice(),
        );
        let karma: Vec<usize> = translate::surviving_zone_indices(
            &sidecar.zone_map,
            Some(&sidecar.blooms),
            &sidecar.field_ids,
            q.filters.as_slice(),
        );
        proof {
            lemma_positions_in_range(*sidecar, Some(sidecar.blooms@), q.filters@);
            law_pruning_never_reads_more(
                zs,
                Some(sidecar.blooms@),
                sidecar.field_ids@,
                q.filters@,
                sizes@,
            );
        }
        out.push(
            AnalyticRow {
                name: q.name,
                class: q.class,
                rg_total: n,
                rg_zonemap: stats.len(),
                rg_karma: karma.len(),
                bytes_total,
                bytes_karma: bytes_for(sizes, sidecar, karma.as_slice()),
            },
        );
        k = k + 1;
    }
    out
}

/// The rows of the zones from `i` on.
pub open spec fn rows_from(zs: Seq<ZoneModel>, i: int) -> int
    decreases zs.len() - i,
{
    if 0 <= i < zs.len() {
        zs[i].row_count + rows_from(zs, i + 1)
    } else {
        0
    }
}

proof fn lemma_rows_nonnegative(zs: Seq<ZoneModel>, i: int)
    ensures
        0 <= rows_from(zs, i),
    decreases zs.len() - i,
{
    if 0 <= i < zs.len() {
        lemma_rows_nonnegative(zs, i + 1);
    }
}

/// The queries, sized to the file's row count (the zone map's total rows).
pub fn queries_for<S>(sidecar: &Sidecar<S>) -> (r: Vec<Query>)
    requires
        rows_from(sidecar.zone_map@, 0) <= u64::MAX,
        p90_time(rows_from(sidecar.zone_map@, 0)) <= i64::MAX,
    ensures
        spectrum(r@, rows_from(sidecar.zone_map@, 0) as u64),
{
    let ghost zs = sidecar.zone_map@;
    let mut rows: u64 = 0;
    let mut i: usize = 0;
    while i < sidecar.zone_map.zones.len()
        invariant
            i <= sidecar.zone_map.zones@.len(),
            zs == sidecar.zone_map@,
            rows_from(zs, 0) <= u64::MAX,
            rows + rows_from(zs, i as int) == rows_from(zs, 0),
        decreases sidecar.zone_map.zones@.len() - i,
    {
        proof {
            lemma_rows_nonnegative(zs, i + 1);
            assert(zs[i as int].row_count == sidecar.zone_map.zones@[i as int].row_count);
        }
        rows = rows + sidecar.zone_map.zones[i].row_count;
        i = i + 1;
    }
    queries(rows)
}

/// The analytical report over the whole spectrum. `sizes` holds the compressed size of each row
/// group.
pub fn run_analytical<S>(sizes: &[i64], sidecar: &Sidecar<S>) -> (r: Vec<AnalyticRow>)
    requires
        sizes_known(sidecar.zone_map@, sizes@),
        scan_bytes(sidecar.zone_map@, sizes@, every_position(sidecar.zone_map@)) <= u64::MAX,
        rows_from(sidecar.zone_map@, 0) <= u64::MAX,
        p90_time(rows_from(sidecar.zone_map@, 0)) <= i64::MAX,
    ensures
        exists|qs: Seq<Query>|
            #![trigger spectrum(qs, rows_from(sidecar.zone_map@, 0) as u64)]
            spectrum(qs, rows_from(sidecar.zone_map@, 0) as u64) && r@.len() == qs.len()
                && forall|k: int|
                0 <= k < qs.len() ==> row_reports(#[trigger] r@[k], qs[k], sizes@, *sidecar),
{
    let qs: Vec<Query> = queries_for(sidecar);
    let r: Vec<AnalyticRow> = analyse(sizes, sidecar, qs.as_slice());
    proof {
        assert(spectrum(qs@, rows_from(sidecar.zone_map@, 0) as u64));
    }
    r
}

/// The name of a unit of bytes.
pub open spec fn unit_name(i: int) -> Seq<char> {
    if i == 0 {
        "B"@
    } else if i == 1 {
        "KB"@
    } else if i == 2 {
        "MB"@
    } else if i == 3 {
        "GB"@
    } else {
        "TB"@
    }
}

/// The unit, from `i` on, in which a number of bytes is below 1024, or terabytes; and the bytes in
/// one of it, `scale` being those of unit `i`.
pub open spec fn unit_of(b: int, i: int, scale: int) -> (int, int)
    decreases 4 - i,
{
    if i < 4 && b >= 1024 * scale {
        unit_of(b, i + 1, 1024 * scale)
    } else {
        (i, scale)
    }
}

/// A number of bytes with one decimal in its unit. The number counts as a binary64, and the last
/// digit rounds to nearest, ties to even.
pub open spec fn bytes_text(b: int) -> Seq<char> {
    let v = float::round_53(b);
    let (unit, scale) = unit_of(v, 0, 1);
    let tenths = float::round_half_even(10 * v, scale);
    text::decimal((tenths / 10) as nat) + "."@ + text::decimal((tenths % 10) as nat) + " "@
        + unit_name(unit)
}

/// A number of bytes in words.
pub fn human_bytes(b: u64) -> (r: String)
    ensures
        r@ == bytes_text(b as int),
{
    let v: u128 = float::round_to_double(b as u128);
    proof {
        float::lemma_round_53(b as int);
    }
    let mut scale: u128 = 1;
    let mut i: u64 = 0;
    while i < 4 && v >= 1024 * scale
        invariant
            i <= 4,
            0 < scale <= 0x100_0000_0000,
            i == 0 ==> scale == 1,
            i == 1 ==> scale == 0x400,
            i == 2 ==> scale == 0x10_0000,
            i == 3 ==> scale == 0x4000_0000,
            i == 4 ==> scale == 0x100_0000_0000,
            unit_of(v as int, 0, 1) == unit_of(v as int, i as int, scale as int),
        decreases 4 - i,
    {
        scale = 1024 * scale;
        i = i + 1;
    }
    let q: u128 = 10 * v / scale;
    let low: u128 = 10 * v % scale;
    proof {
        assert(10 * v / scale as int <= 10 * v) by (nonlinear_arith)
            requires
                scale > 0,
        ;
    }
    let tenths: u128 = if 2 * low > scale || (2 * low == scale && q % 2 == 1) {
        q + 1
    } else {
        q
    };
    proof {
        lemma_tenths_fit(v as int, scale as int, i as int);
    }
    let mut out: String = String::new();
    text::put_decimal(&mut out, (tenths / 10) as u64);
    out.append(".");
    text::put_decimal(&mut out, (tenths % 10) as u64);
    out.append(" ");
    out.append(
        match i {
            0 => "B",
            1 => "KB",
            2 => "MB",
            3 => "GB",
            _ => "TB",
        },
    );
    proof {
        assert(tenths == float::round_half_even(10 * v, scale as int));
        assert(out@ =~= bytes_text(b as int));
    }
    out
}

proof fn lemma_tenths_fit(v: int, scale: int, i: int)
    requires
        0 <= v <= 0x2_0000_0000_0000_0000,
        0 < scale,
        v < 1024 * scale || scale == 0x100_0000_0000,
    ensures
        float::round_half_even(10 * v, scale) / 10 <= u64::MAX,
{
    if v < 1024 * scale {
        assert(10 * v / scale <= 10240) by (nonlinear_arith)
            requires
                v < 1024 * scale,
                scale > 0,
        ;
    }
}

/// What a row of the report's table says, with the two percentages rendered as `pruned` and
/// `saved`.
pub open spec fn table_line(r: AnalyticRow, pruned: Seq<char>, saved: Seq<char>) -> Seq<char> {
    "| `"@ + r.name@ + "` | "@ + r.class@ + " | "@ + text::decimal(r.rg_total as nat) + " | "@
        + text::decimal(r.rg_zonemap as nat) + " | "@ + text::decimal(r.rg_karma as nat) + " | "@
        + pruned + "% | "@ + bytes_text(r.bytes_karma as int) + " | **"@ + saved + "%** |\n"@
}

/// The lines of the table from row `i` on.
pub open spec fn table_lines(
    rows: Seq<AnalyticRow>,
    percents: Seq<(String, String)>,
    i: int,
) -> Seq<char>
    decreases rows.len() - i,
{
    if 0 <= i < rows.len() {
        table_line(rows[i], percents[i].0@, percents[i].1@) + table_lines(rows, percents, i + 1)
    } else {
        Seq::empty()
    }
}

/// The head of the table.
pub open spec fn table_head() -> Seq<char> {
    "| Query | Class | RG total | RG kept (stats) | RG kept (karma) | RG pruned | Bytes read | I/O saved |\n"@
        + "|---|---|--:|--:|--:|--:|--:|--:|\n"@
}

fn put_line(s: &mut String, r: &AnalyticRow, pruned: &String, saved: &String)
    ensures
        final(s)@ == old(s)@ + table_line(*r, pruned@, saved@),
{
    s.append("| `");
    s.append(r.name);
    s.append("` | ");
    s.append(r.class);
    s.append(" | ");
    text::put_decimal(s, r.rg_total as u64);
    s.append(" | ");
    text::put_decimal(s, r.rg_zonemap as u64);
    s.append(" | ");
    text::put_decimal(s, r.rg_karma as u64);
    s.append(" | ");
    s.append(pruned.as_str());
    s.append("% | ");
    s.append(human_bytes(r.bytes_karma).as_str());
    s.append(" | **");
    s.append(saved.as_str());
    s.append("%** |\n");
    proof {
        assert(s@ =~= old(s)@ + table_line(*r, pruned@, saved@));
    }
}

/// Render the analytical rows as a GitHub-flavored markdown table. `percents` holds, for each
/// row, the percentages of row groups pruned and of I/O saved, as text.
pub fn markdown_table(rows: &[AnalyticRow], percents: &[(String, String)]) -> (r: String)
    requires
        rows@.len() == percents@.len(),
    ensures
        r@ == table_head() + table_lines(rows@, percents@, 0),
{
    let mut s: String =
        "| Query | Class | RG total | RG kept (stats) | RG kept (karma) | RG pruned | Bytes read | I/O saved |\n".to_owned();
    s.append("|---|---|--:|--:|--:|--:|--:|--:|\n");
    let mut i: usize = 0;
    while i < rows.len()
        invariant
            i <= rows@.len() == percents@.len(),
            s@ + table_lines(rows@, percents@, i as int) == table_head() + table_lines(
                rows@,
                percents@,
                0,
            ),
        decreases rows@.len() - i,
    {
        let ghost before = s@;
        put_line(&mut s, &rows[i], &percents[i].0, &percents[i].1);
        proof {
            assert(s@ + table_lines(rows@, percents@, i + 1) =~= before + table_lines(
                rows@,
                percents@,
                i as int,
            ));
        }
        i = i + 1;
    }
    proof {
        assert(s@ =~= s@ + table_lines(rows@, percents@, i as int));
    }
    s
}

/// The row that a hash was mixed of: SplitMix64 undone step by step, with the inverses of its two
/// factors.
pub open spec fn unmixed(z: u64) -> int {
    let c = z ^ (z >> 31) ^ (z >> 62);
    let p = ((c * 0x3196_42b2_d24d_8ec3) % 0x1_0000_0000_0000_0000) as u64;
    let b = p ^ (p >> 27) ^ (p >> 54);
    let q = ((b * 0x96de_1b17_3f11_9089) % 0x1_0000_0000_0000_0000) as u64;
    let a = q ^ (q >> 30) ^ (q >> 60);
    (a - 0x9E37_79B9_7F4A_7C15) % 0x1_0000_0000_0000_0000
}

/// Mixing is SplitMix64: undoing its steps gives every row back.
pub proof fn law_mixing_is_undone(i: u64)
    ensures
        unmixed(mixed(i)) == i,
{
    let a = low_64(i + 0x9E37_79B9_7F4A_7C15);
    let x = a ^ (a >> 30);
    let b = low_64(x * 0xBF58_476D_1CE4_E5B9);
    let y = b ^ (b >> 27);
    let c = low_64(y * 0x94D0_49BB_1331_11EB);
    let z = c ^ (c >> 31);
    assert(z ^ (z >> 31) ^ (z >> 62) == c) by (bit_vector)
        requires
            z == c ^ (c >> 31),
    ;
    lemma_product_undone(y, 0x94D0_49BB_1331_11EB, 0x3196_42b2_d24d_8ec3, 2077064247507883091);
    assert(y ^ (y >> 27) ^ (y >> 54) == b) by (bit_vector)
        requires
            y == b ^ (b >> 27),
    ;
    lemma_product_undone(x, 0xBF58_476D_1CE4_E5B9, 0x96de_1b17_3f11_9089, 8125545580553827436);
    assert(x ^ (x >> 30) ^ (x >> 60) == a) by (bit_vector)
        requires
            x == a ^ (a >> 30),
    ;
}

proof fn lemma_product_undone(x: u64, c: int, inverse: int, k: int)
    requires
        c * inverse == 1 + k * 0x1_0000_0000_0000_0000,
    ensures
        ((low_64(x * c) * inverse) % 0x1_0000_0000_0000_0000) as u64 == x,
{
    let m: int = 0x1_0000_0000_0000_0000;
    let low = (x * c) % m;
    let high = (x * c) / m;
    assert(low * inverse == x + (x * k - high * inverse) * m) by (nonlinear_arith)
        requires
            c * inverse == 1 + k * m,
            x * c == high * m + low,
    ;
    vstd::arithmetic::div_mod::lemma_fundamental_div_mod_converse(
        low * inverse,
        m,
        x * k - high * inverse,
        x as int,
    );
}

/// An event id is `evt-` and the sixteen hexadecimal digits of the row's hash.
pub proof fn law_event_ids_spell_the_hash(r: u64, i: int)
    requires
        0 <= i < 16,
    ensures
        event_id(r).len() == 20,
        event_id(r).take(4) == seq!['e', 'v', 't', '-'],
        text::writes_digit(
            event_id(r)[19 - i],
            (mixed(r) as int / vstd::arithmetic::power::pow(16, i as nat)) % 16,
        ),
{
    reveal_strlit("evt-");
    let head = "evt-"@;
    let digits = text::padded_hex(mixed(r) as nat, 16);
    assert(head =~= seq!['e', 'v', 't', '-']);
    text::law_padded_hex_writes_the_digits(mixed(r) as nat, 16);
    assert((head + digits).take(4) =~= head);
    assert((head + digits)[19 - i] == digits[15 - i]);
    let p = vstd::arithmetic::power::pow(16, i as nat);
    assert(text::writes_digit(digits[16 - 1 - i], (mixed(r) as int / p) % 16));
}

/// What the rows hold: row `r` has that number as its id, a timestamp of `r` seconds behind a
/// fixed start, and a user, an event, an amount and a region that its hash picks.
pub proof fn law_rows_follow_from_their_number(rows: RowColumns, first: u64, n: int, k: int)
    requires
        rows.rows_are(first, n),
        0 <= k < n,
        first + n <= u64::MAX,
    ensures
        ({
            let r = (first + k) as u64;
            &&& rows.ids@[k] == first + k
            &&& rows.ts@[k] == 1_600_000_000_000_000 + (first + k) * 1_000_000
            &&& rows.user_ids@[k] == mixed(r) as int % 10_000_000
            &&& rows.event_ids@[k]@ == event_id(r)
            &&& rows.amounts@[k] == mixed(r) as int % 10_000_000
            &&& rows.regions@[k]@ == seq![
                "af"@,
                "as"@,
                "eu"@,
                "na"@,
                "sa"@,
                "oc"@,
                "me"@,
                "an"@,
            ][mixed(r) as int % 8]
        }),
        rows.ids@.len() == n,
        rows.ts@.len() == n,
        rows.user_ids@.len() == n,
        rows.event_ids@.len() == n,
        rows.amounts@.len() == n,
        rows.regions@.len() == n,
{
    assert(rows.row_is(k, nth_row(first, k)));
    let names = seq!["af"@, "as"@, "eu"@, "na"@, "sa"@, "oc"@, "me"@, "an"@];
    assert(names[0] == "af"@ && names[1] == "as"@ && names[2] == "eu"@ && names[3] == "na"@
        && names[4] == "sa"@ && names[5] == "oc"@ && names[6] == "me"@ && names[7] == "an"@);
}

/// Row groups are as few as hold the rows: all have the size asked for, but the last may have
/// fewer.
pub proof fn law_row_groups_are_full(first_row: int, rows: int, size: int, k: int)
    requires
        size > 0,
        rows >= 0,
        0 <= k < group_count(rows, size),
    ensures
        k + 1 < group_count(rows, size) ==> group_at(first_row, rows, size, k).1 == size,
        group_at(first_row, rows, size, k).0 == first_row + k * size,
        (group_count(rows, size) - 1) * size < rows <= group_count(rows, size) * size,
{
    let n = group_count(rows, size);
    let low = (rows + size - 1) % size;
    assert(rows + size - 1 == n * size + low && 0 <= low < size) by (nonlinear_arith)
        requires
            n == (rows + size - 1) / size,
            low == (rows + size - 1) % size,
            size > 0,
    ;
    assert((n - 1) * size == n * size - size) by (nonlinear_arith);
    if k + 1 < n {
        assert((k + 1) * size <= (n - 1) * size) by (nonlinear_arith)
            requires
                k + 1 <= n - 1,
                size > 0,
        ;
        assert((k + 1) * size == k * size + size) by (nonlinear_arith);
    }
}

/// The fields that are indexed: six of them, by name and id, of which the two scattered ones have
/// Bloom filters.
pub proof fn law_indexed_fields(i: int)
    requires
        0 <= i < 6,
    ensures
        bench_fields().len() == 6,
        bench_fields()[i].field_id == i + 1,
        bench_fields()[i].name == seq![
            "id"@,
            "ts"@,
            "user_id"@,
            "event_id"@,
            "amount"@,
            "region"@,
        ][i],
        bench_fields()[i].bloom <==> i == 2 || i == 3,
{
    assert(i == 0 || i == 1 || i == 2 || i == 3 || i == 4 || i == 5);
}

/// A scan pays eight bytes, and for each row group that it reads the group's size; a size below 0
/// counts as none.
pub proof fn law_scans_pay_for_what_they_read(
    zs: Seq<ZoneModel>,
    sizes: Seq<i64>,
    positions: Seq<usize>,
    at: usize,
)
    requires
        at < zs.len(),
        zs[at as int].zone_id < sizes.len(),
    ensures
        scan_bytes(zs, sizes, Seq::empty()) == 8,
        scan_bytes(zs, sizes, positions.push(at)) == scan_bytes(zs, sizes, positions) + (
        if sizes[zs[at as int].zone_id as int] > 0 {
            sizes[zs[at as int].zone_id as int] as int
        } else {
            0
        }),
{
    lemma_bytes_pushed(zs, sizes, positions, at, 0);
}

proof fn lemma_bytes_pushed(
    zs: Seq<ZoneModel>,
    sizes: Seq<i64>,
    positions: Seq<usize>,
    at: usize,
    k: int,
)
    requires
        0 <= k <= positions.len(),
    ensures
        bytes_at(zs, sizes, positions.push(at), k) == bytes_at(zs, sizes, positions, k)
            + group_bytes(zs, sizes, at as int),
    decreases positions.len() - k,
{
    let more = positions.push(at);
    if k < positions.len() {
        assert(more[k] == positions[k]);
        lemma_bytes_pushed(zs, sizes, positions, at, k + 1);
    } else {
        assert(more[k] == at);
        assert(bytes_at(zs, sizes, more, k + 1) == 0);
    }
}

/// The rows of a table are those of its zones.
pub proof fn law_zone_rows_add_up(zs: Seq<ZoneModel>, more: Seq<ZoneModel>, z: ZoneModel)
    ensures
        rows_from(Seq::empty(), 0) == 0,
        rows_from(seq![z], 0) == z.row_count,
        rows_from(zs + more, 0) == rows_from(zs, 0) + rows_from(more, 0),
{
    assert(rows_from(seq![z], 1) == 0);
    lemma_rows_join(zs, more, 0);
}

proof fn lemma_rows_join(zs: Seq<ZoneModel>, more: Seq<ZoneModel>, i: int)
    requires
        0 <= i <= zs.len(),
    ensures
        rows_from(zs + more, i) == rows_from(zs, i) + rows_from(more, 0),
    decreases zs.len() - i,
{
    if i < zs.len() {
        assert((zs + more)[i] == zs[i]);
        lemma_rows_join(zs, more, i + 1);
    } else {
        lemma_rows_shift(zs, more, 0);
    }
}

proof fn lemma_rows_shift(zs: Seq<ZoneModel>, more: Seq<ZoneModel>, k: int)
    requires
        0 <= k <= more.len(),
    ensures
        rows_from(zs + more, zs.len() + k) == rows_from(more, k),
    decreases more.len() - k,
{
    if k < more.len() {
        assert((zs + more)[zs.len() + k] == more[k]);
        lemma_rows_shift(zs, more, k + 1);
    }
}

/// Nine tenths of a number of rows, rounded down, for all tables of up to a trillion rows.
pub proof fn law_nine_tenths_rounds_down(rows: int)
    requires
        0 <= rows < 0x100_0000_0000,
    ensures
        nine_tenths(rows) == (9 * rows) / 10,
{
    let m = rows * 8_106_479_329_266_893;
    let whole: int = 0x20_0000_0000_0000;
    let q = (9 * rows) / 10;
    let t = (9 * rows) % 10;
    assert(10 * m == whole * (10 * q + t) + 2 * rows);
    assert(float::round_53(rows) == rows);
    if m < whole {
        assert(float::round_53(m) == m);
        assert(q == 0);
    } else {
        let bit = float::top_bit(m);
        float::lemma_top_bit(m);
        lemma_p90_step(m, bit);
        let j = (bit - 52) as nat;
        let step = vstd::arithmetic::power2::pow2(j) as int;
        let others = vstd::arithmetic::power2::pow2((53 - j) as nat) as int;
        float::law_doubles_are_the_nearest(m, bit);
        float::lemma_pow2_literals();
        vstd::arithmetic::power2::lemma_pow2_pos(j);
        vstd::arithmetic::power2::lemma_pow2_adds(j, (53 - j) as nat);
        let k = float::round_half_even(m, step);
        lemma_p90_floor(m, q, step, others, k);
    }
}

/// The step of the doubles near the product of less than `2^40` rows.
proof fn lemma_p90_step(m: int, bit: nat)
    requires
        0x20_0000_0000_0000 <= m < 0x20_0000_0000_0000 * 0x100_0000_0000,
        vstd::arithmetic::power2::pow2(bit) <= m < 2 * vstd::arithmetic::power2::pow2(bit),
    ensures
        53 <= bit < 93,
        vstd::arithmetic::power2::pow2((bit - 52) as nat) <= 0x100_0000_0000,
{
    float::lemma_pow2_literals();
    vstd::arithmetic::power2::lemma2_to64();
    vstd::arithmetic::power2::lemma2_to64_rest();
    vstd::arithmetic::power2::lemma_pow2_adds(53, 40);
    if bit < 53 {
        if bit < 52 {
            vstd::arithmetic::power2::lemma_pow2_strictly_increases(bit, 52);
        }
    }
    if bit > 93 {
        vstd::arithmetic::power2::lemma_pow2_strictly_increases(93, bit);
    }
    if bit > 52 {
        if bit - 52 < 40 {
            vstd::arithmetic::power2::lemma_pow2_strictly_increases((bit - 52) as nat, 40);
        }
    }
}

/// Rounding to a step that divides the unit keeps a number on its side of a whole one, and moves
/// it by less than a tenth of a unit.
proof fn lemma_p90_floor(m: int, q: int, step: int, others: int, k: int)
    requires
        step > 0,
        q >= 0,
        step * others == 0x20_0000_0000_0000,
        q * 0x20_0000_0000_0000 <= m,
        10 * m <= 10 * (q * 0x20_0000_0000_0000) + 9 * 0x20_0000_0000_0000 + 0x200_0000_0000,
        k >= m / step,
        2 * (k * step - m) <= step,
        step <= 0x100_0000_0000,
    ensures
        (k * step) / 0x20_0000_0000_0000 == q,
{
    let whole: int = 0x20_0000_0000_0000;
    let r = k * step;
    assert(m / step >= q * others) by (nonlinear_arith)
        requires
            step > 0,
            step * others == whole,
            q * whole <= m,
    ;
    assert(r >= q * whole) by (nonlinear_arith)
        requires
            r == k * step,
            k >= q * others,
            step > 0,
            step * others == whole,
    ;
    assert(r < (q + 1) * whole);
    vstd::arithmetic::div_mod::lemma_fundamental_div_mod_converse(
        r,
        whole,
        q,
        r - q * whole,
    );
}

proof fn lemma_unit_of(v: int, i: int, u: int)
    requires
        0 <= i <= u <= 4,
        u == 0 || pow(1024, u as nat) <= v,
        u == 4 || v < pow(1024, (u + 1) as nat),
    ensures
        unit_of(v, i, pow(1024, i as nat)) == (u, pow(1024, u as nat)),
    decreases u - i,
{
    reveal(pow);
    let scale = pow(1024, i as nat);
    assert(pow(1024, (i + 1) as nat) == 1024 * scale);
    if i < u {
        if i + 1 < u {
            vstd::arithmetic::power::lemma_pow_increases(1024, (i + 1) as nat, u as nat);
        }
        lemma_unit_of(v, i + 1, u);
    }
}

/// A number of bytes is written in the largest unit that it reaches, each 1024 of the one below,
/// with one decimal: the nearest tenth, a tie to the even one.
pub proof fn law_sizes_are_written_in_their_unit(b: int, u: int)
    requires
        b >= 0,
        0 <= u <= 4,
        u == 0 || pow(1024, u as nat) <= float::round_53(b),
        u == 4 || float::round_53(b) < pow(1024, (u + 1) as nat),
    ensures
        exists|tenths: nat|
            #![trigger text::decimal(tenths / 10)]
            {
                let err = 2 * (tenths * pow(1024, u as nat) - 10 * float::round_53(b));
                &&& -pow(1024, u as nat) <= err <= pow(1024, u as nat)
                &&& err == pow(1024, u as nat) || err == -pow(1024, u as nat) ==> tenths % 2 == 0
                &&& bytes_text(b) == text::decimal(tenths / 10) + seq!['.'] + text::decimal(
                    tenths % 10,
                ) + seq![' '] + seq!["B"@, "KB"@, "MB"@, "GB"@, "TB"@][u]
            },
{
    float::lemma_round_53(b);
    let v = float::round_53(b);
    assert(pow(1024, 0) == 1) by {
        reveal(pow);
    }
    lemma_unit_of(v, 0, u);
    let scale = pow(1024, u as nat);
    vstd::arithmetic::power::lemma_pow_positive(1024, u as nat);
    float::law_rounding_goes_to_the_nearest(10 * v, scale);
    let tenths = float::round_half_even(10 * v, scale);
    assert(tenths >= 0) by (nonlinear_arith)
        requires
            scale > 0,
            v >= 0,
            tenths >= (10 * v) / scale,
    ;
    reveal_strlit(".");
    reveal_strlit(" ");
    assert("."@ =~= seq!['.']);
    assert(" "@ =~= seq![' ']);
    let names = seq!["B"@, "KB"@, "MB"@, "GB"@, "TB"@];
    assert(names[0] == "B"@ && names[1] == "KB"@ && names[2] == "MB"@ && names[3] == "GB"@
        && names[4] == "TB"@);
    assert(unit_name(u) == names[u]);
    let t = tenths as nat;
    assert(bytes_text(b) == text::decimal(t / 10) + seq!['.'] + text::decimal(t % 10) + seq![' ']
        + names[u]);
}

/// The cells of a line of the report, each between two bars.
pub open spec fn barred(cells: Seq<Seq<char>>) -> Seq<char>
    decreases cells.len(),
{
    if cells.len() == 0 {
        seq!['|']
    } else {
        barred(cells.drop_last()) + seq![' '] + cells.last() + seq![' ', '|']
    }
}

/// A line of the report has eight cells: the query, its class, the row groups in all, those left
/// by the stats, those left by stats and filters, the share pruned, the bytes read, the share
/// saved.
#[verifier::rlimit(40)]
pub proof fn law_report_lines_have_eight_cells(
    r: AnalyticRow,
    pruned: Seq<char>,
    saved: Seq<char>,
)
    ensures
        table_line(r, pruned, saved) == barred(
            seq![
                seq!['`'] + r.name@ + seq!['`'],
                r.class@,
                text::decimal(r.rg_total as nat),
                text::decimal(r.rg_zonemap as nat),
                text::decimal(r.rg_karma as nat),
                pruned.push('%'),
                bytes_text(r.bytes_karma as int),
                seq!['*', '*'] + saved + seq!['%', '*', '*'],
            ],
        ).push('\n'),
{
    reveal_strlit("| `");
    reveal_strlit("` | ");
    reveal_strlit(" | ");
    reveal_strlit("% | ");
    reveal_strlit(" | **");
    reveal_strlit("%** |\n");
    let c0 = seq!['`'] + r.name@ + seq!['`'];
    let c1 = r.class@;
    let c2 = text::decimal(r.rg_total as nat);
    let c3 = text::decimal(r.rg_zonemap as nat);
    let c4 = text::decimal(r.rg_karma as nat);
    let c5 = pruned.push('%');
    let c6 = bytes_text(r.bytes_karma as int);
    let c7 = seq!['*', '*'] + saved + seq!['%', '*', '*'];
    let none = Seq::<Seq<char>>::empty();
    let bar = seq![' ', '|', ' '];
    assert("| `"@ =~= seq!['|', ' ', '`']);
    assert("` | "@ =~= seq!['`'] + bar);
    assert(" | "@ =~= bar);
    assert("% | "@ =~= seq!['%'] + bar);
    assert(" | **"@ =~= bar + seq!['*', '*']);
    assert("%** |\n"@ =~= seq!['%', '*', '*'] + seq![' ', '|', '\n']);
    let p0 = "| `"@ + r.name@ + "` | "@;
    assert(p0 =~= barred(none) + seq![' '] + c0 + bar);
    lemma_one_more_cell(none, c0, barred(none) + seq![' ']);
    let p1 = p0 + c1 + " | "@;
    lemma_one_more_cell(none.push(c0), c1, p0);
    let p2 = p1 + c2 + " | "@;
    lemma_one_more_cell(none.push(c0).push(c1), c2, p1);
    let p3 = p2 + c3 + " | "@;
    lemma_one_more_cell(none.push(c0).push(c1).push(c2), c3, p2);
    let p4 = p3 + c4 + " | "@;
    let four = none.push(c0).push(c1).push(c2).push(c3);
    lemma_one_more_cell(four, c4, p3);
    let p5 = p4 + pruned + "% | "@;
    assert(p5 =~= p4 + c5 + bar);
    lemma_one_more_cell(four.push(c4), c5, p4);
    lemma_one_more_cell(four.push(c4).push(c5), c6, p5);
    let p6 = p5 + c6 + bar;
    let most = four.push(c4).push(c5).push(c6);
    let line = p5 + c6 + " | **"@ + saved + "%** |\n"@;
    assert(line =~= p6 + c7 + seq![' ', '|', '\n']);
    lemma_one_more_cell(most, c7, p6);
    assert(p6 + c7 + seq![' ', '|', '\n'] =~= (barred(most) + seq![' '] + c7 + seq![
        ' ',
        '|',
    ]).push('\n'));
    let cells = seq![c0, c1, c2, c3, c4, c5, c6, c7];
    assert(cells =~= most.push(c7));
}

/// A line that goes on with a cell and a bar has the cell among its cells.
proof fn lemma_one_more_cell(cells: Seq<Seq<char>>, c: Seq<char>, line: Seq<char>)
    requires
        line == barred(cells) + seq![' '],
    ensures
        barred(cells.push(c)) == barred(cells) + seq![' '] + c + seq![' ', '|'],
        line + c + seq![' ', '|', ' '] == barred(cells.push(c)) + seq![' '],
{
    assert(cells.push(c).drop_last() =~= cells);
    assert(line + c + seq![' ', '|', ' '] =~= barred(cells.push(c)) + seq![' ']);
}

/// The report has its lines in the order of the rows, each with its own shares.
pub proof fn law_reports_list_their_rows(
    rows: Seq<AnalyticRow>,
    percents: Seq<(String, String)>,
    r: AnalyticRow,
    share: (String, String),
)
    requires
        rows.len() == percents.len(),
    ensures
        table_lines(Seq::empty(), Seq::empty(), 0) == Seq::<char>::empty(),
        table_lines(rows.push(r), percents.push(share), 0) == table_lines(rows, percents, 0)
            + table_line(r, share.0@, share.1@),
{
    lemma_lines_pushed(rows, percents, r, share, 0);
}

proof fn lemma_lines_pushed(
    rows: Seq<AnalyticRow>,
    percents: Seq<(String, String)>,
    r: AnalyticRow,
    share: (String, String),
    i: int,
)
    requires
        rows.len() == percents.len(),
        0 <= i <= rows.len(),
    ensures
        table_lines(rows.push(r), percents.push(share), i) == table_lines(rows, percents, i)
            + table_line(r, share.0@, share.1@),
    decreases rows.len() - i,
{
    let more = rows.push(r);
    let shares = percents.push(share);
    let all = table_lines(rows, percents, i) + table_line(r, share.0@, share.1@);
    if i < rows.len() {
        lemma_lines_pushed(rows, percents, r, share, i + 1);
        assert(more[i] == rows[i]);
        assert(shares[i] == percents[i]);
        assert(table_lines(more, shares, i) =~= all);
    } else {
        assert(table_lines(more, shares, i + 1) =~= Seq::<char>::empty());
        assert(table_lines(more, shares, i) =~= all);
    }
}

/// Whether a query has one filter, `column <op> literal`.
pub open spec fn asks(q: Query, column: Seq<char>, op: Operator, s: ScalarValue) -> bool {
    q.filters@.len() == 1 && match q.filters@[0] {
        Expr::BinaryExpr { left, op: own, right } => match (*left, *right) {
            (Expr::Column(c), Expr::Literal(t)) => c@ == column && own == op && t == s,
            _ => false,
        },
        _ => false,
    }
}

/// Whether a query has one filter, `column = 'text'`.
pub open spec fn asks_text(q: Query, column: Seq<char>, t: Seq<char>) -> bool {
    q.filters@.len() == 1 && match q.filters@[0] {
        Expr::BinaryExpr { left, op, right } => match (*left, *right) {
            (Expr::Column(c), Expr::Literal(ScalarValue::Utf8(Some(s)))) => c@ == column && op is Eq
                && s@ == t,
            _ => false,
        },
        _ => false,
    }
}

proof fn lemma_nine_tenths_nonnegative(rows: int)
    requires
        rows >= 0,
    ensures
        nine_tenths(rows) >= 0,
{
    float::lemma_round_53(rows);
    let m = float::round_53(rows) * 8_106_479_329_266_893;
    assert(m >= 0);
    float::lemma_round_53(m);
}

/// What the queries ask, of a table of so many rows: the id in the middle, the last tenth of the
/// time, the user and the event of the row at a third, that event with a letter more, amounts over
/// 99000, and one region. The SQL says the same.
pub proof fn law_queries_ask_for_rows_of_the_table(qs: Seq<Query>, rows: u64)
    requires
        spectrum(qs, rows),
        p90_time(rows as int) <= i64::MAX,
    ensures
        qs.len() == 7,
        qs[0].name@ == "id = mid"@ && qs[0].class@ == "clustered point (zone map)"@,
        qs[1].name@ == "ts >= p90"@ && qs[1].class@ == "clustered range (zone map)"@,
        qs[2].name@ == "user_id = X"@ && qs[2].class@ == "scattered point — BLOOM vs stats"@,
        qs[3].name@ == "event_id = existing"@ && qs[3].class@ == "unique point — BLOOM vs stats"@,
        qs[4].name@ == "event_id = ABSENT (in-range)"@ && qs[4].class@
            == "absent value — BLOOM prunes ALL"@,
        qs[5].name@ == "amount > 99000.00"@ && qs[5].class@
            == "scattered numeric (zone map — honest miss)"@,
        qs[6].name@ == "region = 'eu'"@ && qs[6].class@ == "low-card everywhere (honest 0%)"@,
        asks(qs[0], "id"@, Operator::Eq, ScalarValue::Int64(Some((rows / 2) as i64))),
        qs[0].sql_where@ == "id = "@ + text::decimal((rows / 2) as nat),
        asks(
            qs[1],
            "ts"@,
            Operator::GtEq,
            ScalarValue::TimestampMicrosecond(
                Some((1_600_000_000_000_000 + nine_tenths(rows as int) * 1_000_000) as i64),
            ),
        ),
        text::names(
            qs[1].sql_where@,
            "ts >= arrow_cast("@,
            text::decimal(
                (1_600_000_000_000_000 + nine_tenths(rows as int) * 1_000_000) as nat,
            ),
            ", 'Timestamp(Microsecond, None)')"@,
        ),
        asks(
            qs[2],
            "user_id"@,
            Operator::Eq,
            ScalarValue::Int64(Some((mixed(rows / 3) % 10_000_000) as i64)),
        ),
        qs[2].sql_where@ == "user_id = "@ + text::decimal((mixed(rows / 3) % 10_000_000) as nat),
        asks_text(qs[3], "event_id"@, event_id(rows / 3)),
        qs[3].sql_where@ == "event_id = '"@ + event_id(rows / 3) + "'"@,
        asks_text(qs[4], "event_id"@, event_id(rows / 3).push('z')),
        qs[4].sql_where@ == "event_id = '"@ + event_id(rows / 3).push('z') + "'"@,
        asks(
            qs[5],
            "amount"@,
            Operator::Gt,
            ScalarValue::Decimal128(Some(9_900_000), 12, 2),
        ),
        qs[5].sql_where@ == "amount > 99000.00"@,
        asks_text(qs[6], "region"@, "eu"@),
        qs[6].sql_where@ == "region = 'eu'"@,
        qs[0].latency && !qs[1].latency && !qs[2].latency && qs[3].latency && qs[4].latency
            && !qs[5].latency && !qs[6].latency,
{
    lemma_nine_tenths_nonnegative(rows as int);
    let p90 = (1_600_000_000_000_000 + nine_tenths(rows as int) * 1_000_000) as nat;
    text::law_signed_decimal_writes_the_sign(p90);
    text::lemma_names(
        "ts >= arrow_cast("@,
        text::decimal(p90),
        ", 'Timestamp(Microsecond, None)')"@,
    );
    text::law_signed_decimal_writes_the_sign((rows / 2) as nat);
    text::law_signed_decimal_writes_the_sign((mixed(rows / 3) % 10_000_000) as nat);
}

/// A row of the report counts: all row groups, those that the stats leave, and those that stats
/// and Bloom filters leave, which are never more; and it weighs the bytes of all of them and of
/// those left.
pub proof fn law_reports_count_what_is_read<S>(
    row: AnalyticRow,
    q: Query,
    sizes: Seq<i64>,
    sidecar: Sidecar<S>,
    i: int,
)
    requires
        row_reports(row, q, sizes, sidecar),
        sidecar.zone_map@.len() <= usize::MAX,
    ensures
        row.name@ == q.name@,
        row.class@ == q.class@,
        row.rg_total == sidecar.zone_map@.len(),
        row.rg_zonemap == translate::zones_to_read(
            sidecar.zone_map@,
            None,
            sidecar.field_ids@,
            q.filters@,
        ).len(),
        row.rg_karma == translate::zones_to_read(
            sidecar.zone_map@,
            Some(sidecar.blooms@),
            sidecar.field_ids@,
            q.filters@,
        ).len(),
        row.bytes_karma == scan_bytes(
            sidecar.zone_map@,
            sizes,
            translate::zones_to_read(
                sidecar.zone_map@,
                Some(sidecar.blooms@),
                sidecar.field_ids@,
                q.filters@,
            ),
        ),
        row.bytes_total == scan_bytes(
            sidecar.zone_map@,
            sizes,
            every_position(sidecar.zone_map@),
        ),
        row.bytes_karma <= row.bytes_total,
        every_position(sidecar.zone_map@).len() == sidecar.zone_map@.len(),
        0 <= i < sidecar.zone_map@.len() ==> every_position(sidecar.zone_map@)[i] == i,
{
    law_pruning_never_reads_more(
        sidecar.zone_map@,
        Some(sidecar.blooms@),
        sidecar.field_ids@,
        q.filters@,
        sizes,
    );
}

/// The rows and the row groups that are generated follow from the numbers asked for: the groups
/// tile the rows, and each row holds what its number says.
pub proof fn law_generated_tables_follow_from_their_size(
    first: u64,
    n: u64,
    size: u64,
    groups: Vec<RowRange>,
    rows: RowColumns,
    g: int,
    k: int,
    h: u64,
)
    requires
        size > 0,
        first + n <= u64::MAX,
        call_ensures(row_groups, (first, n, size), groups),
        call_ensures(generate_rows, (first, n), rows),
        call_ensures(mix, (first,), h),
    ensures
        n == 0 <==> groups@.len() == 0,
        0 <= g < groups@.len() ==> groups@[g].first == first + g * size && 0 < groups@[g].count
            <= size,
        0 <= g < groups@.len() - 1 ==> groups@[g].count == size,
        n > 0 ==> groups@.last().first + groups@.last().count == first + n,
        0 <= k < n ==> rows.ids@[k] == first + k && rows.ts@[k] == 1_600_000_000_000_000 + (first
            + k) * 1_000_000,
        unmixed(h) == first,
{
    law_mixing_is_undone(first);
    let count = group_count(n as int, size as int);
    assert(n == 0 <==> count == 0) by (nonlinear_arith)
        requires
            size > 0,
            n >= 0,
            count == (n as int + size as int - 1) / size as int,
    ;
    if 0 <= g < groups@.len() {
        law_row_groups_tile_the_rows(first as int, n as int, size as int, g);
        law_row_groups_are_full(first as int, n as int, size as int, g);
    }
    if n > 0 {
        assert(count > 0) by (nonlinear_arith)
            requires
                size > 0,
                n > 0,
                count == (n as int + size as int - 1) / size as int,
        ;
        law_row_groups_tile_the_rows(first as int, n as int, size as int, count - 1);
    }
    if 0 <= k < n {
        law_rows_follow_from_their_number(rows, first, n as int, k);
    }
}

} // verus!
