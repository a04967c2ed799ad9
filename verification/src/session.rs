//! The rules of the SQL front: result columns, and the limit put on a query that does
//! not bound its own rows.
use vstd::prelude::*;

verus! {

/// A result column's name and type.
#[derive(Clone, Debug, PartialEq, Eq)]
pub struct ColumnMeta {
    pub name: String,
    pub data_type: String,
}

/// Front rules that shape the plan.
#[derive(Clone, Copy, Debug, PartialEq, Eq)]
pub struct KarmaConfig {
    /// Rows returned when a query has no top-level `LIMIT`.
    pub default_limit: usize,
    /// Ceiling for an explicit `LIMIT`.
    pub max_limit: usize,
}

impl Default for KarmaConfig {
    fn default() -> (r: Self)
        ensures
            r.default_limit == 100,
            r.max_limit == 5000,
    {
        Self { default_limit: 100, max_limit: 5000 }
    }
}

/// What the top of a plan is, as far as the limit rule asks.
#[derive(Clone, Copy, Debug, PartialEq, Eq, Structural)]
pub enum PlanKind {
    Limit,
    Explain,
    Analyze,
    Statement,
    Dml,
    Ddl,
    Copy,
    DescribeTable,
    /// A plan that yields a relation and does not bound its rows.
    Relation,
}

impl KarmaConfig {
    /// The limit to put on a plan: the default one for a query that yields a relation and does
    /// not bound its own rows, none for a plan that is left untouched (metadata, DDL, DML,
    /// EXPLAIN, ANALYZE, and an existing `LIMIT`).
    pub fn auto_limit(&self, kind: PlanKind) -> (r: Option<usize>)
        ensures
            r == (if kind is Relation {
                Some(self.default_limit)
            } else {
                None
            }),
    {
        match kind {
            PlanKind::Limit | PlanKind::Explain | PlanKind::Analyze | PlanKind::Statement
            | PlanKind::Dml | PlanKind::Ddl | PlanKind::Copy | PlanKind::DescribeTable => None,
            PlanKind::Relation => Some(self.default_limit),
        }
    }
}

/// The sum of the counts from `i` on.
pub open spec fn total_from(counts: Seq<usize>, i: int) -> int
    decreases counts.len() - i,
{
    if 0 <= i < counts.len() {
        counts[i] + total_from(counts, i + 1)
    } else {
        0
    }
}

proof fn lemma_total_nonnegative(counts: Seq<usize>, i: int)
    ensures
        0 <= total_from(counts, i),
    decreases counts.len() - i,
{
    if 0 <= i < counts.len() {
        lemma_total_nonnegative(counts, i + 1);
    }
}

/// The rows of a result, from the row counts of its batches.
pub fn row_count(batch_rows: &[usize]) -> (r: usize)
    requires
        total_from(batch_rows@, 0) <= usize::MAX,
    ensures
        r == total_from(batch_rows@, 0),
{
    let mut sum: usize = 0;
    let mut i: usize = 0;
    while i < batch_rows.len()
        invariant
            i <= batch_rows@.len(),
            total_from(batch_rows@, 0) <= usize::MAX,
            sum + total_from(batch_rows@, i as int) == total_from(batch_rows@, 0),
        decreases batch_rows@.len() - i,
    {
        proof {
            lemma_total_nonnegative(batch_rows@, i + 1);
        }
        sum = sum + batch_rows[i];
        i = i + 1;
    }
    sum
}

/// The rows of a result are those of its batches: one batch has its own, and batches that follow
/// others add theirs.
pub proof fn law_row_counts_add_up(counts: Seq<usize>, more: Seq<usize>, n: usize)
    ensures
        total_from(Seq::<usize>::empty(), 0) == 0,
        total_from(seq![n], 0) == n,
        total_from(counts + more, 0) == total_from(counts, 0) + total_from(more, 0),
{
    assert(total_from(seq![n], 1) == 0);
    lemma_totals_join(counts, more, 0);
}

proof fn lemma_totals_join(counts: Seq<usize>, more: Seq<usize>, i: int)
    requires
        0 <= i <= counts.len(),
    ensures
        total_from(counts + more, i) == total_from(counts, i) + total_from(more, 0),
    decreases counts.len() - i,
{
    if i < counts.len() {
        assert((counts + more)[i] == counts[i]);
        lemma_totals_join(counts, more, i + 1);
    } else {
        lemma_totals_shift(counts, more, 0);
    }
}

proof fn lemma_totals_shift(counts: Seq<usize>, more: Seq<usize>, k: int)
    requires
        0 <= k <= more.len(),
    ensures
        total_from(counts + more, counts.len() + k) == total_from(more, k),
    decreases more.len() - k,
{
    if k < more.len() {
        assert((counts + more)[counts.len() + k] == more[k]);
        lemma_totals_shift(counts, more, k + 1);
    }
}

/// What the settings decide: a relation is limited to the default number of rows, any other plan
/// is not limited; unless set, the default is 100 rows and the most is 5000.
pub proof fn law_relations_are_limited(
    config: KarmaConfig,
    unset: KarmaConfig,
    kind: PlanKind,
    limit: Option<usize>,
)
    requires
        call_ensures(KarmaConfig::auto_limit, (&config, kind), limit),
        call_ensures(KarmaConfig::default, (), unset),
    ensures
        kind is Relation ==> limit == Some(config.default_limit),
        !(kind is Relation) ==> limit is None,
        unset.default_limit == 100,
        unset.max_limit == 5000,
{
}

} // verus!
