//! Tables whose scans are pruned by an index: zones held in memory, row groups of a
//! file, or the files of a snapshot. All ask [`crate::translate`] which zones to read, so they never drift in
//! what they skip.
use crate::bloom::EntryModel;
use crate::bloom::ZoneBlooms;
use crate::prune;
use crate::sidecar::Sidecar;
use crate::translate;
use crate::translate::Expr;
use crate::translate::FieldIds;
use crate::translate::FilterPushDown;
use crate::zonemap::Datum;
use crate::zonemap::ZoneMap;
use crate::zonemap::ZoneModel;
use vstd::prelude::*;

verus! {

/// What an optional set of filters holds.
pub open spec fn held_filters(blooms: Option<ZoneBlooms>) -> Option<Seq<EntryModel>> {
    match blooms {
        Some(b) => Some(b@),
        None => None,
    }
}

/// A table whose scan is pruned by a zone map.
///
/// `batches[i]` holds the rows of `zone_map.zones[i]` (same order). `field_ids` maps each column
/// *name* (how a query refers to it) to its Iceberg *field id* (how the zone map refers to it).
/// `S` is the engine's schema, `B` its batch of rows.
pub struct KarmaZoneTable<S, B> {
    pub schema: S,
    pub zone_map: ZoneMap,
    /// Optional Bloom index: tightens `col = v` pruning on high-cardinality columns, where the
    /// zone map's min/max cannot help.
    pub blooms: Option<ZoneBlooms>,
    pub batches: Vec<B>,
    pub field_ids: FieldIds,
}

impl<S, B> KarmaZoneTable<S, B> {
    /// One batch per zone.
    pub open spec fn wf(&self) -> bool {
        self.zone_map.zones@.len() == self.batches@.len()
    }

    /// The positions of the zones that a scan with these filters reads.
    pub open spec fn read_by(&self, filters: Seq<Expr>) -> Seq<usize> {
        translate::zones_to_read(
            self.zone_map@,
            held_filters(self.blooms),
            self.field_ids@,
            filters,
        )
    }

    pub fn new(schema: S, zone_map: ZoneMap, batches: Vec<B>, field_ids: FieldIds) -> (r: Self)
        requires
            zone_map.zones@.len() == batches@.len(),
        ensures
            r.wf(),
            r.schema == schema,
            r.zone_map == zone_map,
            r.blooms is None,
            r.batches == batches,
            r.field_ids == field_ids,
    {
        Self { schema, zone_map, blooms: None, batches, field_ids }
    }

    /// Attach a Bloom index (one Bloom per zone/column) to prune equality on high-cardinality
    /// columns.
    pub fn with_blooms(self, blooms: ZoneBlooms) -> (r: Self)
        ensures
            r.schema == self.schema,
            r.zone_map == self.zone_map,
            r.blooms == Some(blooms),
            r.batches == self.batches,
            r.field_ids == self.field_ids,
    {
        Self {
            schema: self.schema,
            zone_map: self.zone_map,
            blooms: Some(blooms),
            batches: self.batches,
            field_ids: self.field_ids,
        }
    }

    /// The indices of the zones that survive the filters (must be scanned).
    pub fn surviving_zone_indices(&self, filters: &[Expr]) -> (r: Vec<usize>)
        ensures
            r@ == self.read_by(filters@),
    {
        translate::surviving_zone_indices(
            &self.zone_map,
            self.blooms.as_ref(),
            &self.field_ids,
            filters,
        )
    }

    /// Pushdown verdict per filter.
    pub fn supports_filters_pushdown(&self, filters: &[&Expr]) -> (r: Vec<FilterPushDown>)
        ensures
            r@ == filters@.map_values(
                |e: &Expr|
                    if translate::usable(self.field_ids@, *e) {
                        FilterPushDown::Inexact
                    } else {
                        FilterPushDown::Unsupported
                    },
            ),
    {
        translate::filters_pushdown(&self.field_ids, filters)
    }

    /// The batches that a scan reads: those of the surviving zones, in zone order.
    pub fn scan(&self, filters: &[Expr]) -> (r: Vec<&B>)
        requires
            self.wf(),
        ensures
            r@.len() == self.read_by(filters@).len(),
            forall|k: int|
                0 <= k < r@.len() ==> *(#[trigger] r@[k]) == self.batches@[self.read_by(
                    filters@,
                )[k] as int],
    {
        let alive: Vec<usize> = self.surviving_zone_indices(filters);
        let mut out: Vec<&B> = Vec::new();
        let mut i: usize = 0;
        while i < alive.len()
            invariant
                i <= alive@.len(),
                self.wf(),
                alive@ == self.read_by(filters@),
                out@.len() == i,
                forall|k: int|
                    0 <= k < i ==> *(#[trigger] out@[k]) == self.batches@[alive@[k] as int],
            decreases alive@.len() - i,
        {
            proof {
                assert(self.zone_map.zones.len() == self.zone_map@.len());
                lemma_reads_in_range(
                    self.zone_map@,
                    held_filters(self.blooms),
                    self.field_ids@,
                    filters@,
                    i as int,
                );
            }
            out.push(&self.batches[alive[i]]);
            i = i + 1;
        }
        out
    }
}

/// Every position read is that of a zone.
proof fn lemma_reads_in_range(
    zs: Seq<ZoneModel>,
    blooms: Option<Seq<EntryModel>>,
    ids: Map<Seq<char>, i32>,
    filters: Seq<Expr>,
    k: int,
)
    requires
        zs.len() <= usize::MAX,
        0 <= k < translate::zones_to_read(zs, blooms, ids, filters).len(),
    ensures
        translate::zones_to_read(zs, blooms, ids, filters)[k] < zs.len(),
{
    let read = translate::zones_to_read(zs, blooms, ids, filters);
    assert(read.contains(read[k]));
    translate::law_survivors_are_the_surviving_positions(
        zs,
        blooms,
        translate::all_predicates(ids, filters, 0),
        translate::all_lists(ids, filters, 0),
        read[k],
    );
}

/// A table backed by a file of row groups, pruned by an index sidecar.
///
/// `zone_map.zones[i].zone_id` is the **row-group ordinal** of zone `i`. A scan maps the
/// surviving zones to row-group ordinals and reads only those from the file. `P` tells where the
/// file is, `S` is the engine's schema.
pub struct ParquetZoneTable<P, S> {
    pub path: P,
    pub schema: S,
    pub zone_map: ZoneMap,
    pub blooms: Option<ZoneBlooms>,
    pub field_ids: FieldIds,
}

impl<P, S> ParquetZoneTable<P, S> {
    /// The positions of the zones that a scan with these filters reads.
    pub open spec fn read_by(&self, filters: Seq<Expr>) -> Seq<usize> {
        translate::zones_to_read(
            self.zone_map@,
            held_filters(self.blooms),
            self.field_ids@,
            filters,
        )
    }

    /// The row-group ordinals that a scan with these filters reads.
    pub open spec fn row_groups_read(&self, filters: Seq<Expr>) -> Seq<usize> {
        self.read_by(filters).map_values(|i: usize| self.zone_map@[i as int].zone_id as usize)
    }

    /// Construct from a fully-specified sidecar and the schema read from the file.
    pub fn new(
        path: P,
        schema: S,
        zone_map: ZoneMap,
        blooms: Option<ZoneBlooms>,
        field_ids: FieldIds,
    ) -> (r: Self)
        ensures
            r.path == path,
            r.schema == schema,
            r.zone_map == zone_map,
            r.blooms == blooms,
            r.field_ids == field_ids,
    {
        Self { path, schema, zone_map, blooms, field_ids }
    }

    /// Construct from a [`Sidecar`]. An empty bloom set is stored as `None` (nothing to
    /// consult).
    pub fn from_sidecar(path: P, sidecar: Sidecar<S>) -> (r: Self)
        ensures
            r.path == path,
            r.schema == sidecar.schema,
            r.zone_map == sidecar.zone_map,
            r.blooms == (if sidecar.blooms.entries@.len() == 0 {
                None
            } else {
                Some(sidecar.blooms)
            }),
            r.field_ids == sidecar.field_ids,
    {
        let blooms: Option<ZoneBlooms> = if sidecar.blooms.entries.len() == 0 {
            None
        } else {
            Some(sidecar.blooms)
        };
        Self {
            path,
            schema: sidecar.schema,
            zone_map: sidecar.zone_map,
            blooms,
            field_ids: sidecar.field_ids,
        }
    }

    /// The **indices** (positions in `zone_map.zones`) of the zones that survive `filters`.
    pub fn surviving_zone_indices(&self, filters: &[Expr]) -> (r: Vec<usize>)
        ensures
            r@ == self.read_by(filters@),
    {
        translate::surviving_zone_indices(
            &self.zone_map,
            self.blooms.as_ref(),
            &self.field_ids,
            filters,
        )
    }

    /// The **row-group ordinals** that survive `filters` (what the reader is told to decode).
    pub fn surviving_row_groups(&self, filters: &[Expr]) -> (r: Vec<usize>)
        ensures
            r@ == self.row_groups_read(filters@),
    {
        let alive: Vec<usize> = self.surviving_zone_indices(filters);
        let mut out: Vec<usize> = Vec::new();
        let mut i: usize = 0;
        while i < alive.len()
            invariant
                i <= alive@.len(),
                alive@ == self.read_by(filters@),
                out@.len() == i,
                forall|k: int|
                    0 <= k < i ==> #[trigger] out@[k] == self.zone_map@[alive@[k] as int].zone_id,
            decreases alive@.len() - i,
        {
            proof {
                assert(self.zone_map.zones.len() == self.zone_map@.len());
                lemma_reads_in_range(
                    self.zone_map@,
                    held_filters(self.blooms),
                    self.field_ids@,
                    filters@,
                    i as int,
                );
                assert(self.zone_map@[alive@[i as int] as int].zone_id
                    == self.zone_map.zones@[alive@[i as int] as int].zone_id);
            }
            out.push(self.zone_map.zones[alive[i]].zone_id as usize);
            i = i + 1;
        }
        assert(out@ =~= self.row_groups_read(filters@));
        out
    }

    /// Pushdown verdict per filter.
    pub fn supports_filters_pushdown(&self, filters: &[&Expr]) -> (r: Vec<FilterPushDown>)
        ensures
            r@ == filters@.map_values(
                |e: &Expr|
                    if translate::usable(self.field_ids@, *e) {
                        FilterPushDown::Inexact
                    } else {
                        FilterPushDown::Unsupported
                    },
            ),
    {
        translate::filters_pushdown(&self.field_ids, filters)
    }
}

/// The data files of one snapshot, read as one table. Each file is pruned by its own sidecar,
/// so a predicate that a file's bounds rule out skips the whole file.
pub struct SnapshotTable<P, S> {
    pub schema: S,
    pub files: Vec<ParquetZoneTable<P, S>>,
}

impl<P, S> SnapshotTable<P, S> {
    pub fn new(schema: S, files: Vec<ParquetZoneTable<P, S>>) -> (r: Self)
        ensures
            r.schema == schema,
            r.files == files,
    {
        Self { schema, files }
    }

    /// How many data files the snapshot has.
    pub fn file_count(&self) -> (r: usize)
        ensures
            r == self.files@.len(),
    {
        self.files.len()
    }

    /// For each file, in order, the row-group ordinals that survive `filters`.
    pub fn surviving_row_groups(&self, filters: &[Expr]) -> (r: Vec<Vec<usize>>)
        ensures
            r@.len() == self.files@.len(),
            forall|f: int|
                0 <= f < r@.len() ==> #[trigger] r@[f]@ == self.files@[f].row_groups_read(filters@),
    {
        let mut out: Vec<Vec<usize>> = Vec::new();
        let mut i: usize = 0;
        while i < self.files.len()
            invariant
                i <= self.files@.len(),
                out@.len() == i,
                forall|f: int|
                    0 <= f < i ==> #[trigger] out@[f]@ == self.files@[f].row_groups_read(filters@),
            decreases self.files@.len() - i,
        {
            out.push(self.files[i].surviving_row_groups(filters));
            i = i + 1;
        }
        out
    }

    /// Pushdown verdict per filter: `Inexact` where the index of some file can prune by it.
    pub fn supports_filters_pushdown(&self, filters: &[&Expr]) -> (r: Vec<FilterPushDown>)
        ensures
            r@ == filters@.map_values(
                |e: &Expr|
                    if self.prunes_by(*e) {
                        FilterPushDown::Inexact
                    } else {
                        FilterPushDown::Unsupported
                    },
            ),
    {
        let mut out: Vec<FilterPushDown> = Vec::new();
        let mut k: usize = 0;
        while k < filters.len()
            invariant
                k <= filters@.len(),
                out@.len() == k,
                forall|j: int|
                    0 <= j < k ==> #[trigger] out@[j] == (if self.prunes_by(*filters@[j]) {
                        FilterPushDown::Inexact
                    } else {
                        FilterPushDown::Unsupported
                    }),
            decreases filters@.len() - k,
        {
            out.push(self.pushdown(filters[k]));
            k = k + 1;
        }
        assert(out@ =~= filters@.map_values(
            |e: &Expr|
                if self.prunes_by(*e) {
                    FilterPushDown::Inexact
                } else {
                    FilterPushDown::Unsupported
                },
        ));
        out
    }

    /// Whether the index of some file can prune by a filter.
    pub open spec fn prunes_by(&self, e: Expr) -> bool {
        exists|f: int|
            0 <= f < self.files@.len() && translate::usable(
                (#[trigger] self.files@[f]).field_ids@,
                e,
            )
    }

    fn pushdown(&self, filter: &Expr) -> (r: FilterPushDown)
        ensures
            r == (if self.prunes_by(*filter) {
                FilterPushDown::Inexact
            } else {
                FilterPushDown::Unsupported
            }),
    {
        let mut f: usize = 0;
        while f < self.files.len()
            invariant
                f <= self.files@.len(),
                forall|j: int|
                    0 <= j < f ==> !translate::usable(
                        (#[trigger] self.files@[j]).field_ids@,
                        *filter,
                    ),
            decreases self.files@.len() - f,
        {
            let asked: [&Expr; 1] = [filter];
            let verdicts: Vec<FilterPushDown> = self.files[f].supports_filters_pushdown(&asked);
            assert(verdicts@.len() == 1);
            if verdicts[0] == FilterPushDown::Inexact {
                assert(translate::usable(self.files@[f as int].field_ids@, *filter));
                return FilterPushDown::Inexact;
            }
            f = f + 1;
        }
        FilterPushDown::Unsupported
    }
}

/// A snapshot loses no row: where a file's index covers a row of which every filter may hold,
/// the row's row group is among those read of that file.
pub proof fn law_snapshots_read_matching_rows<P, S>(
    snapshot: SnapshotTable<P, S>,
    filters: Seq<Expr>,
    row: spec_fn(Seq<char>) -> Datum,
    f: int,
    i: usize,
)
    requires
        0 <= f < snapshot.files@.len(),
        i < snapshot.files@[f].zone_map@.len(),
        translate::zone_covers(
            snapshot.files@[f].zone_map@[i as int],
            held_filters(snapshot.files@[f].blooms),
            snapshot.files@[f].field_ids@,
            row,
        ),
        forall|k: int| 0 <= k < filters.len() ==> translate::may_hold(#[trigger] filters[k], row),
    ensures
        snapshot.files@[f].row_groups_read(filters).contains(
            snapshot.files@[f].zone_map@[i as int].zone_id as usize,
        ),
{
    let file = snapshot.files@[f];
    assert(file.zone_map@.len() == file.zone_map.zones.len());
    translate::law_matching_rows_are_read(
        file.zone_map@,
        held_filters(file.blooms),
        file.field_ids@,
        filters,
        row,
        i,
    );
    let k = choose|k: int| 0 <= k < file.read_by(filters).len() && file.read_by(filters)[k] == i;
    assert(file.row_groups_read(filters)[k] == file.zone_map@[i as int].zone_id as usize);
}

/// A table that indexes no column prunes nothing: every zone is read, whatever the filters.
pub proof fn law_unindexed_tables_read_everything(
    zs: Seq<ZoneModel>,
    blooms: Option<Seq<EntryModel>>,
    filters: Seq<Expr>,
)
    requires
        zs.len() <= usize::MAX,
    ensures
        translate::zones_to_read(zs, blooms, Map::empty(), filters) == Seq::new(
            zs.len(),
            |i: int| i as usize,
        ),
{
    assert forall|k: int| 0 <= k < filters.len() implies !translate::usable(
        Map::<Seq<char>, i32>::empty(),
        #[trigger] filters[k],
    ) by {
        lemma_no_ids_no_constraints(filters[k]);
    }
    translate::law_unusable_filters_read_everything(zs, blooms, Map::empty(), filters);
}

proof fn lemma_no_ids_no_constraints(e: Expr)
    ensures
        !translate::usable(Map::<Seq<char>, i32>::empty(), e),
    decreases e,
{
    match e {
        Expr::BinaryExpr { left, op, right } => if op is And {
            lemma_no_ids_no_constraints(*left);
            lemma_no_ids_no_constraints(*right);
        },
        _ => {},
    }
}

/// The two kinds of table prune alike: over the same index they read the same zones for the
/// same filters.
pub proof fn law_providers_prune_alike<S, B, P, T>(
    held: KarmaZoneTable<S, B>,
    file: ParquetZoneTable<P, T>,
    filters: Seq<Expr>,
)
    requires
        held.zone_map@ == file.zone_map@,
        held_filters(held.blooms) == held_filters(file.blooms),
        held.field_ids@ == file.field_ids@,
    ensures
        held.read_by(filters) == file.read_by(filters),
{
}

/// An empty set of filters prunes as none does, so dropping it changes nothing.
pub proof fn law_no_filters_prune_nothing(
    zs: Seq<ZoneModel>,
    ids: Map<Seq<char>, i32>,
    filters: Seq<Expr>,
)
    ensures
        translate::zones_to_read(zs, Some(Seq::empty()), ids, filters) == translate::zones_to_read(
            zs,
            None,
            ids,
            filters,
        ),
{
    lemma_empty_filters(
        zs,
        translate::all_predicates(ids, filters, 0),
        translate::all_lists(ids, filters, 0),
        0,
    );
}

proof fn lemma_empty_filters_keep(zs: Seq<ZoneModel>, p: prune::PredicateModel, i: int)
    ensures
        prune::kept_ids(zs, Some(Seq::empty()), p, i) == prune::kept_ids(zs, None, p, i),
    decreases zs.len() - i,
{
    if 0 <= i < zs.len() {
        lemma_empty_filters_keep(zs, p, i + 1);
        prune::law_blooms_only_tighten(zs[i], Seq::empty(), p);
    }
}

proof fn lemma_empty_filters(
    zs: Seq<ZoneModel>,
    preds: Seq<prune::PredicateModel>,
    lists: Seq<(i32, Seq<Datum>)>,
    i: int,
)
    ensures
        translate::survivors(zs, Some(Seq::empty()), preds, lists, i) == translate::survivors(
            zs,
            None,
            preds,
            lists,
            i,
        ),
    decreases zs.len() - i,
{
    if 0 <= i < zs.len() {
        lemma_empty_filters(zs, preds, lists, i + 1);
        let id = zs[i].zone_id;
        assert forall|p: prune::PredicateModel| #[trigger]
            translate::id_kept(zs, Some(Seq::empty()), p, id) == translate::id_kept(
                zs,
                None,
                p,
                id,
            ) by {
            lemma_empty_filters_keep(zs, p, 0);
        }
        assert forall|l: (i32, Seq<Datum>)| #[trigger]
            translate::id_kept_for_any(zs, Some(Seq::empty()), l, id)
                == translate::id_kept_for_any(zs, None, l, id) by {
            if translate::id_kept_for_any(zs, None, l, id) {
                let j = choose|j: int|
                    0 <= j < l.1.len() && translate::id_kept(
                        zs,
                        None,
                        prune::PredicateModel::Eq(l.0, #[trigger] l.1[j]),
                        id,
                    );
                assert(translate::id_kept(
                    zs,
                    Some(Seq::empty()),
                    prune::PredicateModel::Eq(l.0, l.1[j]),
                    id,
                ));
            }
        }
        if translate::id_survives(zs, Some(Seq::empty()), preds, lists, id) {
            assert forall|k: int| 0 <= k < preds.len() implies translate::id_kept(
                zs,
                None,
                #[trigger] preds[k],
                id,
            ) by {
                assert(translate::id_kept(zs, Some(Seq::empty()), preds[k], id));
            }
            assert forall|k: int| 0 <= k < lists.len() implies translate::id_kept_for_any(
                zs,
                None,
                #[trigger] lists[k],
                id,
            ) by {
                assert(translate::id_kept_for_any(zs, Some(Seq::empty()), lists[k], id));
            }
        }
    }
}

/// A table of row groups reads them by number: for each position that its index leaves, in order,
/// the id of the zone there, and for no other.
pub proof fn law_row_groups_are_those_of_the_zones<P, S>(
    file: ParquetZoneTable<P, S>,
    filters: Seq<Expr>,
    k: int,
)
    requires
        file.zone_map@.len() <= usize::MAX,
    ensures
        file.row_groups_read(filters).len() == translate::zones_to_read(
            file.zone_map@,
            held_filters(file.blooms),
            file.field_ids@,
            filters,
        ).len(),
        0 <= k < file.row_groups_read(filters).len() ==> {
            let at = translate::zones_to_read(
                file.zone_map@,
                held_filters(file.blooms),
                file.field_ids@,
                filters,
            )[k];
            &&& at < file.zone_map@.len()
            &&& file.row_groups_read(filters)[k] == file.zone_map@[at as int].zone_id
        },
{
    if 0 <= k < file.row_groups_read(filters).len() {
        lemma_reads_in_range(
            file.zone_map@,
            held_filters(file.blooms),
            file.field_ids@,
            filters,
            k,
        );
    }
}

/// A table uses the filters it holds: the zones it reads are those of its zone map, its Bloom
/// filters and its field ids; one that holds none goes by the stats alone.
pub proof fn law_tables_use_what_they_hold<S, B>(
    table: KarmaZoneTable<S, B>,
    filters: Seq<Expr>,
    blooms: ZoneBlooms,
)
    ensures
        table.blooms == Some(blooms) ==> table.read_by(filters) == translate::zones_to_read(
            table.zone_map@,
            Some(blooms@),
            table.field_ids@,
            filters,
        ),
        table.blooms is None ==> table.read_by(filters) == translate::zones_to_read(
            table.zone_map@,
            None,
            table.field_ids@,
            filters,
        ),
{
}

/// A snapshot prunes by a filter if and only if one of its files does: more files never take a
/// filter away, and a snapshot of one file goes by that file.
pub proof fn law_snapshots_prune_by_any_file<P, S>(
    a: SnapshotTable<P, S>,
    b: SnapshotTable<P, S>,
    both: SnapshotTable<P, S>,
    e: Expr,
)
    requires
        both.files@ == a.files@ + b.files@,
    ensures
        both.prunes_by(e) <==> a.prunes_by(e) || b.prunes_by(e),
        a.files@.len() == 0 ==> !a.prunes_by(e),
        a.files@.len() == 1 ==> (a.prunes_by(e) <==> translate::usable(
            a.files@[0].field_ids@,
            e,
        )),
{
    if a.prunes_by(e) {
        let f = choose|f: int|
            0 <= f < a.files@.len() && translate::usable((#[trigger] a.files@[f]).field_ids@, e);
        assert(both.files@[f] == a.files@[f]);
    }
    if b.prunes_by(e) {
        let f = choose|f: int|
            0 <= f < b.files@.len() && translate::usable((#[trigger] b.files@[f]).field_ids@, e);
        assert(both.files@[a.files@.len() + f] == b.files@[f]);
    }
    if both.prunes_by(e) {
        let f = choose|f: int|
            0 <= f < both.files@.len() && translate::usable(
                (#[trigger] both.files@[f]).field_ids@,
                e,
            );
        if f < a.files@.len() {
            assert(both.files@[f] == a.files@[f]);
        } else {
            assert(both.files@[f] == b.files@[f - a.files@.len()]);
        }
    }
    if a.files@.len() == 1 && translate::usable(a.files@[0].field_ids@, e) {
        assert(a.prunes_by(e));
    }
}

/// A scan hands out the batches of the zones that are read, each once and in order.
pub proof fn law_scans_hand_out_the_batches<S, B>(
    table: KarmaZoneTable<S, B>,
    filters: &[Expr],
    batches: Vec<&B>,
    k: int,
)
    requires
        call_ensures(KarmaZoneTable::<S, B>::scan, (&table, filters), batches),
        0 <= k < batches@.len(),
    ensures
        batches@.len() == table.read_by(filters@).len(),
        *batches@[k] == table.batches@[table.read_by(filters@)[k] as int],
{
}

/// A table made of a sidecar prunes by all of it: its zone map, its field ids, and its Bloom
/// filters, if it has any.
pub proof fn law_sidecar_tables_prune_by_the_sidecar<P, S>(
    path: P,
    sidecar: Sidecar<S>,
    table: ParquetZoneTable<P, S>,
    filters: Seq<Expr>,
)
    requires
        call_ensures(ParquetZoneTable::<P, S>::from_sidecar, (path, sidecar), table),
    ensures
        table.path == path,
        table.schema == sidecar.schema,
        table.read_by(filters) == translate::zones_to_read(
            sidecar.zone_map@,
            Some(sidecar.blooms@),
            sidecar.field_ids@,
            filters,
        ),
{
    if sidecar.blooms.entries@.len() == 0 {
        assert(sidecar.blooms@ =~= Seq::<EntryModel>::empty());
        law_no_filters_prune_nothing(sidecar.zone_map@, sidecar.field_ids@, filters);
    }
}

} // verus!
