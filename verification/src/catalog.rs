//! The lazy, resolver-backed catalog: how a query's `catalog.schema.table` binds to a
//! live snapshot.
//!
//! A table that its resolver cannot give is invisible rather than an error. A table
//! resolved once is kept, so that its sidecar (a full read of its files) is built
//! once.
use crate::sidecar;
use crate::sidecar::IndexField;
use crate::text;
use vstd::prelude::*;

verus! {

/// Which columns to index (zone map, bloom) when a table is first read.
pub trait IndexStrategy {
    fn fields_for(&self, table: &str) -> Vec<IndexField>;
}

/// Index nothing: always correct (the engine applies the real filter), just no pruning.
#[derive(Clone, Copy, Debug)]
pub struct NoIndex;

impl Default for NoIndex {
    fn default() -> (r: Self)
        ensures
            r == NoIndex,
    {
        NoIndex
    }
}

impl IndexStrategy for NoIndex {
    fn fields_for(&self, _table: &str) -> (r: Vec<IndexField>)
        ensures
            r@.len() == 0,
    {
        Vec::new()
    }
}

/// One index specification applied to every table.
#[derive(Debug)]
pub struct FixedIndex(pub Vec<IndexField>);

impl IndexStrategy for FixedIndex {
    fn fields_for(&self, _table: &str) -> (r: Vec<IndexField>)
        ensures
            sidecar::field_models(r@) == sidecar::field_models(self.0@),
    {
        let mut out: Vec<IndexField> = Vec::new();
        let mut i: usize = 0;
        while i < self.0.len()
            invariant
                i <= self.0@.len(),
                out@.len() == i,
                forall|k: int| 0 <= k < i ==> (#[trigger] out@[k])@ == self.0@[k]@,
            decreases self.0@.len() - i,
        {
            let f: &IndexField = &self.0[i];
            out.push(IndexField { name: f.name.clone(), field_id: f.field_id, bloom: f.bloom });
            i = i + 1;
        }
        proof {
            assert(sidecar::field_models(out@) =~= sidecar::field_models(self.0@));
        }
        out
    }
}

/// A resolver of snapshots and a choice of what to index in their tables.
pub struct SnapshotTableResolver<R, I> {
    pub resolver: R,
    pub index: I,
}

impl<R, I: IndexStrategy> SnapshotTableResolver<R, I> {
    pub fn new(resolver: R, index: I) -> (r: Self)
        ensures
            r.resolver == resolver,
            r.index == index,
    {
        Self { resolver, index }
    }

    /// What becomes of a resolved table: a failure means the table is not there (which also
    /// makes a table that the caller may not see invisible); a snapshot is read with the fields
    /// that the index strategy names for it.
    pub fn resolution<T, E>(&self, fqn: &str, resolved: Result<T, E>) -> (r: Option<
        (T, Vec<IndexField>),
    >)
        ensures
            match (resolved, r) {
                (Err(_), None) => true,
                (Ok(snapshot), Some((t, fields))) => t == snapshot && call_ensures(
                    I::fields_for,
                    (&self.index, fqn),
                    fields,
                ),
                _ => false,
            },
    {
        match resolved {
            Err(_) => None,
            Ok(snapshot) => Some((snapshot, self.index.fields_for(fqn))),
        }
    }
}

/// The name of a table in full: `catalog.schema.table`.
pub open spec fn full_name(catalog: Seq<char>, schema: Seq<char>, table: Seq<char>) -> Seq<char> {
    catalog + "."@ + schema + "."@ + table
}

/// What the full names of the tables of a schema start with.
pub open spec fn schema_prefix(catalog: Seq<char>, schema: Seq<char>) -> Seq<char> {
    catalog + "."@ + schema + "."@
}

pub fn qualified_name(catalog: &str, schema: &str, table: &str) -> (r: String)
    ensures
        r@ == full_name(catalog@, schema@, table@),
{
    let mut out: String = catalog.to_owned();
    out.append(".");
    out.append(schema);
    out.append(".");
    out.append(table);
    out
}

/// The tables resolved so far, by full name. No name occurs twice.
pub struct TableCache<T> {
    entries: Vec<(String, T)>,
}

/// The table kept under a name.
pub open spec fn kept_under<T>(entries: Seq<(Seq<char>, T)>, name: Seq<char>) -> Option<T>
    decreases entries.len(),
{
    if entries.len() == 0 {
        None
    } else if entries[0].0 == name {
        Some(entries[0].1)
    } else {
        kept_under(entries.drop_first(), name)
    }
}

/// The names, from `i` on, of what is kept under a prefix, without the prefix.
pub open spec fn names_after<T>(entries: Seq<(Seq<char>, T)>, prefix: Seq<char>, i: int) -> Seq<
    Seq<char>,
>
    decreases entries.len() - i,
{
    if 0 <= i < entries.len() {
        let rest = names_after(entries, prefix, i + 1);
        if text::starts_with(entries[i].0, prefix) {
            seq![entries[i].0.skip(prefix.len() as int)] + rest
        } else {
            rest
        }
    } else {
        Seq::empty()
    }
}

/// What a list of texts says.
pub open spec fn texts(ss: Seq<String>) -> Seq<Seq<char>> {
    ss.map_values(|s: String| s@)
}

/// What a schema does for a table name: hand out the table kept, or ask the resolver for the full
/// name.
pub enum Lookup<'a, T> {
    Cached(&'a T),
    Resolve(String),
}

/// What the resolver's answer for a name makes of the tables kept: a table is kept under the name,
/// an absent one (or a failure) leaves no trace.
pub open spec fn settled<T>(
    before: Seq<(Seq<char>, T)>,
    after: Seq<(Seq<char>, T)>,
    full: Seq<char>,
    answer: Option<T>,
) -> bool {
    match answer {
        Some(table) => kept_under(after, full) == Some(table) && forall|name: Seq<char>|
            name != full ==> #[trigger] kept_under(after, name) == kept_under(before, name),
        None => after == before,
    }
}

impl<T> View for TableCache<T> {
    type V = Seq<(Seq<char>, T)>;

    closed spec fn view(&self) -> Seq<(Seq<char>, T)> {
        self.entries@.map_values(|e: (String, T)| (e.0@, e.1))
    }
}

impl<T> TableCache<T> {
    /// No name occurs twice.
    pub open spec fn wf(&self) -> bool {
        forall|i: int, j: int|
            0 <= i < j < self@.len() ==> (#[trigger] self@[i]).0 != (#[trigger] self@[j]).0
    }

    pub fn new() -> (r: Self)
        ensures
            r.wf(),
            r@ == Seq::<(Seq<char>, T)>::empty(),
    {
        let r = TableCache { entries: Vec::new() };
        proof {
            assert(r@ =~= Seq::<(Seq<char>, T)>::empty());
        }
        r
    }

    /// How many tables are kept.
    pub fn len(&self) -> (r: usize)
        ensures
            r == self@.len(),
    {
        self.entries.len()
    }

    /// The table kept under a full name.
    pub fn get(&self, full: &str) -> (r: Option<&T>)
        ensures
            match r {
                Some(t) => kept_under(self@, full@) == Some(*t),
                None => kept_under(self@, full@) is None,
            },
    {
        let wanted: String = full.to_owned();
        let mut i: usize = 0;
        proof {
            assert(self@.skip(0) =~= self@);
        }
        while i < self.entries.len()
            invariant
                i <= self.entries@.len(),
                wanted@ == full@,
                kept_under(self@, full@) == kept_under(self@.skip(i as int), full@),
            decreases self.entries@.len() - i,
        {
            proof {
                assert(self@.skip(i as int)[0] == (
                    self.entries@[i as int].0@,
                    self.entries@[i as int].1,
                ));
                assert(self@.skip(i as int).drop_first() =~= self@.skip(i + 1));
            }
            if self.entries[i].0 == wanted {
                return Some(&self.entries[i].1);
            }
            i = i + 1;
        }
        None
    }

    /// Keep a table under a full name, in place of one kept there before.
    pub fn insert(&mut self, full: String, table: T)
        requires
            old(self).wf(),
        ensures
            final(self).wf(),
            kept_under(final(self)@, full@) == Some(table),
            forall|name: Seq<char>|
                name != full@ ==> #[trigger] kept_under(final(self)@, name) == kept_under(
                    old(self)@,
                    name,
                ),
            final(self)@.len() == old(self)@.len() + if kept_under(old(self)@, full@) is None {
                1int
            } else {
                0
            },
    {
        let ghost name = full@;
        let mut i: usize = 0;
        while i < self.entries.len()
            invariant
                i <= self.entries@.len(),
                *self == *old(self),
                name == full@,
                old(self).wf(),
                forall|k: int| 0 <= k < i ==> (#[trigger] self@[k]).0 != name,
            decreases self.entries@.len() - i,
        {
            proof {
                assert(self@[i as int] == (
                    self.entries@[i as int].0@,
                    self.entries@[i as int].1,
                ));
            }
            if self.entries[i].0 == full {
                self.entries.set(i, (full, table));
                proof {
                    assert(self@ =~= old(self)@.update(i as int, (name, table)));
                    assert forall|other: Seq<char>| #[trigger] kept_under(self@, other) == (if other
                        == name {
                        Some(table)
                    } else {
                        kept_under(old(self)@, other)
                    }) by {
                        lemma_replaced(old(self)@, i as int, table, other);
                    }
                    lemma_found(old(self)@, i as int);
                }
                return ;
            }
            i = i + 1;
        }
        self.entries.push((full, table));
        proof {
            assert(self@ =~= old(self)@.push((name, table)));
            assert forall|other: Seq<char>| #[trigger] kept_under(self@, other) == (if other
                == name {
                Some(table)
            } else {
                kept_under(old(self)@, other)
            }) by {
                lemma_added(old(self)@, name, table, other);
            }
            lemma_not_kept(old(self)@, name);
        }
    }

    /// Look a table of a schema up: the resolver is asked only for what is not kept.
    pub fn look_up(&self, catalog: &str, schema: &str, table: &str) -> (r: Lookup<'_, T>)
        ensures
            match r {
                Lookup::Cached(t) => kept_under(self@, full_name(catalog@, schema@, table@))
                    == Some(*t),
                Lookup::Resolve(full) => full@ == full_name(catalog@, schema@, table@)
                    && kept_under(self@, full@) is None,
            },
    {
        let full: String = qualified_name(catalog, schema, table);
        match self.get(full.as_str()) {
            Some(t) => Lookup::Cached(t),
            None => Lookup::Resolve(full),
        }
    }

    /// Take note of the resolver's answer for a full name; `None` stands for a table that is not
    /// there and for a failure, which are asked for again the next time.
    pub fn settle(&mut self, full: String, answer: Option<T>)
        requires
            old(self).wf(),
        ensures
            final(self).wf(),
            settled(old(self)@, final(self)@, full@, answer),
    {
        if let Some(table) = answer {
            self.insert(full, table);
        }
    }

    /// The names of the tables resolved so far under a schema.
    pub fn table_names(&self, catalog: &str, schema: &str) -> (r: Vec<String>)
        ensures
            texts(r@) == names_after(self@, schema_prefix(catalog@, schema@), 0),
    {
        let prefix: String = qualified_name(catalog, schema, "");
        let ghost p = schema_prefix(catalog@, schema@);
        proof {
            reveal_strlit("");
            assert(full_name(catalog@, schema@, ""@) =~= p);
        }
        let want: Vec<char> = text::chars_of(prefix.as_str());
        let mut out: Vec<String> = Vec::new();
        let mut i: usize = 0;
        proof {
            assert(texts(out@) + names_after(self@, p, 0) =~= names_after(self@, p, 0));
        }
        while i < self.entries.len()
            invariant
                i <= self.entries@.len(),
                want@ == p,
                p == schema_prefix(catalog@, schema@),
                texts(out@) + names_after(self@, p, i as int) == names_after(self@, p, 0),
            decreases self.entries@.len() - i,
        {
            let ghost before = texts(out@);
            let key: Vec<char> = text::chars_of(self.entries[i].0.as_str());
            proof {
                assert(self@[i as int] == (
                    self.entries@[i as int].0@,
                    self.entries@[i as int].1,
                ));
            }
            if text::has_prefix(key.as_slice(), want.as_slice()) {
                let rest: String = text::text_between(key.as_slice(), want.len(), key.len());
                proof {
                    assert(key@.skip(p.len() as int) =~= key@.subrange(
                        p.len() as int,
                        key@.len() as int,
                    ));
                }
                let ghost items = out@;
                out.push(rest);
                proof {
                    assert(texts(out@) =~= texts(items).push(rest@));
                }
            }
            proof {
                assert(texts(out@) + names_after(self@, p, i + 1) =~= before + names_after(
                    self@,
                    p,
                    i as int,
                ));
            }
            i = i + 1;
        }
        proof {
            assert(texts(out@) =~= texts(out@) + names_after(self@, p, i as int));
        }
        out
    }
}

proof fn lemma_not_kept<T>(entries: Seq<(Seq<char>, T)>, name: Seq<char>)
    requires
        forall|k: int| 0 <= k < entries.len() ==> (#[trigger] entries[k]).0 != name,
    ensures
        kept_under(entries, name) is None,
    decreases entries.len(),
{
    if entries.len() > 0 {
        assert(entries[0].0 != name);
        assert forall|k: int| 0 <= k < entries.drop_first().len() implies (
        #[trigger] entries.drop_first()[k]).0 != name by {
            assert(entries[k + 1].0 != name);
        }
        lemma_not_kept(entries.drop_first(), name);
    }
}

proof fn lemma_found<T>(entries: Seq<(Seq<char>, T)>, i: int)
    requires
        0 <= i < entries.len(),
    ensures
        kept_under(entries, entries[i].0) is Some,
    decreases i,
{
    if i > 0 && entries[0].0 != entries[i].0 {
        assert(entries.drop_first()[i - 1] == entries[i]);
        lemma_found(entries.drop_first(), i - 1);
    }
}

proof fn lemma_replaced<T>(
    entries: Seq<(Seq<char>, T)>,
    i: int,
    table: T,
    name: Seq<char>,
)
    requires
        0 <= i < entries.len(),
        forall|k: int| 0 <= k < i ==> (#[trigger] entries[k]).0 != entries[i].0,
    ensures
        kept_under(entries.update(i, (entries[i].0, table)), name) == (if name == entries[i].0 {
            Some(table)
        } else {
            kept_under(entries, name)
        }),
    decreases i,
{
    let e = (entries[i].0, table);
    let after = entries.update(i, e);
    if i == 0 {
        assert(after.drop_first() =~= entries.drop_first());
    } else {
        assert(entries[0].0 != entries[i].0);
        assert forall|k: int| 0 <= k < i - 1 implies (#[trigger] entries.drop_first()[k]).0
            != entries.drop_first()[i - 1].0 by {
            assert(entries[k + 1].0 != entries[i].0);
        }
        lemma_replaced(entries.drop_first(), i - 1, table, name);
        assert(after.drop_first() =~= entries.drop_first().update(i - 1, e));
    }
}

proof fn lemma_added<T>(
    entries: Seq<(Seq<char>, T)>,
    added: Seq<char>,
    table: T,
    name: Seq<char>,
)
    requires
        forall|k: int| 0 <= k < entries.len() ==> (#[trigger] entries[k]).0 != added,
    ensures
        kept_under(entries.push((added, table)), name) == (if name == added {
            Some(table)
        } else {
            kept_under(entries, name)
        }),
    decreases entries.len(),
{
    let after = entries.push((added, table));
    if entries.len() == 0 {
        assert(after.drop_first() =~= entries);
    } else {
        assert(entries[0].0 != added);
        assert forall|k: int| 0 <= k < entries.drop_first().len() implies (
        #[trigger] entries.drop_first()[k]).0 != added by {
            assert(entries[k + 1].0 != added);
        }
        lemma_added(entries.drop_first(), added, table, name);
        assert(after.drop_first() =~= entries.drop_first().push((added, table)));
    }
}

/// A table resolved once is served from then on: whatever else is looked up and settled in between
/// (names that are not kept yet), the table kept under its name stays the same, so the resolver is
/// not asked for it again. `states` are the tables kept after each answer.
pub proof fn law_resolved_tables_stay<T>(
    states: Seq<Seq<(Seq<char>, T)>>,
    asked: Seq<Seq<char>>,
    answers: Seq<Option<T>>,
    full: Seq<char>,
    table: T,
    a: int,
    b: int,
)
    requires
        states.len() == asked.len() + 1,
        asked.len() == answers.len(),
        forall|i: int|
            0 <= i < asked.len() ==> kept_under(states[i], #[trigger] asked[i]) is None && settled(
                states[i],
                states[i + 1],
                asked[i],
                answers[i],
            ),
        0 <= a <= b < states.len(),
        kept_under(states[a], full) == Some(table),
    ensures
        kept_under(states[b], full) == Some(table),
    decreases b - a,
{
    if a < b {
        assert(asked[a] != full);
        law_resolved_tables_stay(states, asked, answers, full, table, a + 1, b);
    }
}

/// Asking the resolver once settles a name: a table it answered with is kept under the name, and
/// where it had none nothing is, so the name is asked for again.
pub proof fn law_only_tables_are_kept<T>(
    before: Seq<(Seq<char>, T)>,
    after: Seq<(Seq<char>, T)>,
    full: Seq<char>,
    answer: Option<T>,
)
    requires
        kept_under(before, full) is None,
        settled(before, after, full, answer),
    ensures
        kept_under(after, full) == answer,
{
}

/// A table is named under its schema by its own name: the full name starts with the schema's
/// prefix, and what follows is the table's name.
pub proof fn law_full_names_stand_under_their_schema(
    catalog: Seq<char>,
    schema: Seq<char>,
    table: Seq<char>,
)
    ensures
        text::starts_with(full_name(catalog, schema, table), schema_prefix(catalog, schema)),
        full_name(catalog, schema, table).skip(schema_prefix(catalog, schema).len() as int)
            == table,
{
    let p = schema_prefix(catalog, schema);
    let f = full_name(catalog, schema, table);
    assert(f =~= p + table);
    assert(f.take(p.len() as int) =~= p);
    assert(f.skip(p.len() as int) =~= table);
}

/// A full name is the catalog, the schema and the table with a dot between each, and nothing
/// else; the prefix of a schema is the full name up to the table.
pub proof fn law_full_names_join_with_dots(
    catalog: Seq<char>,
    schema: Seq<char>,
    table: Seq<char>,
)
    ensures
        full_name(catalog, schema, table) == catalog.push('.') + schema.push('.') + table,
        schema_prefix(catalog, schema) == catalog.push('.') + schema.push('.'),
{
    reveal_strlit(".");
    let dot = "."@;
    assert(dot =~= seq!['.']);
    assert(full_name(catalog, schema, table) =~= catalog.push('.') + schema.push('.') + table);
    assert(schema_prefix(catalog, schema) =~= catalog.push('.') + schema.push('.'));
}

/// What is kept under a name is the table of the first entry with that very name; under a name
/// that no entry has there is nothing.
pub proof fn law_tables_are_kept_by_name<T>(
    entries: Seq<(Seq<char>, T)>,
    name: Seq<char>,
    i: int,
)
    requires
        0 <= i <= entries.len(),
        forall|k: int| 0 <= k < i ==> (#[trigger] entries[k]).0 != name,
        i < entries.len() ==> entries[i].0 == name,
    ensures
        i < entries.len() ==> kept_under(entries, name) == Some(entries[i].1),
        i == entries.len() ==> kept_under(entries, name) is None,
    decreases entries.len(),
{
    if i > 0 {
        let rest = entries.drop_first();
        assert(entries[0].0 != name);
        assert forall|k: int| 0 <= k < i - 1 implies (#[trigger] rest[k]).0 != name by {
            assert(rest[k] == entries[k + 1]);
        }
        law_tables_are_kept_by_name(rest, name, i - 1);
    }
}

/// The names listed for a schema are those of its tables, in the order of the entries: a table
/// of the schema is listed by its own name, one of another schema is not listed.
pub proof fn law_tables_are_listed_by_schema<T>(
    entries: Seq<(Seq<char>, T)>,
    more: Seq<(Seq<char>, T)>,
    full: Seq<char>,
    table: T,
    prefix: Seq<char>,
    name: Seq<char>,
)
    ensures
        names_after(Seq::<(Seq<char>, T)>::empty(), prefix, 0) == Seq::<Seq<char>>::empty(),
        names_after(seq![(prefix + name, table)], prefix, 0) == seq![name],
        !(exists|rest: Seq<char>| full == #[trigger] (prefix + rest)) ==> names_after(
            seq![(full, table)],
            prefix,
            0,
        ) == Seq::<Seq<char>>::empty(),
        names_after(entries + more, prefix, 0) == names_after(entries, prefix, 0) + names_after(
            more,
            prefix,
            0,
        ),
{
    let whole = prefix + name;
    let one = seq![(whole, table)];
    text::law_prefixes_are_followed(prefix, name, full);
    assert(whole.skip(prefix.len() as int) =~= name);
    assert(names_after(one, prefix, 1) =~= Seq::<Seq<char>>::empty());
    assert(one[0].0 == whole);
    assert(names_after(one, prefix, 0) =~= seq![name]);
    if text::starts_with(full, prefix) {
        assert(full == prefix + full.skip(prefix.len() as int));
    }
    let other = seq![(full, table)];
    assert(other[0].0 == full);
    assert(names_after(other, prefix, 1) =~= Seq::<Seq<char>>::empty());
    lemma_names_join(entries, more, prefix, 0);
}

proof fn lemma_names_join<T>(
    entries: Seq<(Seq<char>, T)>,
    more: Seq<(Seq<char>, T)>,
    prefix: Seq<char>,
    i: int,
)
    requires
        0 <= i <= entries.len(),
    ensures
        names_after(entries + more, prefix, i) == names_after(entries, prefix, i) + names_after(
            more,
            prefix,
            0,
        ),
    decreases entries.len() - i,
{
    let all = names_after(entries, prefix, i) + names_after(more, prefix, 0);
    if i < entries.len() {
        assert((entries + more)[i] == entries[i]);
        lemma_names_join(entries, more, prefix, i + 1);
        assert(names_after(entries + more, prefix, i) =~= all);
    } else {
        lemma_names_shift(entries, more, prefix, 0);
        assert(all =~= names_after(more, prefix, 0));
    }
}

proof fn lemma_names_shift<T>(
    entries: Seq<(Seq<char>, T)>,
    more: Seq<(Seq<char>, T)>,
    prefix: Seq<char>,
    k: int,
)
    requires
        0 <= k <= more.len(),
    ensures
        names_after(entries + more, prefix, entries.len() + k) == names_after(more, prefix, k),
    decreases more.len() - k,
{
    if k < more.len() {
        assert((entries + more)[entries.len() + k] == more[k]);
        lemma_names_shift(entries, more, prefix, k + 1);
    }
}

/// A qualified name joins its three parts with dots.
pub proof fn law_qualified_names_join_with_dots(
    catalog: &str,
    schema: &str,
    table: &str,
    r: String,
)
    requires
        call_ensures(qualified_name, (catalog, schema, table), r),
    ensures
        r@ == catalog@.push('.') + schema@.push('.') + table@,
{
    law_full_names_join_with_dots(catalog@, schema@, table@);
}

/// A table that cannot be resolved is none; one that can comes as it was resolved.
pub proof fn law_resolution_passes_the_table_on<R, I: IndexStrategy, T, E>(
    resolver: SnapshotTableResolver<R, I>,
    fqn: &str,
    resolved: Result<T, E>,
    r: Option<(T, Vec<IndexField>)>,
)
    requires
        call_ensures(
            SnapshotTableResolver::<R, I>::resolution::<T, E>,
            (&resolver, fqn, resolved),
            r,
        ),
    ensures
        resolved is Err <==> r is None,
        resolved matches Ok(t) ==> (r matches Some((u, _)) && u == t),
{
}

} // verus!
