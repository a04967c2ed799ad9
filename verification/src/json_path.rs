//! `GET_JSON_OBJECT(json, '$.path')`: a Spark JSONPath subset (`$`, `.key`, `[n]`,
//! `['key']`, `["key"]`) over a JSON document.
use crate::text;
use serde_json::Value as JsonValue;
use vstd::prelude::*;

verus! {

/// The content of a JSON value. A number is its text; the members of an object stand in order,
/// each key once.
pub enum JsonTree {
    Null,
    Bool(bool),
    Number(Seq<char>),
    Text(Seq<char>),
    Array(Seq<JsonTree>),
    Object(Seq<(Seq<char>, JsonTree)>),
}

/// A parsed JSON value.
#[verifier::external_type_specification]
#[verifier::external_body]
pub struct ExJsonValue(JsonValue);

/// What a JSON value holds.
pub uninterp spec fn json_content(v: JsonValue) -> JsonTree;

/// What parsing a text as one JSON document comes to; none for invalid JSON.
pub uninterp spec fn json_document(text: Seq<char>) -> Option<JsonTree>;

/// A JSON value as compact text.
pub uninterp spec fn json_compact(tree: JsonTree) -> Seq<char>;

/// The content of an optional JSON value.
pub open spec fn optional_content(v: Option<&JsonValue>) -> Option<JsonTree> {
    match v {
        Some(w) => Some(json_content(*w)),
        None => None,
    }
}

/// The member of an object under a key.
pub open spec fn member(ms: Seq<(Seq<char>, JsonTree)>, key: Seq<char>) -> Option<JsonTree>
    decreases ms.len(),
{
    if ms.len() == 0 {
        None
    } else if ms[0].0 == key {
        Some(ms[0].1)
    } else {
        member(ms.drop_first(), key)
    }
}

/// `serde_json::from_str` into a `serde_json::Value`: `Some` for valid JSON, `None` for an
/// error. What it makes of a text depends on the text alone and is left to its name.
#[verifier::external_body]
pub(crate) fn json_parse(json: &str) -> (r: Option<JsonValue>)
    ensures
        match r {
            Some(v) => json_document(json@) == Some(json_content(v)),
            None => json_document(json@) is None,
        },
{
    serde_json::from_str(json).ok()
}

/// `serde_json::Value::get` with a string: the member of an object under the key; nothing for a
/// key that is not there or a value that is no object.
#[verifier::external_body]
pub(crate) fn json_member<'a>(v: &'a JsonValue, key: &str) -> (r: Option<
    &'a JsonValue,
>)
    ensures
        optional_content(r) == (match json_content(*v) {
            JsonTree::Object(ms) => member(ms, key@),
            _ => None,
        }),
{
    v.get(key)
}

/// `serde_json::Value::get` with a number: the element of an array at the index; nothing past
/// the end or for a value that is no array.
#[verifier::external_body]
pub(crate) fn json_element(v: &JsonValue, index: usize) -> (r: Option<
    &JsonValue,
>)
    ensures
        optional_content(r) == (match json_content(*v) {
            JsonTree::Array(items) => if index < items.len() {
                Some(items[index as int])
            } else {
                None
            },
            _ => None,
        }),
{
    v.get(index)
}

/// `serde_json::Value::is_null`: whether the value is JSON `null`.
#[verifier::external_body]
pub(crate) fn json_is_null(v: &JsonValue) -> (r: bool)
    ensures
        r == (json_content(*v) is Null),
{
    v.is_null()
}

/// `serde_json::Value::as_str`: the text of a JSON string; nothing for another value.
#[verifier::external_body]
pub(crate) fn json_as_str(v: &JsonValue) -> (r: Option<&str>)
    ensures
        match r {
            Some(s) => json_content(*v) == JsonTree::Text(s@),
            None => !(json_content(*v) is Text),
        },
{
    v.as_str()
}

/// `serde_json::Value`'s `to_string`: compact JSON text. It depends on what the value holds
/// alone and is left to its name.
#[verifier::external_body]
pub(crate) fn json_to_text(v: &JsonValue) -> (r: String)
    ensures
        r@ == json_compact(json_content(*v)),
{
    v.to_string()
}

/// One step of a path.
#[derive(Clone, Debug, PartialEq, Eq)]
pub enum PathStep {
    Key(String),
    Index(usize),
}

/// What a [`PathStep`] says.
pub enum StepModel {
    Key(Seq<char>),
    Index(usize),
}

impl View for PathStep {
    type V = StepModel;

    open spec fn view(&self) -> StepModel {
        match self {
            PathStep::Key(k) => StepModel::Key(k@),
            PathStep::Index(i) => StepModel::Index(*i),
        }
    }
}

/// What a list of steps says.
pub open spec fn step_models(steps: Seq<PathStep>) -> Seq<StepModel> {
    steps.map_values(|s: PathStep| s@)
}

/// How many characters come before the next `.` or `[`, or the end.
pub open spec fn key_len(s: Seq<char>) -> nat
    decreases s.len(),
{
    if s.len() == 0 || s[0] == '.' || s[0] == '[' {
        0
    } else {
        1 + key_len(s.drop_first())
    }
}

/// How many characters come before the next `]`; none if there is none.
pub open spec fn close_at(s: Seq<char>) -> Option<nat>
    decreases s.len(),
{
    if s.len() == 0 {
        None
    } else if s[0] == ']' {
        Some(0)
    } else {
        match close_at(s.drop_first()) {
            Some(n) => Some(1 + n),
            None => None,
        }
    }
}

/// Whether text stands between two of the same quote.
pub open spec fn quoted_by(s: Seq<char>, q: char) -> bool {
    s.len() >= 2 && s[0] == q && s.last() == q
}

/// The step between brackets: a quoted key or an index.
pub open spec fn bracket_step(inner: Seq<char>) -> Option<StepModel> {
    let s = text::trimmed(inner);
    if quoted_by(s, '\'') || quoted_by(s, '"') {
        Some(StepModel::Key(s.subrange(1, s.len() - 1)))
    } else {
        match text::unsigned(s) {
            Some(i) => Some(StepModel::Index(i)),
            None => None,
        }
    }
}

/// A step in front of the rest of a path.
pub open spec fn before(step: StepModel, rest: Option<Seq<StepModel>>) -> Option<Seq<StepModel>> {
    match rest {
        Some(steps) => Some(seq![step] + steps),
        None => None,
    }
}

/// The steps of a path after its `$`; none if it is not well formed.
pub open spec fn steps_of(s: Seq<char>) -> Option<Seq<StepModel>>
    decreases s.len(),
{
    if s.len() == 0 {
        Some(Seq::empty())
    } else if s[0] == '.' {
        let n = key_len(s.skip(1));
        proof {
            lemma_key_len(s.skip(1));
        }
        if n > 0 {
            before(StepModel::Key(s.subrange(1, 1 + n as int)), steps_of(s.skip(1 + n as int)))
        } else {
            None
        }
    } else if s[0] == '[' {
        proof {
            lemma_close_at(s.skip(1));
        }
        match close_at(s.skip(1)) {
            Some(n) => match bracket_step(s.subrange(1, 1 + n as int)) {
                Some(step) => before(step, steps_of(s.skip(n as int + 2))),
                None => None,
            },
            None => None,
        }
    } else {
        None
    }
}

/// The steps of a whole path; none if it is not well formed.
pub open spec fn path_steps(path: Seq<char>) -> Option<Seq<StepModel>> {
    if path.len() > 0 && path[0] == '$' {
        steps_of(path.skip(1))
    } else {
        None
    }
}

/// Where one step leads from a tree.
pub open spec fn stepped(tree: JsonTree, step: StepModel) -> Option<JsonTree> {
    match (step, tree) {
        (StepModel::Key(k), JsonTree::Object(ms)) => member(ms, k),
        (StepModel::Index(i), JsonTree::Array(items)) => if i < items.len() {
            Some(items[i as int])
        } else {
            None
        },
        _ => None,
    }
}

/// Where steps lead from a tree, one after another.
pub open spec fn walked(tree: JsonTree, steps: Seq<StepModel>) -> Option<JsonTree>
    decreases steps.len(),
{
    if steps.len() == 0 {
        Some(tree)
    } else {
        match stepped(tree, steps[0]) {
            Some(next) => walked(next, steps.drop_first()),
            None => None,
        }
    }
}

/// The text of a leaf: a string unquoted, a `null` nothing, all else compact JSON.
pub open spec fn leaf_text(tree: JsonTree) -> Option<Seq<char>> {
    match tree {
        JsonTree::Null => None,
        JsonTree::Text(s) => Some(s),
        _ => Some(json_compact(tree)),
    }
}

/// What a path extracts from a tree.
pub open spec fn extracted(tree: JsonTree, path: Seq<char>) -> Option<Seq<char>> {
    match path_steps(path) {
        Some(steps) => match walked(tree, steps) {
            Some(leaf) => leaf_text(leaf),
            None => None,
        },
        None => None,
    }
}

/// What an optional text says.
pub open spec fn optional_text(s: Option<String>) -> Option<Seq<char>> {
    match s {
        Some(x) => Some(x@),
        None => None,
    }
}

pub proof fn lemma_key_len(s: Seq<char>)
    ensures
        key_len(s) <= s.len(),
    decreases s.len(),
{
    if s.len() > 0 {
        lemma_key_len(s.drop_first());
    }
}

pub proof fn lemma_close_at(s: Seq<char>)
    ensures
        close_at(s) matches Some(n) ==> n < s.len(),
    decreases s.len(),
{
    if s.len() > 0 {
        lemma_close_at(s.drop_first());
    }
}

/// The end of the key that starts at `from`.
fn key_end(cs: &[char], from: usize) -> (r: usize)
    requires
        from <= cs@.len(),
    ensures
        from <= r <= cs@.len(),
        r - from == key_len(cs@.skip(from as int)),
{
    let mut i: usize = from;
    while i < cs.len() && cs[i] != '.' && cs[i] != '['
        invariant
            from <= i <= cs@.len(),
            key_len(cs@.skip(from as int)) == (i - from) + key_len(cs@.skip(i as int)),
        decreases cs@.len() - i,
    {
        proof {
            assert(cs@.skip(i as int).drop_first() =~= cs@.skip(i + 1));
        }
        i = i + 1;
    }
    i
}

/// The position of the next `]` from `from` on.
fn close_position(cs: &[char], from: usize) -> (r: Option<usize>)
    requires
        from <= cs@.len(),
    ensures
        match r {
            Some(i) => from <= i < cs@.len() && close_at(cs@.skip(from as int)) == Some(
                (i - from) as nat,
            ),
            None => close_at(cs@.skip(from as int)) is None,
        },
{
    let mut i: usize = from;
    while i < cs.len()
        invariant
            from <= i <= cs@.len(),
            close_at(cs@.skip(from as int)) == match close_at(cs@.skip(i as int)) {
                Some(n) => Some((i - from) as nat + n),
                None => None,
            },
        decreases cs@.len() - i,
    {
        proof {
            assert(cs@.skip(i as int).drop_first() =~= cs@.skip(i + 1));
        }
        if cs[i] == ']' {
            return Some(i);
        }
        i = i + 1;
    }
    None
}

/// The step between brackets, of the characters from `from` up to `to`.
fn parse_bracket(cs: &[char], from: usize, to: usize) -> (r: Option<PathStep>)
    requires
        from <= to <= cs@.len(),
    ensures
        match r {
            Some(s) => bracket_step(cs@.subrange(from as int, to as int)) == Some(s@),
            None => bracket_step(cs@.subrange(from as int, to as int)) is None,
        },
{
    let (a, b) = text::trim_range(cs, from, to);
    let ghost s = cs@.subrange(a as int, b as int);
    let quoted: bool = b - a >= 2 && ((cs[a] == '\'' && cs[b - 1] == '\'') || (cs[a] == '"' && cs[b
        - 1] == '"'));
    if quoted {
        proof {
            assert(s.subrange(1, s.len() - 1) =~= cs@.subrange(a + 1, b - 1));
        }
        Some(PathStep::Key(text::text_between(cs, a + 1, b - 1)))
    } else {
        match text::parse_unsigned(cs, a, b) {
            Some(i) => Some(PathStep::Index(i)),
            None => None,
        }
    }
}

/// Parse a path into its steps.
pub fn parse_path(path: &str) -> (r: Option<Vec<PathStep>>)
    ensures
        match r {
            Some(steps) => path_steps(path@) == Some(step_models(steps@)),
            None => path_steps(path@) is None,
        },
{
    let chars: Vec<char> = text::chars_of(path);
    let cs: &[char] = chars.as_slice();
    if cs.len() == 0 || cs[0] != '$' {
        return None;
    }
    let mut out: Vec<PathStep> = Vec::new();
    let mut p: usize = 1;
    let ghost model = Seq::<StepModel>::empty();
    proof {
        assert(step_models(out@) =~= model);
        let all = steps_of(path@.skip(1));
        assert(all is Some ==> model + all->0 =~= all->0);
    }
    while p < cs.len()
        invariant
            1 <= p <= cs@.len(),
            cs@ == path@,
            path_steps(path@) == steps_of(path@.skip(1)),
            model == step_models(out@),
            steps_of(path@.skip(1)) == match steps_of(cs@.skip(p as int)) {
                Some(rest) => Some(model + rest),
                None => None,
            },
        decreases cs@.len() - p,
    {
        let ghost s = cs@.skip(p as int);
        let ghost from = p as int;
        proof {
            assert(s.skip(1) =~= cs@.skip(p + 1));
        }
        let step: PathStep;
        if cs[p] == '.' {
            let end: usize = key_end(cs, p + 1);
            if end == p + 1 {
                return None;
            }
            step = PathStep::Key(text::text_between(cs, p + 1, end));
            proof {
                let n = key_len(s.skip(1)) as int;
                assert(s.subrange(1, 1 + n) =~= cs@.subrange(p + 1, end as int));
                assert(s.skip(1 + n) =~= cs@.skip(end as int));
            }
            p = end;
        } else if cs[p] == '[' {
            let close: usize = match close_position(cs, p + 1) {
                Some(i) => i,
                None => return None,
            };
            proof {
                let n = close_at(s.skip(1))->0 as int;
                assert(s.subrange(1, 1 + n) =~= cs@.subrange(p + 1, close as int));
                assert(s.skip(n + 2) =~= cs@.skip(close + 1));
            }
            step = match parse_bracket(cs, p + 1, close) {
                Some(s) => s,
                None => return None,
            };
            p = close + 1;
        } else {
            return None;
        }
        proof {
            assert(steps_of(s) == before(step@, steps_of(cs@.skip(p as int))));
            let rest = steps_of(cs@.skip(p as int));
            if rest is Some {
                assert(model + (seq![step@] + rest->0) =~= model.push(step@) + rest->0);
            }
            model = model.push(step@);
        }
        out.push(step);
        proof {
            assert(step_models(out@) =~= model);
        }
    }
    proof {
        assert(cs@.skip(p as int) =~= Seq::<char>::empty());
        assert(model + Seq::<StepModel>::empty() =~= model);
    }
    Some(out)
}

/// Follow steps from a parsed value.
pub fn walk<'a>(value: &'a JsonValue, steps: &[PathStep]) -> (r: Option<
    &'a JsonValue,
>)
    ensures
        optional_content(r) == walked(json_content(*value), step_models(steps@)),
{
    let ghost all = step_models(steps@);
    let mut cur: &'a JsonValue = value;
    let mut i: usize = 0;
    proof {
        assert(all.skip(0) =~= all);
    }
    while i < steps.len()
        invariant
            i <= steps@.len(),
            all == step_models(steps@),
            walked(json_content(*value), all) == walked(json_content(*cur), all.skip(i as int)),
        decreases steps@.len() - i,
    {
        proof {
            assert(all.skip(i as int)[0] == steps@[i as int]@);
            assert(all.skip(i as int).drop_first() =~= all.skip(i + 1));
        }
        let next: Option<&'a JsonValue> = match &steps[i] {
            PathStep::Key(k) => json_member(cur, k.as_str()),
            PathStep::Index(n) => json_element(cur, *n),
        };
        cur = match next {
            Some(v) => v,
            None => return None,
        };
        i = i + 1;
    }
    Some(cur)
}

/// Extract a path from a parsed document.
pub fn extract_from(value: &JsonValue, path: &str) -> (r: Option<String>)
    ensures
        optional_text(r) == extracted(json_content(*value), path@),
{
    let steps: Vec<PathStep> = match parse_path(path) {
        Some(s) => s,
        None => return None,
    };
    match walk(value, steps.as_slice()) {
        Some(leaf) => {
            if json_is_null(leaf) {
                None
            } else {
                match json_as_str(leaf) {
                    Some(s) => Some(s.to_owned()),
                    None => Some(json_to_text(leaf)),
                }
            }
        },
        None => None,
    }
}

/// Extract a Spark JSONPath from a JSON document. Returns `None` for a missing path, a JSON
/// `null` leaf, or invalid JSON.
pub fn extract_json_path(json: &str, path: &str) -> (r: Option<String>)
    ensures
        optional_text(r) == (match json_document(json@) {
            Some(tree) => extracted(tree, path@),
            None => None,
        }),
{
    match json_parse(json) {
        Some(value) => extract_from(&value, path),
        None => None,
    }
}

/// Walking a path in two parts is walking it at once.
pub proof fn law_walks_join(tree: JsonTree, a: Seq<StepModel>, b: Seq<StepModel>)
    ensures
        walked(tree, a + b) == (match walked(tree, a) {
            Some(mid) => walked(mid, b),
            None => None,
        }),
    decreases a.len(),
{
    if a.len() == 0 {
        assert(a + b =~= b);
    } else {
        assert((a + b).drop_first() =~= a.drop_first() + b);
        match stepped(tree, a[0]) {
            Some(next) => law_walks_join(next, a.drop_first(), b),
            None => {},
        }
    }
}

/// A key ends where it did before if what follows begins a step of its own.
proof fn lemma_key_len_joined(a: Seq<char>, q: Seq<char>)
    requires
        begins_a_step(q),
    ensures
        key_len(a + q) == key_len(a),
    decreases a.len(),
{
    if a.len() == 0 {
        assert(a + q =~= q);
    } else {
        assert((a + q)[0] == a[0]);
        assert((a + q).drop_first() =~= a.drop_first() + q);
        if a[0] != '.' && a[0] != '[' {
            lemma_key_len_joined(a.drop_first(), q);
        }
    }
}

proof fn lemma_close_at_joined(a: Seq<char>, q: Seq<char>)
    requires
        close_at(a) is Some,
    ensures
        close_at(a + q) == close_at(a),
    decreases a.len(),
{
    assert((a + q)[0] == a[0]);
    assert((a + q).drop_first() =~= a.drop_first() + q);
    if a[0] != ']' {
        lemma_close_at_joined(a.drop_first(), q);
    }
}

/// Text that continues a path: nothing, or a step of its own.
pub open spec fn begins_a_step(q: Seq<char>) -> bool {
    q.len() == 0 || q[0] == '.' || q[0] == '['
}

/// The steps of a path that is continued: its own, then those of the rest.
proof fn lemma_steps_joined(a: Seq<char>, q: Seq<char>)
    requires
        steps_of(a) is Some,
        begins_a_step(q),
    ensures
        steps_of(a + q) == (match steps_of(q) {
            Some(more) => Some(steps_of(a)->0 + more),
            None => None,
        }),
    decreases a.len(),
{
    let whole = a + q;
    if a.len() == 0 {
        assert(whole =~= q);
        if steps_of(q) is Some {
            assert(Seq::<StepModel>::empty() + steps_of(q)->0 =~= steps_of(q)->0);
        }
    } else if a[0] == '.' {
        let n = key_len(a.skip(1)) as int;
        lemma_key_len(a.skip(1));
        lemma_key_len_joined(a.skip(1), q);
        assert(whole.skip(1) =~= a.skip(1) + q);
        assert(whole.subrange(1, 1 + n) =~= a.subrange(1, 1 + n));
        assert(whole.skip(1 + n) =~= a.skip(1 + n) + q);
        lemma_steps_joined(a.skip(1 + n), q);
        let step = StepModel::Key(a.subrange(1, 1 + n));
        if steps_of(q) is Some {
            assert(seq![step] + (steps_of(a.skip(1 + n))->0 + steps_of(q)->0) =~= seq![step]
                + steps_of(a.skip(1 + n))->0 + steps_of(q)->0);
        }
    } else {
        let n = close_at(a.skip(1))->0 as int;
        lemma_close_at(a.skip(1));
        lemma_close_at_joined(a.skip(1), q);
        assert(whole.skip(1) =~= a.skip(1) + q);
        assert(whole.subrange(1, 1 + n) =~= a.subrange(1, 1 + n));
        assert(whole.skip(n + 2) =~= a.skip(n + 2) + q);
        lemma_steps_joined(a.skip(n + 2), q);
        let step = bracket_step(a.subrange(1, 1 + n))->0;
        if steps_of(q) is Some {
            assert(seq![step] + (steps_of(a.skip(n + 2))->0 + steps_of(q)->0) =~= seq![step]
                + steps_of(a.skip(n + 2))->0 + steps_of(q)->0);
        }
    }
}

/// Extracting in two parts is extracting at once: where a path leads to an object or an array, its
/// text is what the path extracts, and continuing the path extracts what the rest extracts from
/// that text, provided the text parses back to what it was written from.
pub proof fn law_extractions_join(tree: JsonTree, path: Seq<char>, q: Seq<char>, mid: JsonTree)
    requires
        path_steps(path) is Some,
        walked(tree, path_steps(path)->0) == Some(mid),
        mid is Object || mid is Array,
        begins_a_step(q),
    ensures
        extracted(tree, path) == Some(json_compact(mid)),
        json_document(json_compact(mid)) == Some(mid) ==> extracted(tree, path + q) == (
        match json_document(json_compact(mid)) {
            Some(again) => extracted(again, seq!['$'] + q),
            None => None,
        }),
{
    let a = path.skip(1);
    assert((path + q).skip(1) =~= a + q);
    assert((seq!['$'] + q).skip(1) =~= q);
    lemma_steps_joined(a, q);
    if steps_of(q) is Some {
        law_walks_join(tree, steps_of(a)->0, steps_of(q)->0);
    }
}

/// What `GET_JSON_OBJECT` makes of one row: nothing where the document or the path is null.
pub open spec fn row_result(json: Option<String>, path: Option<String>) -> Option<Seq<char>> {
    match (json, path) {
        (Some(j), Some(p)) => match json_document(j@) {
            Some(tree) => extracted(tree, p@),
            None => None,
        },
        _ => None,
    }
}

/// `GET_JSON_OBJECT` over columns of documents and paths, row by row.
pub fn get_json_objects(json: &[Option<String>], paths: &[Option<String>]) -> (r: Vec<
    Option<String>,
>)
    requires
        json@.len() == paths@.len(),
    ensures
        r@.len() == json@.len(),
        forall|i: int|
            0 <= i < r@.len() ==> optional_text(#[trigger] r@[i]) == row_result(
                json@[i],
                paths@[i],
            ),
{
    let mut out: Vec<Option<String>> = Vec::new();
    let mut i: usize = 0;
    while i < json.len()
        invariant
            i <= json@.len() == paths@.len(),
            out@.len() == i,
            forall|k: int|
                0 <= k < i ==> optional_text(#[trigger] out@[k]) == row_result(
                    json@[k],
                    paths@[k],
                ),
        decreases json@.len() - i,
    {
        let value: Option<String> = match (&json[i], &paths[i]) {
            (Some(j), Some(p)) => extract_json_path(j.as_str(), p.as_str()),
            _ => None,
        };
        out.push(value);
        i = i + 1;
    }
    out
}

/// Whether a key can be written behind a dot: it is not empty and holds neither a dot nor an
/// opening bracket.
pub open spec fn is_plain(k: Seq<char>) -> bool {
    k.len() > 0 && forall|i: int| 0 <= i < k.len() ==> (#[trigger] k[i]) != '.' && k[i] != '['
}

/// Whether a text holds no closing bracket.
pub open spec fn stays_open(s: Seq<char>) -> bool {
    forall|i: int| 0 <= i < s.len() ==> (#[trigger] s[i]) != ']'
}

proof fn lemma_key_len_is_the_key(k: Seq<char>, q: Seq<char>)
    requires
        forall|i: int| 0 <= i < k.len() ==> (#[trigger] k[i]) != '.' && k[i] != '[',
        begins_a_step(q),
    ensures
        key_len(k + q) == k.len(),
    decreases k.len(),
{
    let s = k + q;
    if k.len() > 0 {
        let rest = k.drop_first();
        assert(s[0] == k[0]);
        assert(s.drop_first() =~= rest + q);
        assert forall|i: int| 0 <= i < rest.len() implies (#[trigger] rest[i]) != '.' && rest[i]
            != '[' by {
            assert(rest[i] == k[i + 1]);
        }
        lemma_key_len_is_the_key(rest, q);
    } else {
        assert(s =~= q);
    }
}

proof fn lemma_close_is_the_first(inner: Seq<char>, q: Seq<char>)
    requires
        stays_open(inner),
    ensures
        close_at(inner + seq![']'] + q) == Some(inner.len()),
    decreases inner.len(),
{
    let s = inner + seq![']'] + q;
    if inner.len() > 0 {
        let rest = inner.drop_first();
        assert(s[0] == inner[0]);
        assert(s.drop_first() =~= rest + seq![']'] + q);
        assert forall|i: int| 0 <= i < rest.len() implies (#[trigger] rest[i]) != ']' by {
            assert(rest[i] == inner[i + 1]);
        }
        lemma_close_is_the_first(rest, q);
    }
}

proof fn lemma_never_closed(inner: Seq<char>)
    requires
        stays_open(inner),
    ensures
        close_at(inner) is None,
    decreases inner.len(),
{
    if inner.len() > 0 {
        let rest = inner.drop_first();
        assert(inner[0] != ']');
        assert forall|i: int| 0 <= i < rest.len() implies (#[trigger] rest[i]) != ']' by {
            assert(rest[i] == inner[i + 1]);
        }
        lemma_never_closed(rest);
    }
}

/// A dot is followed by a key that reaches to the next dot, the next opening bracket or the end
/// of the path, whatever other characters it holds.
pub proof fn law_dot_keys_reach_to_the_next_step(k: Seq<char>, q: Seq<char>)
    requires
        is_plain(k),
        begins_a_step(q),
    ensures
        steps_of(seq!['.'] + k + q) == (match steps_of(q) {
            Some(more) => Some(seq![StepModel::Key(k)] + more),
            None => None,
        }),
{
    let s = seq!['.'] + k + q;
    let n = k.len() as int;
    assert(s.skip(1) =~= k + q);
    lemma_key_len_is_the_key(k, q);
    assert(s.subrange(1, 1 + n) =~= k);
    assert(s.skip(1 + n) =~= q);
}

/// A bracket reaches to the first closing one; what stands between them is one step.
pub proof fn law_brackets_reach_to_their_close(inner: Seq<char>, q: Seq<char>)
    requires
        stays_open(inner),
    ensures
        steps_of(seq!['['] + inner + seq![']'] + q) == (match (bracket_step(inner), steps_of(q)) {
            (Some(step), Some(more)) => Some(seq![step] + more),
            _ => None,
        }),
{
    let s = seq!['['] + inner + seq![']'] + q;
    let n = inner.len() as int;
    assert(s.skip(1) =~= inner + seq![']'] + q);
    lemma_close_is_the_first(inner, q);
    assert(s.subrange(1, 1 + n) =~= inner);
    assert(s.skip(n + 2) =~= q);
}

/// Between brackets stands a key in single or in double quotes, or a number; white space around
/// it does not count.
pub proof fn law_brackets_hold_a_quoted_key_or_a_number(
    before: Seq<char>,
    after: Seq<char>,
    k: Seq<char>,
    i: usize,
)
    requires
        text::all_white(before),
        text::all_white(after),
    ensures
        bracket_step(before + (seq!['\''] + k + seq!['\'']) + after) == Some(StepModel::Key(k)),
        bracket_step(before + (seq!['"'] + k + seq!['"']) + after) == Some(StepModel::Key(k)),
        bracket_step(before + text::decimal(i as nat) + after) == Some(StepModel::Index(i)),
{
    let single = seq!['\''] + k + seq!['\''];
    let double = seq!['"'] + k + seq!['"'];
    let number = text::decimal(i as nat);
    assert(single.last() == '\'');
    assert(double.last() == '"');
    text::law_trimming_takes_the_white_ends(before, single, after);
    text::law_trimming_takes_the_white_ends(before, double, after);
    assert(single.subrange(1, single.len() - 1) =~= k);
    assert(double.subrange(1, double.len() - 1) =~= k);
    lemma_decimal_ends(i as nat);
    text::law_trimming_takes_the_white_ends(before, number, after);
    text::law_decimal_reads_back(i as nat);
}

proof fn lemma_decimal_ends(n: nat)
    ensures
        text::decimal(n).len() > 0,
        stays_open(text::decimal(n)),
        !text::is_white(text::decimal(n)[0]),
        !text::is_white(text::decimal(n).last()),
        !quoted_by(text::decimal(n), '\''),
        !quoted_by(text::decimal(n), '"'),
    decreases n,
{
    if n >= 10 {
        lemma_decimal_ends(n / 10);
        let s = text::decimal(n);
        let high = text::decimal(n / 10);
        assert(s[0] == high[0]);
        assert forall|i: int| 0 <= i < s.len() implies (#[trigger] s[i]) != ']' by {
            if i < high.len() {
                assert(s[i] == high[i]);
            }
        }
    }
}

/// A step between brackets is nothing else: a key stands in quotes there, and an index is a
/// number that the digits spell.
pub proof fn law_bracket_steps_are_written_out(inner: Seq<char>)
    ensures
        match bracket_step(inner) {
            Some(StepModel::Key(k)) => text::trimmed(inner) == seq!['\''] + k + seq!['\'']
                || text::trimmed(inner) == seq!['"'] + k + seq!['"'],
            Some(StepModel::Index(i)) => text::unsigned(text::trimmed(inner)) == Some(i),
            None => text::unsigned(text::trimmed(inner)) is None,
        },
{
    let s = text::trimmed(inner);
    if quoted_by(s, '\'') {
        assert(s =~= seq!['\''] + s.subrange(1, s.len() - 1) + seq!['\'']);
    } else if quoted_by(s, '"') {
        assert(s =~= seq!['"'] + s.subrange(1, s.len() - 1) + seq!['"']);
    }
}

/// What is no path: one that does not begin with `$`, a step that begins with neither a dot nor
/// a bracket, a dot without a key, and a bracket that is never closed.
pub proof fn law_malformed_paths_are_refused(path: Seq<char>, q: Seq<char>, inner: Seq<char>)
    ensures
        path.len() == 0 || path[0] != '$' ==> path_steps(path) is None,
        !begins_a_step(q) ==> steps_of(q) is None,
        begins_a_step(q) ==> steps_of(seq!['.'] + q) is None,
        stays_open(inner) ==> steps_of(seq!['['] + inner) is None,
{
    assert((seq!['.'] + q).skip(1) =~= q);
    assert((seq!['['] + inner).skip(1) =~= inner);
    if stays_open(inner) {
        lemma_never_closed(inner);
    }
}

/// A step written out: a plain key behind a dot, another key in brackets and quotes, an index in
/// brackets.
pub open spec fn written_step(step: StepModel) -> Seq<char> {
    match step {
        StepModel::Key(k) => if is_plain(k) {
            seq!['.'] + k
        } else {
            seq!['['] + (seq!['\''] + k + seq!['\'']) + seq![']']
        },
        StepModel::Index(i) => seq!['['] + text::decimal(i as nat) + seq![']'],
    }
}

/// Steps written out one after another.
pub open spec fn written(steps: Seq<StepModel>) -> Seq<char>
    decreases steps.len(),
{
    if steps.len() == 0 {
        Seq::empty()
    } else {
        written_step(steps[0]) + written(steps.drop_first())
    }
}

/// Whether a step can be written: a key that needs brackets holds no closing one.
pub open spec fn writable(step: StepModel) -> bool {
    match step {
        StepModel::Key(k) => is_plain(k) || stays_open(k),
        StepModel::Index(_) => true,
    }
}

/// Steps that are written out as a path and parsed are the steps again.
pub proof fn law_written_paths_parse_back(steps: Seq<StepModel>)
    requires
        forall|i: int| 0 <= i < steps.len() ==> writable(#[trigger] steps[i]),
    ensures
        path_steps(seq!['$'] + written(steps)) == Some(steps),
{
    lemma_written_steps(steps);
    assert((seq!['$'] + written(steps)).skip(1) =~= written(steps));
}

proof fn lemma_written_steps(steps: Seq<StepModel>)
    requires
        forall|i: int| 0 <= i < steps.len() ==> writable(#[trigger] steps[i]),
    ensures
        steps_of(written(steps)) == Some(steps),
        begins_a_step(written(steps)),
    decreases steps.len(),
{
    if steps.len() > 0 {
        let rest = steps.drop_first();
        assert forall|i: int| 0 <= i < rest.len() implies writable(#[trigger] rest[i]) by {
            assert(rest[i] == steps[i + 1]);
        }
        lemma_written_steps(rest);
        let q = written(rest);
        let none = Seq::<char>::empty();
        assert(writable(steps[0]));
        assert(seq![steps[0]] + rest =~= steps);
        match steps[0] {
            StepModel::Key(k) => {
                if is_plain(k) {
                    law_dot_keys_reach_to_the_next_step(k, q);
                } else {
                    let inner = seq!['\''] + k + seq!['\''];
                    assert forall|i: int| 0 <= i < inner.len() implies (#[trigger] inner[i])
                        != ']' by {
                        if 0 < i <= k.len() {
                            assert(inner[i] == k[i - 1]);
                        }
                    }
                    law_brackets_hold_a_quoted_key_or_a_number(none, none, k, 0);
                    assert(none + inner + none =~= inner);
                    law_brackets_reach_to_their_close(inner, q);
                }
            },
            StepModel::Index(i) => {
                let inner = text::decimal(i as nat);
                lemma_decimal_ends(i as nat);
                law_brackets_hold_a_quoted_key_or_a_number(none, none, none, i);
                assert(none + inner + none =~= inner);
                law_brackets_reach_to_their_close(inner, q);
            },
        }
    } else {
        assert(steps =~= Seq::<StepModel>::empty());
    }
}

/// For every key that is not empty and holds neither a dot nor an opening bracket, the path of a
/// dot and the key is that single step. It extracts the member of that name: a string as its
/// text, `null` or a missing member as nothing, anything else as compact JSON.
pub proof fn law_plain_keys_extract_members(k: Seq<char>, ms: Seq<(Seq<char>, JsonTree)>)
    requires
        is_plain(k),
    ensures
        path_steps(seq!['$', '.'] + k) == Some(seq![StepModel::Key(k)]),
        extracted(JsonTree::Object(ms), seq!['$', '.'] + k) == (match member(ms, k) {
            None => None,
            Some(JsonTree::Null) => None,
            Some(JsonTree::Text(s)) => Some(s),
            Some(other) => Some(json_compact(other)),
        }),
{
    let none = Seq::<char>::empty();
    let path = seq!['$', '.'] + k;
    law_dot_keys_reach_to_the_next_step(k, none);
    assert(path.skip(1) =~= seq!['.'] + k + none);
    let steps = seq![StepModel::Key(k)];
    assert(seq![StepModel::Key(k)] + Seq::<StepModel>::empty() =~= steps);
    assert(steps.drop_first() =~= Seq::<StepModel>::empty());
    lemma_single_walk(JsonTree::Object(ms), StepModel::Key(k));
}

proof fn lemma_single_walk(tree: JsonTree, step: StepModel)
    ensures
        walked(tree, seq![step]) == stepped(tree, step),
{
    assert(seq![step].drop_first() =~= Seq::<StepModel>::empty());
    match stepped(tree, step) {
        Some(next) => {
            assert(walked(next, Seq::<StepModel>::empty()) == Some(next));
        },
        None => {},
    }
}

/// A number in brackets extracts the element at that position, counted from 0; there is nothing
/// behind the last.
pub proof fn law_indexes_extract_elements(i: usize, items: Seq<JsonTree>)
    ensures
        extracted(JsonTree::Array(items), seq!['$', '['] + text::decimal(i as nat) + seq![']'])
            == (if i < items.len() {
            match items[i as int] {
                JsonTree::Null => None,
                JsonTree::Text(s) => Some(s),
                other => Some(json_compact(other)),
            }
        } else {
            None
        }),
{
    let step = StepModel::Index(i);
    let path = seq!['$', '['] + text::decimal(i as nat) + seq![']'];
    let steps = seq![step];
    law_written_paths_parse_back(steps);
    assert(steps.drop_first() =~= Seq::<StepModel>::empty());
    assert(written(steps.drop_first()) =~= Seq::<char>::empty());
    assert(written(steps) =~= written_step(step));
    assert(path =~= seq!['$'] + written(steps));
    lemma_single_walk(JsonTree::Array(items), step);
}

/// A step fits one kind of value: a key walks into an object, an index into an array, and
/// nothing walks into a leaf. The empty path is the whole document.
pub proof fn law_steps_walk_into_their_kind(tree: JsonTree, k: Seq<char>, i: usize)
    ensures
        !(tree is Object) ==> stepped(tree, StepModel::Key(k)) is None,
        !(tree is Array) ==> stepped(tree, StepModel::Index(i)) is None,
        walked(tree, seq![StepModel::Key(k)]) == stepped(tree, StepModel::Key(k)),
        path_steps(seq!['$']) == Some(Seq::<StepModel>::empty()),
        walked(tree, Seq::<StepModel>::empty()) == Some(tree),
{
    lemma_single_walk(tree, StepModel::Key(k));
    assert(seq!['$'].skip(1) =~= Seq::<char>::empty());
}

/// A member is looked up by its whole key: the first with that key, and none where no key is
/// equal to it.
pub proof fn law_members_are_found_by_key(
    ms: Seq<(Seq<char>, JsonTree)>,
    key: Seq<char>,
    i: int,
)
    requires
        0 <= i <= ms.len(),
        forall|j: int| 0 <= j < i ==> (#[trigger] ms[j]).0 != key,
        i < ms.len() ==> ms[i].0 == key,
    ensures
        member(ms, key) == (if i < ms.len() {
            Some(ms[i].1)
        } else {
            None
        }),
    decreases ms.len(),
{
    if i > 0 {
        assert(ms[0].0 != key);
        let rest = ms.drop_first();
        assert forall|j: int| 0 <= j < i - 1 implies (#[trigger] rest[j]).0 != key by {
            assert(rest[j] == ms[j + 1]);
        }
        law_members_are_found_by_key(rest, key, i - 1);
    }
}

/// A row with a null document or a null path gives a null, and so does a document that does not
/// parse; any other row gives what its path extracts from its document.
pub proof fn law_null_inputs_extract_nothing(json: Option<String>, path: Option<String>)
    ensures
        json is None || path is None ==> row_result(json, path) is None,
        json is Some && json_document(json->0@) is None ==> row_result(json, path) is None,
        json is Some && path is Some && json_document(json->0@) is Some ==> row_result(json, path)
            == extracted(json_document(json->0@)->0, path->0@),
{
}

/// What [`extract_json_path`] gives for a plain key: the text of the member of that name where it
/// is a string, and nothing where the document does not parse, is no object, or has no such
/// member.
pub proof fn law_plain_keys_are_extracted(
    json: &str,
    path: &str,
    r: Option<String>,
    k: Seq<char>,
    ms: Seq<(Seq<char>, JsonTree)>,
)
    requires
        call_ensures(extract_json_path, (json, path), r),
        is_plain(k),
        path@ == seq!['$', '.'] + k,
    ensures
        json_document(json@) is None ==> r is None,
        json_document(json@) matches Some(tree) ==> (!(tree is Object) ==> r is None),
        json_document(json@) == Some(JsonTree::Object(ms)) ==> (match member(ms, k) {
            Some(JsonTree::Text(s)) => r matches Some(t) && t@ == s,
            Some(JsonTree::Null) => r is None,
            Some(other) => r matches Some(t) && t@ == json_compact(other),
            None => r is None,
        }),
{
    law_plain_keys_extract_members(k, ms);
    if let Some(tree) = json_document(json@) {
        lemma_single_walk(tree, StepModel::Key(k));
    }
}

/// [`parse_path`] gives the steps back that a path was written of.
pub proof fn law_parsed_paths_are_the_written_steps(
    path: &str,
    r: Option<Vec<PathStep>>,
    steps: Seq<StepModel>,
)
    requires
        call_ensures(parse_path, (path,), r),
        path@ == seq!['$'] + written(steps),
        forall|i: int| 0 <= i < steps.len() ==> writable(#[trigger] steps[i]),
    ensures
        r matches Some(out) && step_models(out@) == steps,
{
    law_written_paths_parse_back(steps);
}

/// A path extracts the leaf that its steps lead to: a string as its text, `null` as nothing,
/// anything else as compact JSON. A path that is none, or whose steps lead nowhere, extracts
/// nothing.
pub proof fn law_paths_extract_the_leaf(
    tree: JsonTree,
    steps: Seq<StepModel>,
    path: Seq<char>,
)
    requires
        forall|i: int| 0 <= i < steps.len() ==> writable(#[trigger] steps[i]),
    ensures
        extracted(tree, seq!['$'] + written(steps)) == (match walked(tree, steps) {
            None => None,
            Some(JsonTree::Null) => None,
            Some(JsonTree::Text(s)) => Some(s),
            Some(leaf) => Some(json_compact(leaf)),
        }),
        path_steps(path) is None ==> extracted(tree, path) is None,
{
    law_written_paths_parse_back(steps);
}

} // verus!
