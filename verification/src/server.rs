//! The rules of the HTTP service: where data files lie, how the file planner is asked
//! and what its replies mean, which columns a caller sees, and which status an error
//! gets.
use crate::json_path;
use crate::json_path::JsonTree;
use crate::session::ColumnMeta;
use crate::sidecar::KarmaParquetError;
use crate::text;
use object_store::path::Path as ObjPath;
use serde_json::Value as JsonValue;
use vstd::hash_map::StringHashMap;
use vstd::prelude::*;

verus! {

/// A key of an object store.
#[verifier::external_type_specification]
#[verifier::external_body]
pub struct ExObjPath(ObjPath);

/// What a path reads as, its segments separated by `/`.
pub uninterp spec fn path_text(path: ObjPath) -> Seq<char>;

/// What the path of a key reads as.
pub uninterp spec fn path_of_key(key: Seq<char>) -> Seq<char>;

/// A character that stands in a path as it is.
pub open spec fn plain_char(c: char) -> bool {
    'a' <= c <= 'z' || 'A' <= c <= 'Z' || '0' <= c <= '9' || c == '-' || c == '_' || c == '=' || c
        == '.' || c == '/'
}

/// A key of plain characters whose segments are there and begin with no dot.
pub open spec fn plain_key(key: Seq<char>) -> bool {
    &&& forall|i: int| 0 <= i < key.len() ==> plain_char(#[trigger] key[i])
    &&& key.len() > 0 ==> key[0] != '/' && key[0] != '.' && key.last() != '/'
    &&& forall|i: int|
        0 < i < key.len() && (#[trigger] key[i] == '/' || key[i] == '.') ==> key[i - 1] != '/'
}

/// `object_store::path::Path::from` on a string: the path of a key, its segments percent-encoded
/// where they need to be and empty ones left out. What it reads as depends on the key alone; the
/// encoding is left to its name, but a key that needs none reads as it is.
#[verifier::external_body]
fn object_path(key: &str) -> (r: ObjPath)
    ensures
        path_text(r) == path_of_key(key@),
        plain_key(key@) ==> path_text(r) == key@,
{
    ObjPath::from(key)
}

/// A text in lower case.
pub uninterp spec fn lower_case(s: Seq<char>) -> Seq<char>;

/// `str::to_lowercase` of the standard library: the Unicode lower case of a text, which depends on
/// the text alone and is left to its name.
#[verifier::external_body]
fn to_lower(s: &str) -> (r: String)
    ensures
        r@ == lower_case(s@),
{
    s.to_lowercase()
}

/// A location without its scheme, `s3://` or `s3a://`.
pub open spec fn without_scheme(uri: Seq<char>) -> Seq<char> {
    if text::starts_with(uri, "s3://"@) {
        uri.skip("s3://"@.len() as int)
    } else if text::starts_with(uri, "s3a://"@) {
        uri.skip("s3a://"@.len() as int)
    } else {
        uri
    }
}

/// The text after the first occurrence of a character; none if there is none.
pub open spec fn after_first(s: Seq<char>, c: char) -> Option<Seq<char>>
    decreases s.len(),
{
    if s.len() == 0 {
        None
    } else if s[0] == c {
        Some(s.drop_first())
    } else {
        after_first(s.drop_first(), c)
    }
}

/// The key of a data file in its bucket: what follows the bucket's name.
pub open spec fn key_of(uri: Seq<char>) -> Option<Seq<char>> {
    after_first(without_scheme(uri), '/')
}

/// The key of a data file in its bucket.
pub fn object_key(uri: &str) -> (r: Option<String>)
    ensures
        match r {
            Some(key) => key_of(uri@) == Some(key@),
            None => key_of(uri@) is None,
        },
{
    let chars: Vec<char> = text::chars_of(uri);
    let cs: &[char] = chars.as_slice();
    let s3: Vec<char> = text::chars_of("s3://");
    let s3a: Vec<char> = text::chars_of("s3a://");
    proof {
        reveal_strlit("s3://");
        reveal_strlit("s3a://");
    }
    let start: usize = if text::has_prefix(cs, s3.as_slice()) {
        5
    } else if text::has_prefix(cs, s3a.as_slice()) {
        6
    } else {
        0
    };
    let ghost rest = without_scheme(uri@);
    proof {
        assert(cs@.skip(0) =~= cs@);
        assert(rest == cs@.skip(start as int));
    }
    let mut i: usize = start;
    while i < cs.len()
        invariant
            i <= cs@.len(),
            rest == without_scheme(uri@),
            after_first(rest, '/') == after_first(cs@.skip(i as int), '/'),
        decreases cs@.len() - i,
    {
        proof {
            assert(cs@.skip(i as int).drop_first() =~= cs@.skip(i + 1));
        }
        if cs[i] == '/' {
            proof {
                assert(cs@.skip(i + 1) =~= cs@.subrange(i + 1, cs@.len() as int));
            }
            return Some(text::text_between(cs, i + 1, cs.len()));
        }
        i = i + 1;
    }
    None
}

/// A path is that of a location: the path of its key, which reads as the key where that needs no
/// encoding.
pub open spec fn leads_to(uri: Seq<char>, path: ObjPath) -> bool {
    key_of(uri) matches Some(key) && path_text(path) == path_of_key(key) && (plain_key(key)
        ==> path_text(path) == key)
}

/// What is said of a location without a key.
pub open spec fn no_key_message(uri: Seq<char>) -> Seq<char> {
    "cannot parse object key from "@ + uri
}

/// Turn an Iceberg data-file location (`s3://bucket/key`) into the object-store key (`key`): the
/// store is already scoped to the bucket.
pub fn uri_to_object_path(uri: &str) -> (r: Result<ObjPath, String>)
    ensures
        match r {
            Ok(path) => leads_to(uri@, path),
            Err(e) => key_of(uri@) is None && e@ == no_key_message(uri@),
        },
{
    match object_key(uri) {
        Some(key) => Ok(object_path(key.as_str())),
        None => {
            let mut e: String = "cannot parse object key from ".to_owned();
            e.append(uri);
            Err(e)
        },
    }
}

/// The paths of a snapshot's files, in order; the first location without a key fails them all.
pub fn object_paths(uris: &[String]) -> (r: Result<Vec<ObjPath>, String>)
    ensures
        match r {
            Ok(paths) => paths@.len() == uris@.len() && forall|i: int|
                0 <= i < uris@.len() ==> leads_to((#[trigger] uris@[i])@, paths@[i]),
            Err(e) => exists|i: int|
                0 <= i < uris@.len() && key_of((#[trigger] uris@[i])@) is None && e@
                    == no_key_message(uris@[i]@) && forall|k: int|
                    0 <= k < i ==> key_of((#[trigger] uris@[k])@) is Some,
        },
{
    let mut out: Vec<ObjPath> = Vec::new();
    let mut i: usize = 0;
    while i < uris.len()
        invariant
            i <= uris@.len(),
            out@.len() == i,
            forall|k: int|
                0 <= k < i ==> leads_to((#[trigger] uris@[k])@, out@[k]),
        decreases uris@.len() - i,
    {
        match uri_to_object_path(uris[i].as_str()) {
            Ok(p) => out.push(p),
            Err(e) => return Err(e),
        }
        i = i + 1;
    }
    Ok(out)
}

/// The files of a planned snapshot: none at all for a dataset without files, which is then not
/// there.
pub fn snapshot_files(uris: &[String]) -> (r: Option<Result<Vec<ObjPath>, String>>)
    ensures
        r is None <==> uris@.len() == 0,
        r matches Some(Ok(paths)) ==> paths@.len() == uris@.len() && forall|i: int|
            0 <= i < uris@.len() ==> leads_to((#[trigger] uris@[i])@, paths@[i]),
        r matches Some(Err(e)) ==> exists|i: int|
            0 <= i < uris@.len() && key_of((#[trigger] uris@[i])@) is None && e@ == no_key_message(
                uris@[i]@,
            ) && forall|k: int| 0 <= k < i ==> key_of((#[trigger] uris@[k])@) is Some,
{
    if uris.len() == 0 {
        None
    } else {
        Some(object_paths(uris))
    }
}

/// Connection config for an S3-compatible object store.
#[derive(Clone, Debug, PartialEq, Eq)]
pub struct S3Config {
    /// e.g. `https://<account>.r2.cloudflarestorage.com`.
    pub endpoint: String,
    pub bucket: String,
    pub access_key_id: String,
    pub secret_access_key: String,
    /// `"auto"` where the store picks it.
    pub region: String,
}

/// A text, or a default where it is not set.
pub open spec fn or_default(v: Option<String>, default: Seq<char>) -> Seq<char> {
    match v {
        Some(s) => s@,
        None => default,
    }
}

fn text_or(v: Option<String>, default: &str) -> (r: String)
    ensures
        r@ == or_default(v, default@),
{
    match v {
        Some(s) => s,
        None => default.to_owned(),
    }
}

/// The error says that a variable is missing.
pub open spec fn says_missing(e: KarmaParquetError, name: Seq<char>) -> bool {
    match e {
        KarmaParquetError::Config(s) => s@ == "missing env "@ + name,
        _ => false,
    }
}

fn missing(name: &str) -> (r: KarmaParquetError)
    ensures
        says_missing(r, name@),
{
    let mut s: String = "missing env ".to_owned();
    s.append(name);
    KarmaParquetError::Config(s)
}

impl S3Config {
    /// The config from the values of the `LAKEHOUSE_S3_*` variables. The bucket is `lakehouse`
    /// and the region `auto` where they are not set; of the others the first that is not set is
    /// the error.
    pub fn from_vars(
        endpoint: Option<String>,
        bucket: Option<String>,
        access_key_id: Option<String>,
        secret_access_key: Option<String>,
        region: Option<String>,
    ) -> (r: Result<Self, KarmaParquetError>)
        ensures
            r is Ok <==> endpoint is Some && access_key_id is Some && secret_access_key is Some,
            r matches Ok(c) ==> Some(c.endpoint) == endpoint && c.bucket@ == or_default(
                bucket,
                "lakehouse"@,
            ) && Some(c.access_key_id) == access_key_id && Some(c.secret_access_key)
                == secret_access_key && c.region@ == or_default(region, "auto"@),
            r matches Err(e) ==> says_missing(
                e,
                if endpoint is None {
                    "LAKEHOUSE_S3_ENDPOINT"@
                } else if access_key_id is None {
                    "LAKEHOUSE_S3_ACCESS_KEY_ID"@
                } else {
                    "LAKEHOUSE_S3_SECRET_ACCESS_KEY"@
                },
            ),
    {
        let endpoint: String = match endpoint {
            Some(s) => s,
            None => return Err(missing("LAKEHOUSE_S3_ENDPOINT")),
        };
        let access_key_id: String = match access_key_id {
            Some(s) => s,
            None => return Err(missing("LAKEHOUSE_S3_ACCESS_KEY_ID")),
        };
        let secret_access_key: String = match secret_access_key {
            Some(s) => s,
            None => return Err(missing("LAKEHOUSE_S3_SECRET_ACCESS_KEY")),
        };
        Ok(
            Self {
                endpoint,
                bucket: text_or(bucket, "lakehouse"),
                access_key_id,
                secret_access_key,
                region: text_or(region, "auto"),
            },
        )
    }
}

/// The address to listen on: the one set, else all interfaces on the port set, else on 8088.
pub open spec fn listen_address(bind: Option<String>, port: Option<String>) -> Seq<char> {
    match (bind, port) {
        (Some(b), _) => b@,
        (None, Some(p)) => "0.0.0.0:"@ + p@,
        (None, None) => "0.0.0.0:8088"@,
    }
}

pub fn bind_address(bind: Option<String>, port: Option<String>) -> (r: String)
    ensures
        r@ == listen_address(bind, port),
{
    match bind {
        Some(b) => b,
        None => match port {
            Some(p) => {
                let mut out: String = "0.0.0.0:".to_owned();
                out.append(p.as_str());
                out
            },
            None => "0.0.0.0:8088".to_owned(),
        },
    }
}

/// A setting without the white space and the quotes that pasting it may have left around it.
pub open spec fn cleaned(s: Seq<char>) -> Seq<char> {
    text::strip_end(text::strip_start(text::trimmed(s), '"'), '"')
}

/// Where the file planner is, and the token it asks for.
#[derive(Clone, Debug, PartialEq, Eq)]
pub struct MlRunnerClient {
    pub base: String,
    pub token: String,
}

impl MlRunnerClient {
    /// Both settings are cleaned of white space and quotes around them; the base loses its
    /// trailing slashes.
    pub fn new(base: &str, token: &str) -> (r: Self)
        ensures
            r.base@ == text::strip_end(cleaned(base@), '/'),
            r.token@ == cleaned(token@),
    {
        let bs: Vec<char> = text::chars_of(base);
        let (a, b) = clean_range(bs.as_slice());
        let end: usize = text::strip_end_range(bs.as_slice(), a, b, '/');
        let ts: Vec<char> = text::chars_of(token);
        let (c, d) = clean_range(ts.as_slice());
        Self {
            base: text::text_between(bs.as_slice(), a, end),
            token: text::text_between(ts.as_slice(), c, d),
        }
    }

    /// The URL that plans a dataset's files.
    pub fn plan_files_url(&self) -> (r: String)
        ensures
            r@ == self.base@ + "/lakehouse/plan-files"@,
    {
        let mut out: String = self.base.clone();
        out.append("/lakehouse/plan-files");
        out
    }
}

fn clean_range(cs: &[char]) -> (r: (usize, usize))
    ensures
        r.0 <= r.1 <= cs@.len(),
        cs@.subrange(r.0 as int, r.1 as int) == cleaned(cs@),
{
    proof {
        assert(cs@.subrange(0, cs@.len() as int) =~= cs@);
    }
    let (a, b) = text::trim_range(cs, 0, cs.len());
    let a: usize = text::strip_start_range(cs, a, b, '"');
    let b: usize = text::strip_end_range(cs, a, b, '"');
    (a, b)
}

/// What became of asking the file planner.
#[derive(Clone, Debug, PartialEq, Eq)]
pub enum PlanReply {
    /// The request could not be sent: the error, and the causes under it.
    Failed { error: String, causes: Vec<String> },
    /// The planner answered with a status that is no success.
    Refused { status: String, body: String },
    /// The planner's answer is not the JSON that it should be.
    Unreadable { error: String },
    /// The data files of the current snapshot.
    Files(Vec<String>),
}

/// The causes of an error from `i` on, each after a bar.
pub open spec fn causes_text(causes: Seq<String>, i: int) -> Seq<char>
    decreases causes.len() - i,
{
    if 0 <= i < causes.len() {
        " | "@ + causes[i]@ + causes_text(causes, i + 1)
    } else {
        Seq::empty()
    }
}

/// The first 400 characters of a text.
pub open spec fn excerpt(s: Seq<char>) -> Seq<char> {
    if s.len() <= 400 {
        s
    } else {
        s.take(400)
    }
}

/// What is said of a reply without files.
pub open spec fn reply_error(url: Seq<char>, reply: PlanReply) -> Option<Seq<char>> {
    match reply {
        PlanReply::Failed { error, causes } => Some(
            "plan-files POST "@ + url + " failed: "@ + error@ + causes_text(causes@, 0),
        ),
        PlanReply::Refused { status, body } => Some(
            "plan-files "@ + status@ + ": "@ + excerpt(body@),
        ),
        PlanReply::Unreadable { error } => Some("plan-files bad json: "@ + error@),
        PlanReply::Files(_) => None,
    }
}

/// The planned files, or what went wrong in words.
pub fn planned_files(url: &str, reply: PlanReply) -> (r: Result<Vec<String>, String>)
    ensures
        match r {
            Ok(files) => reply == PlanReply::Files(files),
            Err(e) => reply_error(url@, reply) == Some(e@),
        },
{
    match reply {
        PlanReply::Failed { error, causes } => {
            let mut msg: String = "plan-files POST ".to_owned();
            msg.append(url);
            msg.append(" failed: ");
            msg.append(error.as_str());
            let ghost all = msg@ + causes_text(causes@, 0);
            let mut i: usize = 0;
            while i < causes.len()
                invariant
                    i <= causes@.len(),
                    msg@ + causes_text(causes@, i as int) == all,
                decreases causes@.len() - i,
            {
                let ghost before = msg@;
                msg.append(" | ");
                msg.append(causes[i].as_str());
                proof {
                    assert(msg@ + causes_text(causes@, i + 1) =~= before + causes_text(
                        causes@,
                        i as int,
                    ));
                }
                i = i + 1;
            }
            proof {
                assert(msg@ =~= msg@ + causes_text(causes@, i as int));
            }
            Err(msg)
        },
        PlanReply::Refused { status, body } => {
            let cs: Vec<char> = text::chars_of(body.as_str());
            let n: usize = if cs.len() <= 400 {
                cs.len()
            } else {
                400
            };
            let start: String = text::text_between(cs.as_slice(), 0, n);
            let mut msg: String = "plan-files ".to_owned();
            msg.append(status.as_str());
            msg.append(": ");
            msg.append(start.as_str());
            proof {
                assert(cs@.subrange(0, n as int) =~= excerpt(body@));
            }
            Err(msg)
        },
        PlanReply::Unreadable { error } => {
            let mut msg: String = "plan-files bad json: ".to_owned();
            msg.append(error.as_str());
            Err(msg)
        },
        PlanReply::Files(files) => Ok(files),
    }
}

/// One referenced table's coordinate, as a request sends it.
#[derive(Clone, Debug, PartialEq, Eq)]
pub struct TableRef {
    pub dataset_id: String,
    pub namespace: String,
}

impl TableRef {
    /// A coordinate whose namespace, where it is not given, is `datasets`.
    pub fn new(dataset_id: String, namespace: Option<String>) -> (r: Self)
        ensures
            r.dataset_id == dataset_id,
            r.namespace@ == or_default(namespace, "datasets"@),
    {
        Self { dataset_id, namespace: text_or(namespace, "datasets") }
    }
}

/// The tables that a request may read, by lower-case name. A name that is not among them does
/// not resolve.
pub struct RequestTables {
    tables: StringHashMap<TableRef>,
}

/// The tables of the pairs before `i`, by lower-case name; a later pair takes the place of an
/// earlier one.
pub open spec fn lowered(pairs: Seq<(String, TableRef)>, i: int) -> Map<Seq<char>, TableRef>
    decreases i,
{
    if 0 < i <= pairs.len() {
        lowered(pairs, i - 1).insert(lower_case(pairs[i - 1].0@), pairs[i - 1].1)
    } else {
        Map::empty()
    }
}

/// The text after the last dot, or all of it.
pub open spec fn last_part(s: Seq<char>) -> Seq<char>
    decreases s.len(),
{
    if s.len() == 0 || s.last() == '.' {
        Seq::empty()
    } else {
        last_part(s.drop_last()).push(s.last())
    }
}

/// The part of a full name that names the table.
pub fn table_leaf(fqn: &str) -> (r: String)
    ensures
        r@ == last_part(fqn@),
{
    let cs: Vec<char> = text::chars_of(fqn);
    let mut i: usize = cs.len();
    proof {
        assert(cs@.take(i as int) =~= cs@);
        assert(last_part(cs@) =~= last_part(cs@.take(i as int)) + cs@.skip(i as int));
    }
    while i > 0 && cs[i - 1] != '.'
        invariant
            i <= cs@.len(),
            last_part(cs@) == last_part(cs@.take(i as int)) + cs@.skip(i as int),
        decreases i,
    {
        proof {
            let t = cs@.take(i as int);
            assert(t.drop_last() =~= cs@.take(i - 1));
            assert(last_part(t) + cs@.skip(i as int) =~= last_part(cs@.take(i - 1)) + cs@.skip(
                i - 1,
            ));
        }
        i = i - 1;
    }
    proof {
        assert(cs@.skip(i as int) =~= cs@.subrange(i as int, cs@.len() as int));
        assert(last_part(cs@.take(i as int)) =~= Seq::<char>::empty());
        assert(last_part(cs@) =~= cs@.skip(i as int));
    }
    text::text_between(cs.as_slice(), i, cs.len())
}

impl View for RequestTables {
    type V = Map<Seq<char>, TableRef>;

    closed spec fn view(&self) -> Map<Seq<char>, TableRef> {
        self.tables@
    }
}

impl RequestTables {
    /// The tables of a request, under their names in lower case.
    pub fn new(pairs: Vec<(String, TableRef)>) -> (r: Self)
        ensures
            r@ == lowered(pairs@, pairs@.len() as int),
    {
        let mut out = RequestTables { tables: StringHashMap::new() };
        let mut i: usize = 0;
        while i < pairs.len()
            invariant
                i <= pairs@.len(),
                out@ == lowered(pairs@, i as int),
            decreases pairs@.len() - i,
        {
            let t: &TableRef = &pairs[i].1;
            let copy = TableRef {
                dataset_id: t.dataset_id.clone(),
                namespace: t.namespace.clone(),
            };
            out.tables.insert(to_lower(pairs[i].0.as_str()), copy);
            i = i + 1;
        }
        out
    }

    /// The coordinate of a table, by its full name: the last part, in lower case, is looked up.
    pub fn lookup(&self, fqn: &str) -> (r: Option<&TableRef>)
        ensures
            match r {
                Some(t) => self@.contains_key(lower_case(last_part(fqn@))) && *t
                    == self@[lower_case(last_part(fqn@))],
                None => !self@.contains_key(lower_case(last_part(fqn@))),
            },
    {
        let leaf: String = to_lower(table_leaf(fqn).as_str());
        self.tables.get(leaf.as_str())
    }
}

/// The identity columns that are stamped on every row and hidden from the caller.
pub open spec fn reserved(name: Seq<char>) -> bool {
    name == "__row_index"@ || name == "__row_id"@ || name == "__created_at"@
}

fn is_reserved(name: &String) -> (r: bool)
    ensures
        r == reserved(name@),
{
    *name == "__row_index".to_owned() || *name == "__row_id".to_owned() || *name
        == "__created_at".to_owned()
}

/// What a list of columns says: names and types.
pub open spec fn column_words(cs: Seq<ColumnMeta>) -> Seq<(Seq<char>, Seq<char>)> {
    cs.map_values(|c: ColumnMeta| (c.name@, c.data_type@))
}

/// The columns from `i` on that a caller sees.
pub open spec fn visible(cs: Seq<ColumnMeta>, i: int) -> Seq<(Seq<char>, Seq<char>)>
    decreases cs.len() - i,
{
    if 0 <= i < cs.len() {
        let rest = visible(cs, i + 1);
        if reserved(cs[i].name@) {
            rest
        } else {
            seq![(cs[i].name@, cs[i].data_type@)] + rest
        }
    } else {
        Seq::empty()
    }
}

/// The columns of a result that a caller sees, in order.
pub fn visible_columns(columns: &[ColumnMeta]) -> (r: Vec<ColumnMeta>)
    ensures
        column_words(r@) == visible(columns@, 0),
{
    let mut out: Vec<ColumnMeta> = Vec::new();
    let mut i: usize = 0;
    proof {
        assert(column_words(out@) + visible(columns@, 0) =~= visible(columns@, 0));
    }
    while i < columns.len()
        invariant
            i <= columns@.len(),
            column_words(out@) + visible(columns@, i as int) == visible(columns@, 0),
        decreases columns@.len() - i,
    {
        let ghost before = column_words(out@);
        let c: &ColumnMeta = &columns[i];
        if !is_reserved(&c.name) {
            let ghost items = out@;
            out.push(ColumnMeta { name: c.name.clone(), data_type: c.data_type.clone() });
            proof {
                assert(column_words(out@) =~= column_words(items).push((c.name@, c.data_type@)));
            }
        }
        proof {
            assert(column_words(out@) + visible(columns@, i + 1) =~= before + visible(
                columns@,
                i as int,
            ));
        }
        i = i + 1;
    }
    proof {
        assert(column_words(out@) =~= column_words(out@) + visible(columns@, i as int));
    }
    out
}

/// The position of a key among the members of an object.
pub open spec fn position_of(ms: Seq<(Seq<char>, JsonTree)>, key: Seq<char>, i: int) -> Option<int>
    decreases ms.len() - i,
{
    if 0 <= i < ms.len() {
        if ms[i].0 == key {
            Some(i)
        } else {
            position_of(ms, key, i + 1)
        }
    } else {
        None
    }
}

/// The members of an object without a key; the last member takes the place of the one removed.
pub open spec fn without(ms: Seq<(Seq<char>, JsonTree)>, key: Seq<char>) -> Seq<
    (Seq<char>, JsonTree),
> {
    match position_of(ms, key, 0) {
        Some(i) => ms.update(i, ms.last()).drop_last(),
        None => ms,
    }
}

/// A value without a member; one that is no object stays as it is.
pub open spec fn tree_without(tree: JsonTree, key: Seq<char>) -> JsonTree {
    match tree {
        JsonTree::Object(ms) => JsonTree::Object(without(ms, key)),
        t => t,
    }
}

/// A row without the reserved columns.
pub open spec fn stripped(tree: JsonTree) -> JsonTree {
    tree_without(
        tree_without(tree_without(tree, "__row_index"@), "__row_id"@),
        "__created_at"@,
    )
}

/// The keys of an object occur once each.
pub open spec fn distinct_keys(ms: Seq<(Seq<char>, JsonTree)>) -> bool {
    forall|i: int, j: int| 0 <= i < j < ms.len() ==> (#[trigger] ms[i]).0 != (#[trigger] ms[j]).0
}

/// A value that shows no reserved column.
pub open spec fn hides_reserved(tree: JsonTree) -> bool {
    tree matches JsonTree::Object(ms) ==> forall|key: Seq<char>|
        reserved(key) ==> (#[trigger] json_path::member(ms, key)) is None
}

/// `serde_json::Map::remove` on a value that is an object: the member under the key leaves, and
/// the last member takes its place (objects keep their members in order). A value that is no
/// object, or has no such member, stays as it is. An object has each key once.
#[verifier::external_body]
fn json_remove(v: &mut JsonValue, key: &str)
    ensures
        json_path::json_content(*final(v)) == tree_without(
            json_path::json_content(*old(v)),
            key@,
        ),
        json_path::json_content(*old(v)) matches JsonTree::Object(ms) ==> distinct_keys(ms),
{
    if let JsonValue::Object(map) = v {
        map.remove(key);
    }
}

/// What a list of rows holds.
pub open spec fn row_contents(rows: Seq<JsonValue>) -> Seq<JsonTree> {
    rows.map_values(|v: JsonValue| json_path::json_content(v))
}

/// Take the reserved columns out of rows.
pub fn strip_reserved(rows: &mut Vec<JsonValue>)
    ensures
        row_contents(final(rows)@) == row_contents(old(rows)@).map_values(
            |t: JsonTree| stripped(t),
        ),
        forall|k: int|
            0 <= k < final(rows)@.len() ==> hides_reserved(
                json_path::json_content(#[trigger] final(rows)@[k]),
            ),
{
    let mut i: usize = 0;
    while i < rows.len()
        invariant
            i <= rows@.len() == old(rows)@.len(),
            forall|k: int|
                0 <= k < i ==> hides_reserved(json_path::json_content(#[trigger] rows@[k])),
            forall|k: int|
                0 <= k < i ==> json_path::json_content(#[trigger] rows@[k]) == stripped(
                    json_path::json_content(old(rows)@[k]),
                ),
            forall|k: int| i <= k < rows@.len() ==> #[trigger] rows@[k] == old(rows)@[k],
        decreases rows@.len() - i,
    {
        let ghost before = json_path::json_content(rows@[i as int]);
        json_remove(&mut rows[i], "__row_index");
        json_remove(&mut rows[i], "__row_id");
        json_remove(&mut rows[i], "__created_at");
        proof {
            if let JsonTree::Object(ms) = before {
                let out = stripped(before)->Object_0;
                assert forall|key: Seq<char>| reserved(key) implies (#[trigger] json_path::member(
                    out,
                    key,
                )) is None by {
                    law_reserved_columns_are_hidden(ms, key);
                }
            }
        }
        i = i + 1;
    }
    proof {
        assert(row_contents(rows@) =~= row_contents(old(rows)@).map_values(
            |t: JsonTree| stripped(t),
        ));
    }
}

/// What parsing bytes as one JSON document comes to: its content, or the error in words.
pub uninterp spec fn json_of_bytes(bytes: Seq<u8>) -> Result<JsonTree, Seq<char>>;

/// `serde_json::from_slice` into a `serde_json::Value`, its error in words. What it makes of the
/// bytes depends on them alone and is left to its name.
#[verifier::external_body]
fn json_parse_bytes(bytes: &[u8]) -> (r: Result<JsonValue, String>)
    ensures
        match r {
            Ok(v) => json_of_bytes(bytes@) == Ok::<JsonTree, Seq<char>>(
                json_path::json_content(v),
            ),
            Err(e) => json_of_bytes(bytes@) == Err::<JsonTree, Seq<char>>(e@),
        },
{
    serde_json::from_slice(bytes).map_err(|e| e.to_string())
}

/// The elements of a `serde_json::Value::Array`; nothing for another value.
#[verifier::external_body]
fn json_elements(v: JsonValue) -> (r: Option<Vec<JsonValue>>)
    ensures
        match r {
            Some(items) => json_path::json_content(v) == JsonTree::Array(row_contents(items@)),
            None => !(json_path::json_content(v) is Array),
        },
{
    match v {
        JsonValue::Array(items) => Some(items),
        _ => None,
    }
}

/// The rows of a parsed document: its elements, or none where it is no array.
pub open spec fn rows_of(tree: JsonTree) -> Seq<JsonTree> {
    match tree {
        JsonTree::Array(items) => items,
        _ => Seq::empty(),
    }
}

/// The rows of a parsed document.
pub fn document_rows(v: JsonValue) -> (r: Vec<JsonValue>)
    ensures
        row_contents(r@) == rows_of(json_path::json_content(v)),
{
    match json_elements(v) {
        Some(items) => items,
        None => {
            let r: Vec<JsonValue> = Vec::new();
            proof {
                assert(row_contents(r@) =~= Seq::<JsonTree>::empty());
            }
            r
        },
    }
}

/// The rows of a response, from the result's rows as JSON bytes (none where the result has no
/// rows): the elements of the document, without the reserved columns.
pub fn response_rows(encoded: Option<&[u8]>) -> (r: Result<Vec<JsonValue>, String>)
    ensures
        match encoded {
            None => r matches Ok(rows) && rows@.len() == 0,
            Some(bytes) => match (json_of_bytes(bytes@), r) {
                (Ok(tree), Ok(rows)) => row_contents(rows@) == rows_of(tree).map_values(
                    |t: JsonTree| stripped(t),
                ) && forall|k: int|
                    0 <= k < rows@.len() ==> hides_reserved(
                        json_path::json_content(#[trigger] rows@[k]),
                    ),
                (Err(words), Err(e)) => e@ == words,
                _ => false,
            },
        },
{
    let bytes: &[u8] = match encoded {
        Some(b) => b,
        None => return Ok(Vec::new()),
    };
    match json_parse_bytes(bytes) {
        Ok(v) => {
            let mut rows: Vec<JsonValue> = document_rows(v);
            strip_reserved(&mut rows);
            Ok(rows)
        },
        Err(e) => Err(e),
    }
}

/// The positions from `i` on of the batches that have rows.
pub open spec fn filled(counts: Seq<usize>, i: int) -> Seq<usize>
    decreases counts.len() - i,
{
    if 0 <= i < counts.len() {
        if counts[i] > 0 {
            seq![i as usize] + filled(counts, i + 1)
        } else {
            filled(counts, i + 1)
        }
    } else {
        Seq::empty()
    }
}

/// The positions of the batches that have rows, from their row counts.
pub fn non_empty(counts: &[usize]) -> (r: Vec<usize>)
    ensures
        r@ == filled(counts@, 0),
{
    let mut out: Vec<usize> = Vec::new();
    let mut i: usize = 0;
    proof {
        assert(out@ + filled(counts@, 0) =~= filled(counts@, 0));
    }
    while i < counts.len()
        invariant
            i <= counts@.len(),
            out@ + filled(counts@, i as int) == filled(counts@, 0),
        decreases counts@.len() - i,
    {
        let ghost before = out@;
        if counts[i] > 0 {
            out.push(i);
        }
        proof {
            assert(out@ + filled(counts@, i + 1) =~= before + filled(counts@, i as int));
        }
        i = i + 1;
    }
    proof {
        assert(out@ =~= out@ + filled(counts@, i as int));
    }
    out
}

/// Why a query has no answer, in words.
#[derive(Clone, Debug, PartialEq, Eq)]
pub enum QueryFailure {
    /// It could not be bound or run.
    Run(String),
    /// Its result could not be put into JSON.
    Encode(String),
}

impl QueryFailure {
    /// The HTTP status of the failure: a query that cannot run is the caller's fault, a result
    /// that cannot be sent is ours.
    pub fn status(&self) -> (r: u16)
        ensures
            r == (match self {
                QueryFailure::Run(_) => 400u16,
                QueryFailure::Encode(_) => 500u16,
            }),
    {
        match self {
            QueryFailure::Run(_) => 400,
            QueryFailure::Encode(_) => 500,
        }
    }
}

proof fn lemma_position(ms: Seq<(Seq<char>, JsonTree)>, key: Seq<char>, i: int)
    requires
        0 <= i <= ms.len(),
    ensures
        match position_of(ms, key, i) {
            Some(p) => i <= p < ms.len() && ms[p].0 == key,
            None => forall|k: int| i <= k < ms.len() ==> (#[trigger] ms[k]).0 != key,
        },
    decreases ms.len() - i,
{
    if i < ms.len() {
        lemma_position(ms, key, i + 1);
    }
}

proof fn lemma_member(ms: Seq<(Seq<char>, JsonTree)>, key: Seq<char>)
    ensures
        match json_path::member(ms, key) {
            Some(t) => exists|k: int|
                0 <= k < ms.len() && (#[trigger] ms[k]).0 == key && ms[k].1 == t,
            None => forall|k: int| 0 <= k < ms.len() ==> (#[trigger] ms[k]).0 != key,
        },
    decreases ms.len(),
{
    if ms.len() > 0 {
        let rest = ms.drop_first();
        lemma_member(rest, key);
        if ms[0].0 == key {
            assert(ms[0].0 == key && ms[0].1 == ms[0].1);
        } else {
            match json_path::member(rest, key) {
                Some(t) => {
                    let k = choose|k: int|
                        0 <= k < rest.len() && (#[trigger] rest[k]).0 == key && rest[k].1 == t;
                    assert(ms[k + 1].0 == key && ms[k + 1].1 == t);
                },
                None => {
                    assert forall|k: int| 0 <= k < ms.len() implies (#[trigger] ms[k]).0
                        != key by {
                        if k > 0 {
                            assert(rest[k - 1].0 != key);
                        }
                    }
                },
            }
        }
    }
}

/// Removing a member removes it, and nothing else.
pub proof fn law_removal_takes_one_member(
    ms: Seq<(Seq<char>, JsonTree)>,
    key: Seq<char>,
    other: Seq<char>,
)
    requires
        distinct_keys(ms),
    ensures
        distinct_keys(without(ms, key)),
        json_path::member(without(ms, key), key) is None,
        other != key ==> json_path::member(without(ms, key), other) == json_path::member(
            ms,
            other,
        ),
{
    let out = without(ms, key);
    lemma_position(ms, key, 0);
    lemma_member(ms, other);
    lemma_member(out, other);
    lemma_member(out, key);
    match position_of(ms, key, 0) {
        Some(p) => {
            let n = ms.len() - 1;
            assert forall|k: int| 0 <= k < out.len() implies #[trigger] out[k] == (if k == p {
                ms[n]
            } else {
                ms[k]
            }) by {}
            assert forall|i: int, j: int| 0 <= i < j < out.len() implies (#[trigger] out[i]).0 != (
            #[trigger] out[j]).0 by {
                let a = if i == p {
                    n
                } else {
                    i
                };
                let b = if j == p {
                    n
                } else {
                    j
                };
                if a < b {
                    assert(ms[a].0 != ms[b].0);
                } else {
                    assert(ms[b].0 != ms[a].0);
                }
            }
            assert forall|k: int| 0 <= k < out.len() implies (#[trigger] out[k]).0 != key by {
                let a = if k == p {
                    n
                } else {
                    k
                };
                if a < p {
                    assert(ms[a].0 != ms[p].0);
                } else if p < a {
                    assert(ms[p].0 != ms[a].0);
                }
            }
            if other != key {
                match json_path::member(ms, other) {
                    Some(t) => {
                        let k = choose|k: int|
                            0 <= k < ms.len() && (#[trigger] ms[k]).0 == other && ms[k].1 == t;
                        let place = if k == n {
                            p
                        } else {
                            k
                        };
                        assert(out[place].0 == other && out[place].1 == t);
                        match json_path::member(out, other) {
                            Some(u) => {
                                let q = choose|q: int|
                                    0 <= q < out.len() && (#[trigger] out[q]).0 == other
                                        && out[q].1 == u;
                                if q < place {
                                    assert(out[q].0 != out[place].0);
                                } else if place < q {
                                    assert(out[place].0 != out[q].0);
                                }
                            },
                            None => {},
                        }
                    },
                    None => {
                        assert forall|k: int| 0 <= k < out.len() implies (#[trigger] out[k]).0
                            != other by {
                            let a = if k == p {
                                n
                            } else {
                                k
                            };
                            assert(ms[a].0 != other);
                        }
                    },
                }
            }
        },
        None => {},
    }
}

/// No reserved column is left in a row, and every other column keeps its value.
pub proof fn law_reserved_columns_are_hidden(ms: Seq<(Seq<char>, JsonTree)>, key: Seq<char>)
    requires
        distinct_keys(ms),
    ensures
        stripped(JsonTree::Object(ms)) matches JsonTree::Object(out) && json_path::member(out, key)
            == (if reserved(key) {
            None
        } else {
            json_path::member(ms, key)
        }),
{
    let a = without(ms, "__row_index"@);
    let b = without(a, "__row_id"@);
    law_removal_takes_one_member(ms, "__row_index"@, key);
    law_removal_takes_one_member(a, "__row_id"@, key);
    law_removal_takes_one_member(b, "__created_at"@, key);
}

/// Whether a character does not occur in a text.
pub open spec fn lacks(s: Seq<char>, c: char) -> bool {
    forall|i: int| 0 <= i < s.len() ==> (#[trigger] s[i]) != c
}

proof fn lemma_after_first(before: Seq<char>, c: char, rest: Seq<char>)
    requires
        lacks(before, c),
    ensures
        after_first(before + seq![c] + rest, c) == Some(rest),
        after_first(before, c) is None,
    decreases before.len(),
{
    let s = before + seq![c] + rest;
    if before.len() > 0 {
        let tail = before.drop_first();
        assert(s[0] == before[0]);
        assert(before[0] != c);
        assert(s.drop_first() =~= tail + seq![c] + rest);
        assert forall|i: int| 0 <= i < tail.len() implies (#[trigger] tail[i]) != c by {
            assert(tail[i] == before[i + 1]);
        }
        lemma_after_first(tail, c, rest);
    } else {
        assert(s[0] == c);
        assert(s.drop_first() =~= rest);
    }
}

/// The key of a URI is all that follows the first slash behind the bucket, whatever it holds,
/// slashes too. The schemes `s3` and `s3a` do not count; a URI without a slash behind its bucket
/// has no key.
pub proof fn law_keys_follow_the_bucket(bucket: Seq<char>, key: Seq<char>)
    requires
        lacks(bucket, '/'),
    ensures
        key_of(seq!['s', '3', ':', '/', '/'] + bucket + seq!['/'] + key) == Some(key),
        key_of(seq!['s', '3', 'a', ':', '/', '/'] + bucket + seq!['/'] + key) == Some(key),
        key_of(seq!['s', '3', ':', '/', '/'] + bucket) is None,
        key_of(seq!['s', '3', 'a', ':', '/', '/'] + bucket) is None,
        bucket != seq!['s', '3', ':'] && bucket != seq!['s', '3', 'a', ':'] ==> key_of(
            bucket + seq!['/'] + key,
        ) == Some(key),
        key_of(bucket) is None,
{
    reveal_strlit("s3://");
    reveal_strlit("s3a://");
    let plain = "s3://"@;
    let other = "s3a://"@;
    assert(plain =~= seq!['s', '3', ':', '/', '/']);
    assert(other =~= seq!['s', '3', 'a', ':', '/', '/']);
    let rest = bucket + seq!['/'] + key;
    lemma_after_first(bucket, '/', key);
    lemma_scheme(plain, rest);
    lemma_scheme(plain, bucket);
    lemma_scheme(other, rest);
    lemma_scheme(other, bucket);
    assert(plain + bucket + seq!['/'] + key =~= plain + rest);
    assert(other + bucket + seq!['/'] + key =~= other + rest);
    lemma_not_a_scheme(bucket, key);
}

proof fn lemma_scheme(scheme: Seq<char>, rest: Seq<char>)
    requires
        scheme == "s3://"@ || scheme == "s3a://"@,
    ensures
        without_scheme(scheme + rest) == rest,
{
    reveal_strlit("s3://");
    reveal_strlit("s3a://");
    let whole = scheme + rest;
    text::law_prefixes_are_followed(scheme, rest, whole);
    assert(whole.skip(scheme.len() as int) =~= rest);
    if scheme == "s3a://"@ {
        if text::starts_with(whole, "s3://"@) {
            assert(whole.take(5)[2] == whole[2]);
            assert(false);
        }
    }
}

/// A name before a slash is the scheme of a URI only if it is `s3:` or `s3a:`.
proof fn lemma_not_a_scheme(bucket: Seq<char>, key: Seq<char>)
    requires
        lacks(bucket, '/'),
    ensures
        bucket != seq!['s', '3', ':'] && bucket != seq!['s', '3', 'a', ':'] ==> without_scheme(
            bucket + seq!['/'] + key,
        ) == bucket + seq!['/'] + key,
        without_scheme(bucket) == bucket,
{
    reveal_strlit("s3://");
    reveal_strlit("s3a://");
    let whole = bucket + seq!['/'] + key;
    let n = bucket.len() as int;
    assert(whole[n] == '/');
    assert forall|i: int| 0 <= i < n implies whole[i] == bucket[i] && whole[i] != '/' by {
        assert(bucket[i] != '/');
    }
    if text::starts_with(whole, "s3://"@) {
        let head = whole.take(5);
        assert(head[0] == whole[0] && head[1] == whole[1] && head[2] == whole[2] && head[3]
            == whole[3]);
        assert(n == 3);
        assert(bucket =~= seq!['s', '3', ':']);
    }
    if text::starts_with(whole, "s3a://"@) {
        let head = whole.take(6);
        assert(head[0] == whole[0] && head[1] == whole[1] && head[2] == whole[2] && head[3]
            == whole[3] && head[4] == whole[4]);
        assert(n == 4);
        assert(bucket =~= seq!['s', '3', 'a', ':']);
    }
    if text::starts_with(bucket, "s3://"@) {
        assert(bucket.take(5)[3] == bucket[3]);
    }
    if text::starts_with(bucket, "s3a://"@) {
        assert(bucket.take(6)[4] == bucket[4]);
    }
}

/// The message for a URI without a key ends with the whole URI.
pub proof fn law_key_errors_name_the_uri(uri: Seq<char>)
    ensures
        text::starts_with(no_key_message(uri), "cannot parse object key from "@),
        no_key_message(uri).skip("cannot parse object key from "@.len() as int) == uri,
{
    let head = "cannot parse object key from "@;
    text::law_prefixes_are_followed(head, uri, uri);
    assert((head + uri).skip(head.len() as int) =~= uri);
}

/// Where the server listens: at the address it is given, as it stands; else on all interfaces at
/// the port it is given; else at port 8088.
pub proof fn law_listen_address(bind: String, other: Option<String>, port: String)
    ensures
        listen_address(Some(bind), other) == bind@,
        listen_address(None, Some(port)) == seq!['0', '.', '0', '.', '0', '.', '0', ':'] + port@,
        listen_address(None, None) == seq![
            '0',
            '.',
            '0',
            '.',
            '0',
            '.',
            '0',
            ':',
            '8',
            '0',
            '8',
            '8',
        ],
{
    reveal_strlit("0.0.0.0:");
    reveal_strlit("0.0.0.0:8088");
    assert("0.0.0.0:"@ =~= seq!['0', '.', '0', '.', '0', '.', '0', ':']);
    assert("0.0.0.0:8088"@ =~= seq![
        '0',
        '.',
        '0',
        '.',
        '0',
        '.',
        '0',
        ':',
        '8',
        '0',
        '8',
        '8',
    ]);
}

/// A setting is cleaned of white space around it and then of the quotes at its ends, and of
/// nothing within it.
pub proof fn law_settings_are_cleaned_at_their_ends(
    before: Seq<char>,
    s: Seq<char>,
    after: Seq<char>,
    left: nat,
    right: nat,
)
    requires
        text::all_white(before),
        text::all_white(after),
        s.len() > 0 ==> s[0] != '"' && s.last() != '"',
        s.len() > 0 ==> left > 0 || !text::is_white(s[0]),
        s.len() > 0 ==> right > 0 || !text::is_white(s.last()),
    ensures
        cleaned(
            before + (Seq::new(left, |i: int| '"') + s + Seq::new(right, |i: int| '"')) + after,
        ) == s,
{
    let open = Seq::new(left, |i: int| '"');
    let close = Seq::new(right, |i: int| '"');
    let inner = open + s + close;
    if s.len() > 0 {
        assert(inner[0] == (if left > 0 {
            '"'
        } else {
            s[0]
        }));
        assert(inner.last() == (if right > 0 {
            '"'
        } else {
            s.last()
        }));
        text::law_trimming_takes_the_white_ends(before, inner, after);
        assert(inner =~= open + (s + close));
        text::law_stripping_takes_the_run(s + close, left, '"');
        text::law_stripping_takes_the_run(s, right, '"');
    } else {
        let run = Seq::new((left + right) as nat, |i: int| '"');
        assert(inner =~= run + s);
        if inner.len() > 0 {
            assert(inner[0] == '"' && inner.last() == '"');
        }
        text::law_trimming_takes_the_white_ends(before, inner, after);
        text::law_stripping_takes_the_run(s, (left + right) as nat, '"');
        assert(s =~= Seq::<char>::empty());
    }
}

/// A base address loses the slashes at its end, however many, and keeps the rest.
pub proof fn law_base_addresses_end_without_a_slash(s: Seq<char>, n: nat)
    requires
        s.len() > 0,
        !text::is_white(s[0]),
        !text::is_white(s.last()),
        s[0] != '"',
        s.last() != '"',
        s.last() != '/',
    ensures
        text::strip_end(cleaned(s + Seq::new(n, |i: int| '/')), '/') == s,
{
    let none = Seq::<char>::empty();
    let whole = s + Seq::new(n, |i: int| '/');
    law_settings_are_cleaned_at_their_ends(none, whole, none, 0, 0);
    let bare = Seq::new(0, |i: int| '"');
    assert(none + (bare + whole + bare) + none =~= whole);
    text::law_stripping_takes_the_run(s, n, '/');
}

/// An excerpt is the beginning of a text: all of it up to 400 characters, else the first 400.
pub proof fn law_excerpts_are_beginnings(s: Seq<char>)
    ensures
        excerpt(s).len() == (if s.len() < 400 {
            s.len() as int
        } else {
            400
        }),
        forall|i: int| 0 <= i < excerpt(s).len() ==> #[trigger] excerpt(s)[i] == s[i],
{
}

/// The causes of an error are written in order, each behind a bar.
pub proof fn law_causes_are_written_in_order(
    causes: Seq<String>,
    more: Seq<String>,
    cause: String,
)
    ensures
        causes_text(Seq::<String>::empty(), 0) == Seq::<char>::empty(),
        causes_text(seq![cause], 0) == seq![' ', '|', ' '] + cause@,
        causes_text(causes + more, 0) == causes_text(causes, 0) + causes_text(more, 0),
{
    reveal_strlit(" | ");
    assert(" | "@ =~= seq![' ', '|', ' ']);
    let one = seq![cause];
    assert(causes_text(one, 1) == Seq::<char>::empty());
    assert(causes_text(one, 0) =~= seq![' ', '|', ' '] + cause@);
    lemma_causes_join(causes, more, 0);
}

proof fn lemma_causes_join(causes: Seq<String>, more: Seq<String>, i: int)
    requires
        0 <= i <= causes.len(),
    ensures
        causes_text(causes + more, i) == causes_text(causes, i) + causes_text(more, 0),
    decreases causes.len() - i,
{
    let all = causes_text(causes, i) + causes_text(more, 0);
    if i < causes.len() {
        assert((causes + more)[i] == causes[i]);
        lemma_causes_join(causes, more, i + 1);
        assert(causes_text(causes + more, i) =~= all);
    } else {
        lemma_causes_shift(causes, more, 0);
        assert(all =~= causes_text(more, 0));
    }
}

proof fn lemma_causes_shift(causes: Seq<String>, more: Seq<String>, k: int)
    requires
        0 <= k <= more.len(),
    ensures
        causes_text(causes + more, causes.len() + k) == causes_text(more, k),
    decreases more.len() - k,
{
    if k < more.len() {
        assert((causes + more)[causes.len() + k] == more[k]);
        lemma_causes_shift(causes, more, k + 1);
    }
}

/// What a failed plan says: where the request failed, the address, the error and its causes;
/// where it was refused, the status and the beginning of the body; where the reply cannot be
/// read, why. Files are no error.
pub proof fn law_failed_plans_say_why(
    url: Seq<char>,
    words: String,
    causes: Vec<String>,
    status: String,
    body: String,
    files: Vec<String>,
)
    ensures
        reply_error(url, PlanReply::Files(files)) is None,
        reply_error(url, PlanReply::Failed { error: words, causes }) matches Some(e)
            && text::starts_with(e, "plan-files POST "@ + url + " failed: "@ + words@) && e.skip(
            ("plan-files POST "@ + url + " failed: "@ + words@).len() as int,
        ) == causes_text(causes@, 0),
        reply_error(url, PlanReply::Refused { status, body }) matches Some(e)
            && text::starts_with(e, "plan-files "@ + status@ + ": "@) && e.skip(
            ("plan-files "@ + status@ + ": "@).len() as int,
        ) == excerpt(body@),
        reply_error(url, PlanReply::Unreadable { error: words }) matches Some(e)
            && text::starts_with(e, "plan-files bad json: "@) && e.skip(
            "plan-files bad json: "@.len() as int,
        ) == words@,
{
    let failed = "plan-files POST "@ + url + " failed: "@ + words@;
    let refused = "plan-files "@ + status@ + ": "@;
    let unreadable = "plan-files bad json: "@;
    text::law_prefixes_are_followed(failed, causes_text(causes@, 0), url);
    text::law_prefixes_are_followed(refused, excerpt(body@), url);
    text::law_prefixes_are_followed(unreadable, words@, url);
    assert((failed + causes_text(causes@, 0)).skip(failed.len() as int) =~= causes_text(
        causes@,
        0,
    ));
    assert((refused + excerpt(body@)).skip(refused.len() as int) =~= excerpt(body@));
    assert((unreadable + words@).skip(unreadable.len() as int) =~= words@);
}

/// The leaf of a qualified name is all behind its last dot; a name without a dot is its own.
pub proof fn law_leaves_follow_the_last_dot(qualifier: Seq<char>, leaf: Seq<char>)
    requires
        lacks(leaf, '.'),
    ensures
        last_part(qualifier + seq!['.'] + leaf) == leaf,
        last_part(leaf) == leaf,
    decreases leaf.len(),
{
    let whole = qualifier + seq!['.'] + leaf;
    if leaf.len() > 0 {
        let less = leaf.drop_last();
        assert(leaf[leaf.len() - 1] != '.');
        assert(whole.drop_last() =~= qualifier + seq!['.'] + less);
        assert forall|i: int| 0 <= i < less.len() implies (#[trigger] less[i]) != '.' by {
            assert(less[i] == leaf[i]);
        }
        law_leaves_follow_the_last_dot(qualifier, less);
        assert(less.push(leaf.last()) =~= leaf);
    } else {
        assert(whole.last() == '.');
        assert(leaf =~= Seq::<char>::empty());
    }
}

/// A request's table is found by its name in lower case; of two tables of one name the later is
/// meant, and a name that none has leads nowhere.
pub proof fn law_request_tables_are_found_by_name(
    pairs: Seq<(String, TableRef)>,
    name: Seq<char>,
    i: int,
)
    requires
        -1 <= i < pairs.len(),
    ensures
        names_last(pairs, name, i) && i >= 0 ==> lowered(pairs, pairs.len() as int).contains_key(
            name,
        ) && lowered(pairs, pairs.len() as int)[name] == pairs[i].1,
        names_last(pairs, name, i) && i < 0 ==> !lowered(pairs, pairs.len() as int).contains_key(
            name,
        ),
{
    if names_last(pairs, name, i) {
        lemma_lowered(pairs, name, i, pairs.len() as int);
    }
}

/// Whether the pair at `i` is the last whose name in lower case is this one; below 0, none is.
pub open spec fn names_last(pairs: Seq<(String, TableRef)>, name: Seq<char>, i: int) -> bool {
    &&& forall|k: int| i < k < pairs.len() ==> lower_case((#[trigger] pairs[k]).0@) != name
    &&& i >= 0 ==> lower_case(pairs[i].0@) == name
}

proof fn lemma_lowered(pairs: Seq<(String, TableRef)>, name: Seq<char>, i: int, n: int)
    requires
        -1 <= i < n <= pairs.len() || (i == -1 && n == 0),
        forall|k: int| i < k < n ==> lower_case((#[trigger] pairs[k]).0@) != name,
        i >= 0 ==> lower_case(pairs[i].0@) == name,
    ensures
        i >= 0 ==> lowered(pairs, n).contains_key(name) && lowered(pairs, n)[name] == pairs[i].1,
        i < 0 ==> !lowered(pairs, n).contains_key(name),
    decreases n,
{
    if n > 0 && i < n - 1 {
        assert(lower_case(pairs[n - 1].0@) != name);
        lemma_lowered(pairs, name, i, n - 1);
    }
}

/// The columns shown are those that are not reserved, in order, by name and type. Reserved are
/// the row index, the row id and the creation time, and no others.
pub proof fn law_shown_columns_are_not_reserved(
    columns: Seq<ColumnMeta>,
    more: Seq<ColumnMeta>,
    c: ColumnMeta,
    name: Seq<char>,
)
    ensures
        reserved(name) <==> seq!["__row_index"@, "__row_id"@, "__created_at"@].contains(name),
        visible(Seq::<ColumnMeta>::empty(), 0) == Seq::<(Seq<char>, Seq<char>)>::empty(),
        visible(seq![c], 0) == (if reserved(c.name@) {
            Seq::<(Seq<char>, Seq<char>)>::empty()
        } else {
            seq![(c.name@, c.data_type@)]
        }),
        visible(columns + more, 0) == visible(columns, 0) + visible(more, 0),
{
    let names = seq!["__row_index"@, "__row_id"@, "__created_at"@];
    assert(names[0] == "__row_index"@ && names[1] == "__row_id"@ && names[2] == "__created_at"@);
    let one = seq![c];
    assert(visible(one, 1) =~= Seq::<(Seq<char>, Seq<char>)>::empty());
    assert(one[0] == c);
    assert(visible(one, 0) =~= (if reserved(c.name@) {
        Seq::<(Seq<char>, Seq<char>)>::empty()
    } else {
        seq![(c.name@, c.data_type@)]
    }));
    lemma_visible_join(columns, more, 0);
}

proof fn lemma_visible_join(columns: Seq<ColumnMeta>, more: Seq<ColumnMeta>, i: int)
    requires
        0 <= i <= columns.len(),
    ensures
        visible(columns + more, i) == visible(columns, i) + visible(more, 0),
    decreases columns.len() - i,
{
    let all = visible(columns, i) + visible(more, 0);
    if i < columns.len() {
        assert((columns + more)[i] == columns[i]);
        lemma_visible_join(columns, more, i + 1);
        assert(visible(columns + more, i) =~= all);
    } else {
        lemma_visible_shift(columns, more, 0);
        assert(all =~= visible(more, 0));
    }
}

proof fn lemma_visible_shift(columns: Seq<ColumnMeta>, more: Seq<ColumnMeta>, k: int)
    requires
        0 <= k <= more.len(),
    ensures
        visible(columns + more, columns.len() + k) == visible(more, k),
    decreases more.len() - k,
{
    if k < more.len() {
        assert((columns + more)[columns.len() + k] == more[k]);
        lemma_visible_shift(columns, more, k + 1);
    }
}

/// The rows of a document are the elements of its array, all of them in order; a document that
/// is no array has none. A row that is no object is left as it is.
pub proof fn law_rows_are_the_elements(items: Seq<JsonTree>, tree: JsonTree)
    ensures
        rows_of(JsonTree::Array(items)) == items,
        !(tree is Array) ==> rows_of(tree).len() == 0,
        !(tree is Object) ==> stripped(tree) == tree,
{
}

/// The batches that are sent are those that have rows, by position and in order.
pub proof fn law_filled_batches_are_sent(counts: Seq<usize>, k: usize)
    requires
        counts.len() <= usize::MAX,
    ensures
        filled(counts, 0).contains(k) <==> k < counts.len() && counts[k as int] > 0,
        forall|a: int, b: int|
            0 <= a < b < filled(counts, 0).len() ==> (#[trigger] filled(counts, 0)[a]) < (
            #[trigger] filled(counts, 0)[b]),
{
    lemma_filled(counts, 0, k);
}

proof fn lemma_filled(counts: Seq<usize>, i: int, k: usize)
    requires
        counts.len() <= usize::MAX,
        0 <= i <= counts.len(),
    ensures
        filled(counts, i).contains(k) <==> i <= k < counts.len() && counts[k as int] > 0,
        forall|a: int| 0 <= a < filled(counts, i).len() ==> (#[trigger] filled(counts, i)[a]) >= i,
        forall|a: int, b: int|
            0 <= a < b < filled(counts, i).len() ==> (#[trigger] filled(counts, i)[a]) < (
            #[trigger] filled(counts, i)[b]),
    decreases counts.len() - i,
{
    if i < counts.len() {
        lemma_filled(counts, i + 1, k);
        let rest = filled(counts, i + 1);
        let all = filled(counts, i);
        if counts[i] > 0 {
            assert(all == seq![i as usize] + rest);
            assert forall|a: int| 0 <= a < all.len() implies (#[trigger] all[a]) >= i by {
                if a > 0 {
                    assert(all[a] == rest[a - 1]);
                }
            }
            assert forall|a: int, b: int| 0 <= a < b < all.len() implies (#[trigger] all[a]) < (
            #[trigger] all[b]) by {
                assert(all[b] == rest[b - 1]);
                if a > 0 {
                    assert(all[a] == rest[a - 1]);
                }
            }
            if rest.contains(k) {
                let j = choose|j: int| 0 <= j < rest.len() && rest[j] == k;
                assert(all[j + 1] == k);
            }
            if k == i {
                assert(all[0] == k);
            }
            if all.contains(k) {
                let j = choose|j: int| 0 <= j < all.len() && all[j] == k;
                if j > 0 {
                    assert(rest[j - 1] == k);
                }
            }
        }
    }
}

/// The storage settings are complete if the endpoint and the two keys are given. They are taken
/// as they stand; without a bucket it is `lakehouse`, without a region `auto`. Otherwise the first
/// of the three that is missing is named.
pub proof fn law_storage_settings_need_three_values(
    endpoint: Option<String>,
    bucket: Option<String>,
    key_id: Option<String>,
    key: Option<String>,
    region: Option<String>,
    r: Result<S3Config, KarmaParquetError>,
)
    requires
        call_ensures(S3Config::from_vars, (endpoint, bucket, key_id, key, region), r),
    ensures
        endpoint is Some && key_id is Some && key is Some ==> {
            &&& r is Ok
            &&& r->Ok_0.endpoint@ == endpoint->0@
            &&& r->Ok_0.access_key_id@ == key_id->0@
            &&& r->Ok_0.secret_access_key@ == key->0@
            &&& bucket matches Some(b) ==> r->Ok_0.bucket@ == b@
            &&& bucket is None ==> r->Ok_0.bucket@ == "lakehouse"@
            &&& region matches Some(g) ==> r->Ok_0.region@ == g@
            &&& region is None ==> r->Ok_0.region@ == "auto"@
        },
        endpoint is None ==> (r matches Err(KarmaParquetError::Config(s)) && text::names(
            s@,
            "missing env "@,
            "LAKEHOUSE_S3_ENDPOINT"@,
            Seq::empty(),
        )),
        endpoint is Some && key_id is None ==> (r matches Err(KarmaParquetError::Config(s))
            && text::names(s@, "missing env "@, "LAKEHOUSE_S3_ACCESS_KEY_ID"@, Seq::empty())),
        endpoint is Some && key_id is Some && key is None ==> (r matches Err(
            KarmaParquetError::Config(s),
        ) && text::names(s@, "missing env "@, "LAKEHOUSE_S3_SECRET_ACCESS_KEY"@, Seq::empty())),
{
    let head = "missing env "@;
    let none = Seq::<char>::empty();
    text::lemma_names(head, "LAKEHOUSE_S3_ENDPOINT"@, none);
    text::lemma_names(head, "LAKEHOUSE_S3_ACCESS_KEY_ID"@, none);
    text::lemma_names(head, "LAKEHOUSE_S3_SECRET_ACCESS_KEY"@, none);
    assert(head + "LAKEHOUSE_S3_ENDPOINT"@ + none =~= head + "LAKEHOUSE_S3_ENDPOINT"@);
    assert(head + "LAKEHOUSE_S3_ACCESS_KEY_ID"@ + none =~= head + "LAKEHOUSE_S3_ACCESS_KEY_ID"@);
    assert(head + "LAKEHOUSE_S3_SECRET_ACCESS_KEY"@ + none =~= head
        + "LAKEHOUSE_S3_SECRET_ACCESS_KEY"@);
}

/// A client asks at its base address: white space, quotes and slashes at the end of the base do
/// not change where it asks, nor do white space and quotes around the token change the token.
pub proof fn law_clients_ask_at_their_base(
    base: &str,
    token: &str,
    client: MlRunnerClient,
    url: String,
    s: Seq<char>,
    slashes: nat,
    t: Seq<char>,
)
    requires
        call_ensures(MlRunnerClient::new, (base, token), client),
        call_ensures(MlRunnerClient::plan_files_url, (&client,), url),
        base@ == s + Seq::new(slashes, |i: int| '/'),
        s.len() > 0,
        !text::is_white(s[0]),
        !text::is_white(s.last()),
        s[0] != '"',
        s.last() != '"',
        s.last() != '/',
        token@ == t,
        t.len() > 0,
        !text::is_white(t[0]),
        !text::is_white(t.last()),
        t[0] != '"',
        t.last() != '"',
    ensures
        client.base@ == s,
        client.token@ == t,
        text::names(url@, s, "/lakehouse/plan-files"@, Seq::empty()),
{
    law_base_addresses_end_without_a_slash(s, slashes);
    let none = Seq::<char>::empty();
    law_settings_are_cleaned_at_their_ends(none, t, none, 0, 0);
    let bare = Seq::new(0, |i: int| '"');
    assert(none + (bare + t + bare) + none =~= t);
    text::lemma_names(s, "/lakehouse/plan-files"@, none);
    assert(s + "/lakehouse/plan-files"@ + none =~= s + "/lakehouse/plan-files"@);
}

/// A table is named by its dataset, in the namespace given or else in `datasets`.
pub proof fn law_tables_stand_in_a_namespace(
    dataset_id: String,
    namespace: Option<String>,
    table: TableRef,
)
    requires
        call_ensures(TableRef::new, (dataset_id, namespace), table),
    ensures
        table.dataset_id@ == dataset_id@,
        namespace matches Some(n) ==> table.namespace@ == n@,
        namespace is None ==> table.namespace@ == "datasets"@,
{
}

/// A query that fails to run is the caller's error, a result that cannot be encoded the server's.
pub proof fn law_failures_have_a_status(failure: QueryFailure, status: u16)
    requires
        call_ensures(QueryFailure::status, (&failure,), status),
    ensures
        failure is Run ==> status == 400,
        failure is Encode ==> status == 500,
{
}

/// A plan that comes back is passed on as it is; any other reply is an error with its message.
pub proof fn law_planned_files_are_passed_on(
    url: &str,
    reply: PlanReply,
    r: Result<Vec<String>, String>,
)
    requires
        call_ensures(planned_files, (url, reply), r),
    ensures
        reply matches PlanReply::Files(files) ==> r == Ok::<Vec<String>, String>(files),
        !(reply is Files) ==> (r matches Err(e) && reply_error(url@, reply) == Some(e@)),
{
}

/// A URI leads to the object of its key, or is refused by name; so do many, of which the first
/// that has no key refuses them all.
pub proof fn law_uris_lead_to_their_objects(
    uris: &[String],
    paths: Result<Vec<ObjPath>, String>,
    i: int,
)
    requires
        call_ensures(object_paths, (uris,), paths),
    ensures
        paths matches Ok(ps) ==> ps@.len() == uris@.len() && (0 <= i < uris@.len() ==> key_of(
            uris@[i]@,
        ) is Some && path_text(ps@[i]) == path_of_key(key_of(uris@[i]@)->0) && (plain_key(
            key_of(uris@[i]@)->0,
        ) ==> path_text(ps@[i]) == key_of(uris@[i]@)->0)),
        0 <= i < uris@.len() && key_of(uris@[i]@) is None ==> paths is Err,
        paths is Err ==> exists|k: int|
            0 <= k < uris@.len() && key_of((#[trigger] uris@[k])@) is None && paths->Err_0@
                == no_key_message(uris@[k]@),
{
    if let Ok(ps) = paths {
        if 0 <= i < uris@.len() {
            assert(leads_to(uris@[i]@, ps@[i]));
        }
    }
}

/// A request's table is looked up by the leaf of its name in lower case, and its entry is the one
/// that was given for it.
pub proof fn law_lookups_go_by_the_leaf(
    tables: RequestTables,
    fqn: &str,
    r: Option<&TableRef>,
)
    requires
        call_ensures(RequestTables::lookup, (&tables, fqn), r),
    ensures
        r is Some <==> tables@.contains_key(lower_case(last_part(fqn@))),
        r matches Some(t) ==> *t == tables@[lower_case(last_part(fqn@))],
{
}

} // verus!
