//! Reader and writer for the **Puffin** file format, Iceberg's container for
//! statistics and index blobs.
//!
//! Layout (per the Iceberg Puffin spec):
//! ```text
//!   Magic  Blob1 Blob2 .. Blobn  Footer
//!   Footer := Magic  FooterPayload(JSON)  FooterPayloadSize(i32 LE)  Flags(4B)  Magic
//! ```
//! `Magic` = `PFA1`. Each blob's bytes live in the body; the footer JSON
//! ([`FileMetadata`]) records every blob's `type`, `fields`, `offset`, `length`, so a
//! reader can locate blobs without parsing them. The footer is uncompressed
//! (`Flags = 0`), and so are the blob payloads.
//!
//! This module frames the file and checks its frame. The caller turns the directory
//! into JSON and back: [`write_puffin`] and [`read_puffin`] take that step as an
//! argument.
use crate::bytes;
use crate::text;
use crate::zonemap;
use crate::zonemap::IcebergType;
use crate::zonemap::ZoneMapError;
use crate::zonemap::ZoneModel;
use std::collections::BTreeMap;
use vstd::prelude::*;

verus! {

/// Puffin magic: the four bytes `PFA1`, present at the file start and twice in the footer.
pub const MAGIC: [u8; 4] = [0x50, 0x46, 0x41, 0x31];

/// Why a Puffin file cannot be read.
#[derive(Clone, Debug, PartialEq, Eq)]
pub enum PuffinError {
    BadMagic,
    Truncated,
    CompressedFooter,
    /// The footer JSON is invalid, in the parser's words.
    Json(String),
    BlobOutOfBounds,
}

/// A [`PuffinError`] in words.
pub open spec fn error_words(e: PuffinError) -> Seq<char> {
    match e {
        PuffinError::BadMagic => "not a Puffin file: bad magic (expected PFA1)"@,
        PuffinError::Truncated => "truncated Puffin file"@,
        PuffinError::CompressedFooter => "footer payload is compressed; not supported in v1"@,
        PuffinError::Json(words) => "invalid footer JSON: "@ + words@,
        PuffinError::BlobOutOfBounds => "blob bytes out of bounds"@,
    }
}

impl PuffinError {
    /// The error in words.
    pub fn message(&self) -> (r: String)
        ensures
            r@ == error_words(*self),
    {
        match self {
            PuffinError::BadMagic => "not a Puffin file: bad magic (expected PFA1)".to_owned(),
            PuffinError::Truncated => "truncated Puffin file".to_owned(),
            PuffinError::CompressedFooter =>
                "footer payload is compressed; not supported in v1".to_owned(),
            PuffinError::Json(words) => {
                let mut out: String = "invalid footer JSON: ".to_owned();
                out.append(words.as_str());
                out
            },
            PuffinError::BlobOutOfBounds => "blob bytes out of bounds".to_owned(),
        }
    }
}

/// A blob's entry in the footer's directory.
#[derive(Clone, Debug, PartialEq, Eq)]
pub struct BlobMetadata {
    pub blob_type: String,
    /// Iceberg field IDs this blob is computed over.
    pub fields: Vec<i32>,
    pub snapshot_id: i64,
    pub sequence_number: i64,
    pub offset: i64,
    pub length: i64,
    pub compression_codec: Option<String>,
    pub properties: Option<BTreeMap<String, String>>,
}

/// What a [`BlobMetadata`] says.
#[verifier::ext_equal]
pub struct MetadataModel {
    pub blob_type: Seq<char>,
    pub fields: Seq<i32>,
    pub snapshot_id: i64,
    pub sequence_number: i64,
    pub offset: i64,
    pub length: i64,
    pub compression_codec: Option<Seq<char>>,
    pub properties: Option<Map<String, String>>,
}

/// What optional properties hold.
pub open spec fn properties_of(p: Option<BTreeMap<String, String>>) -> Option<
    Map<String, String>,
> {
    match p {
        Some(m) => Some(m@),
        None => None,
    }
}

impl View for BlobMetadata {
    type V = MetadataModel;

    open spec fn view(&self) -> MetadataModel {
        MetadataModel {
            blob_type: self.blob_type@,
            fields: self.fields@,
            snapshot_id: self.snapshot_id,
            sequence_number: self.sequence_number,
            offset: self.offset,
            length: self.length,
            compression_codec: match self.compression_codec {
                Some(s) => Some(s@),
                None => None,
            },
            properties: properties_of(self.properties),
        }
    }
}

/// The footer's directory of a file.
#[derive(Clone, Debug, PartialEq, Eq)]
pub struct FileMetadata {
    pub blobs: Vec<BlobMetadata>,
    pub properties: Option<BTreeMap<String, String>>,
}

/// What a list of entries says.
pub open spec fn metadata_models(ms: Seq<BlobMetadata>) -> Seq<MetadataModel> {
    ms.map_values(|m: BlobMetadata| m@)
}

/// A blob to append to a Puffin file (payload already serialized by its own codec).
#[derive(Clone, Debug, PartialEq, Eq)]
pub struct BlobToWrite {
    pub blob_type: String,
    pub fields: Vec<i32>,
    /// Snapshot and sequence this blob is bound to. A standalone index not yet tied to a
    /// snapshot uses `-1`.
    pub snapshot_id: i64,
    pub sequence_number: i64,
    pub data: Vec<u8>,
    pub properties: Option<BTreeMap<String, String>>,
}

/// The payloads of the blobs before `i`, one after another.
pub open spec fn body(blobs: Seq<BlobToWrite>, i: int) -> Seq<u8>
    decreases i,
{
    if 0 < i <= blobs.len() {
        body(blobs, i - 1) + blobs[i - 1].data@
    } else {
        Seq::empty()
    }
}

/// The directory entry of the blob at `i`: its payload follows the head magic and the payloads
/// before it, uncompressed.
pub open spec fn entry_of(blobs: Seq<BlobToWrite>, i: int) -> MetadataModel {
    MetadataModel {
        blob_type: blobs[i].blob_type@,
        fields: blobs[i].fields@,
        snapshot_id: blobs[i].snapshot_id,
        sequence_number: blobs[i].sequence_number,
        offset: (4 + body(blobs, i).len()) as i64,
        length: blobs[i].data@.len() as i64,
        compression_codec: None,
        properties: properties_of(blobs[i].properties),
    }
}

/// The directory of a file of blobs.
pub open spec fn directory(blobs: Seq<BlobToWrite>) -> Seq<MetadataModel> {
    Seq::new(blobs.len(), |i: int| entry_of(blobs, i))
}

/// A whole file: head magic, payloads, footer.
pub open spec fn framed(blobs: Seq<BlobToWrite>, payload: Seq<u8>) -> Seq<u8> {
    MAGIC@ + body(blobs, blobs.len() as int) + MAGIC@ + payload + bytes::le_bytes(
        payload.len() as int,
        4,
    ) + seq![0u8, 0u8, 0u8, 0u8] + MAGIC@
}

/// Whether every offset and length of a file of blobs fits a directory entry.
pub open spec fn offsets_fit(blobs: Seq<BlobToWrite>) -> bool {
    4 + body(blobs, blobs.len() as int).len() <= i64::MAX
}

proof fn lemma_body_grows(blobs: Seq<BlobToWrite>, i: int)
    requires
        0 <= i <= blobs.len(),
    ensures
        body(blobs, i).len() <= body(blobs, blobs.len() as int).len(),
        i < blobs.len() ==> body(blobs, i).len() + blobs[i].data@.len() <= body(
            blobs,
            blobs.len() as int,
        ).len(),
    decreases blobs.len() - i,
{
    if i < blobs.len() {
        lemma_body_grows(blobs, i + 1);
    }
}

fn copy_properties(p: &Option<BTreeMap<String, String>>) -> (r: Option<BTreeMap<String, String>>)
    ensures
        properties_of(r) == properties_of(*p),
{
    match p {
        Some(m) => Some(m.clone()),
        None => None,
    }
}

fn copy_ints(v: &Vec<i32>) -> (r: Vec<i32>)
    ensures
        r@ == v@,
{
    let r: Vec<i32> = v.clone();
    proof {
        assert(r@ =~= v@);
    }
    r
}

/// The directory of the blobs of a file.
pub fn blob_directory(blobs: &[BlobToWrite]) -> (r: Vec<BlobMetadata>)
    requires
        offsets_fit(blobs@),
    ensures
        metadata_models(r@) == directory(blobs@),
{
    let mut metas: Vec<BlobMetadata> = Vec::new();
    let mut offset: i64 = 4;
    let mut i: usize = 0;
    while i < blobs.len()
        invariant
            i <= blobs@.len(),
            offsets_fit(blobs@),
            offset == 4 + body(blobs@, i as int).len(),
            metas@.len() == i,
            forall|k: int| 0 <= k < i ==> (#[trigger] metas@[k])@ == entry_of(blobs@, k),
        decreases blobs@.len() - i,
    {
        let b: &BlobToWrite = &blobs[i];
        proof {
            lemma_body_grows(blobs@, i as int);
        }
        let meta = BlobMetadata {
            blob_type: b.blob_type.clone(),
            fields: copy_ints(&b.fields),
            snapshot_id: b.snapshot_id,
            sequence_number: b.sequence_number,
            offset,
            length: b.data.len() as i64,
            compression_codec: None,
            properties: copy_properties(&b.properties),
        };
        proof {
            assert(meta@ =~= entry_of(blobs@, i as int));
        }
        offset = offset + b.data.len() as i64;
        metas.push(meta);
        i = i + 1;
    }
    proof {
        assert(metadata_models(metas@) =~= directory(blobs@));
    }
    metas
}

fn put_magic(out: &mut Vec<u8>)
    ensures
        final(out)@ == old(out)@ + MAGIC@,
{
    let mut i: usize = 0;
    while i < 4
        invariant
            i <= 4,
            out@ == old(out)@ + MAGIC@.take(i as int),
        decreases 4 - i,
    {
        out.push(MAGIC[i]);
        i = i + 1;
        proof {
            assert(old(out)@ + MAGIC@.take(i as int) =~= (old(out)@ + MAGIC@.take(i - 1)).push(
                MAGIC@[i - 1],
            ));
        }
    }
    proof {
        assert(MAGIC@.take(4) =~= MAGIC@);
    }
}

/// Frame a file of blobs around the JSON of its directory.
pub fn frame(blobs: &[BlobToWrite], payload: &[u8]) -> (r: Vec<u8>)
    ensures
        r@ == framed(blobs@, payload@),
{
    let mut out: Vec<u8> = Vec::new();
    put_magic(&mut out);
    let mut i: usize = 0;
    proof {
        assert(out@ =~= MAGIC@ + body(blobs@, 0));
    }
    while i < blobs.len()
        invariant
            i <= blobs@.len(),
            out@ == MAGIC@ + body(blobs@, i as int),
        decreases blobs@.len() - i,
    {
        out.extend_from_slice(blobs[i].data.as_slice());
        i = i + 1;
        proof {
            assert(out@ =~= MAGIC@ + body(blobs@, i as int));
        }
    }
    put_magic(&mut out);
    out.extend_from_slice(payload);
    bytes::put_le(&mut out, payload.len() as i128, 4);
    out.push(0);
    out.push(0);
    out.push(0);
    out.push(0);
    put_magic(&mut out);
    proof {
        assert(out@ =~= framed(blobs@, payload@));
    }
    out
}

/// Serialize a complete Puffin file from a set of blobs. `to_json` turns the directory into the
/// footer payload.
pub fn write_puffin<F: FnOnce(&FileMetadata) -> Vec<u8>>(
    blobs: &[BlobToWrite],
    file_properties: Option<BTreeMap<String, String>>,
    to_json: F,
) -> (r: Vec<u8>)
    requires
        offsets_fit(blobs@),
        forall|m: &FileMetadata| call_requires(to_json, (m,)),
    ensures
        exists|m: FileMetadata, payload: Vec<u8>|
            metadata_models(m.blobs@) == directory(blobs@) && m.properties == file_properties
                && #[trigger] call_ensures(to_json, (&m,), payload) && r@ == framed(
                blobs@,
                payload@,
            ),
{
    let m = FileMetadata { blobs: blob_directory(blobs), properties: file_properties };
    let payload: Vec<u8> = to_json(&m);
    let r: Vec<u8> = frame(blobs, payload.as_slice());
    proof {
        assert(call_ensures(to_json, (&m,), payload));
    }
    r
}

/// Whether the magic stands at position `p`.
pub open spec fn magic_at(d: Seq<u8>, p: int) -> bool {
    d.subrange(p, p + 4) == MAGIC@
}

/// The footer payload of a file, or why the frame is not that of a readable Puffin file. The
/// smallest legal file holds the head magic and a footer with an empty payload. The footer begins
/// with a magic of its own, after the one at the head.
pub open spec fn payload_of(d: Seq<u8>) -> Result<Seq<u8>, PuffinError> {
    let n = d.len() as int;
    if n < 20 {
        Err(PuffinError::Truncated)
    } else if !magic_at(d, 0) || !magic_at(d, n - 4) {
        Err(PuffinError::BadMagic)
    } else if d[n - 8] % 2 == 1 {
        Err(PuffinError::CompressedFooter)
    } else {
        let size = bytes::le_signed(d.subrange(n - 12, n - 8));
        if size < 0 || n - 20 < size {
            Err(PuffinError::Truncated)
        } else if !magic_at(d, n - 16 - size) {
            Err(PuffinError::BadMagic)
        } else {
            Ok(d.subrange(n - 12 - size, n - 12))
        }
    }
}

fn has_magic(d: &[u8], p: usize) -> (r: bool)
    requires
        p + 4 <= d@.len(),
    ensures
        r == magic_at(d@, p as int),
{
    let r: bool = d[p] == MAGIC[0] && d[p + 1] == MAGIC[1] && d[p + 2] == MAGIC[2] && d[p + 3]
        == MAGIC[3];
    proof {
        let s = d@.subrange(p as int, p + 4);
        if r {
            assert(s =~= MAGIC@);
        } else {
            assert(s[0] == d@[p as int] && s[1] == d@[p + 1] && s[2] == d@[p + 2] && s[3] == d@[p
                + 3]);
        }
    }
    r
}

/// Validate the magics and the footer of a file, and hand out the footer payload.
pub fn footer_payload(data: &[u8]) -> (r: Result<&[u8], PuffinError>)
    ensures
        match r {
            Ok(p) => payload_of(data@) == Ok::<Seq<u8>, PuffinError>(p@),
            Err(e) => payload_of(data@) == Err::<Seq<u8>, PuffinError>(e),
        },
{
    let n: usize = data.len();
    if n < 20 {
        return Err(PuffinError::Truncated);
    }
    if !has_magic(data, 0) || !has_magic(data, n - 4) {
        return Err(PuffinError::BadMagic);
    }
    if data[n - 8] % 2 == 1 {
        return Err(PuffinError::CompressedFooter);
    }
    let size: i64 = bytes::get_le_signed(vstd::slice::slice_subrange(data, n - 12, n - 8));
    if size < 0 || size as u64 > (n - 20) as u64 {
        return Err(PuffinError::Truncated);
    }
    let start: usize = n - 12 - size as usize;
    if !has_magic(data, start - 4) {
        return Err(PuffinError::BadMagic);
    }
    Ok(vstd::slice::slice_subrange(data, start, n - 12))
}

/// A parsed Puffin file: the blob directory plus a borrow of the raw bytes so blob payloads can
/// be sliced out on demand.
pub struct PuffinFile<'a> {
    pub data: &'a [u8],
    pub blobs: Vec<BlobMetadata>,
    pub properties: BTreeMap<String, String>,
}

/// What reading a file came to, for a footer payload parsed as `parsed`.
pub open spec fn read_as(
    data: Seq<u8>,
    parsed: Result<FileMetadata, String>,
    r: Result<PuffinFile, PuffinError>,
) -> bool {
    match (parsed, r) {
        (Ok(m), Ok(f)) => f.data@ == data && f.blobs == m.blobs && f.properties@
            == match m.properties {
            Some(p) => p@,
            None => Map::empty(),
        },
        (Err(words), Err(PuffinError::Json(s))) => s == words,
        _ => false,
    }
}

/// Put the bytes of a file and its parsed directory together.
pub fn open_parsed<'a>(data: &'a [u8], parsed: Result<FileMetadata, String>) -> (r: Result<
    PuffinFile<'a>,
    PuffinError,
>)
    ensures
        read_as(data@, parsed, r),
{
    match parsed {
        Ok(m) => {
            let properties: BTreeMap<String, String> = match m.properties {
                Some(p) => p,
                None => BTreeMap::new(),
            };
            Ok(PuffinFile { data, blobs: m.blobs, properties })
        },
        Err(words) => Err(PuffinError::Json(words)),
    }
}

/// Parse a Puffin file: validate the magics, read the trailing footer, and take the directory
/// from `parse`, which is handed the footer payload. Does not decode blob payloads (that is each
/// codec's job).
pub fn read_puffin<'a, F: FnOnce(&'a [u8]) -> Result<FileMetadata, String>>(
    data: &'a [u8],
    parse: F,
) -> (r: Result<PuffinFile<'a>, PuffinError>)
    requires
        forall|p: &'a [u8]| call_requires(parse, (p,)),
    ensures
        match payload_of(data@) {
            Err(e) => r matches Err(f) && f == e,
            Ok(payload) => exists|p: &'a [u8], parsed: Result<FileMetadata, String>|
                p@ == payload && #[trigger] call_ensures(parse, (p,), parsed) && read_as(
                    data@,
                    parsed,
                    r,
                ),
        },
{
    match footer_payload(data) {
        Err(e) => Err(e),
        Ok(p) => {
            let parsed: Result<FileMetadata, String> = parse(p);
            proof {
                assert(call_ensures(parse, (p,), parsed));
            }
            open_parsed(data, parsed)
        },
    }
}

/// The payload bytes of an entry; none where they do not lie within the file.
pub open spec fn blob_at(data: Seq<u8>, m: MetadataModel) -> Option<Seq<u8>> {
    if m.offset < 0 || m.length < 0 || m.offset + m.length > data.len() {
        None
    } else {
        Some(data.subrange(m.offset as int, m.offset + m.length))
    }
}

/// The first entry of a type.
pub open spec fn first_typed(ms: Seq<MetadataModel>, blob_type: Seq<char>) -> Option<
    MetadataModel,
>
    decreases ms.len(),
{
    if ms.len() == 0 {
        None
    } else if ms[0].blob_type == blob_type {
        Some(ms[0])
    } else {
        first_typed(ms.drop_first(), blob_type)
    }
}

impl<'a> PuffinFile<'a> {
    /// The raw payload bytes of a blob, bounds-checked against the file.
    pub fn blob_bytes(&self, m: &BlobMetadata) -> (r: Result<&'a [u8], PuffinError>)
        ensures
            match r {
                Ok(b) => blob_at(self.data@, m@) == Some(b@),
                Err(e) => blob_at(self.data@, m@) is None && e == PuffinError::BlobOutOfBounds,
            },
    {
        if m.offset < 0 || m.length < 0 {
            return Err(PuffinError::BlobOutOfBounds);
        }
        let end: u128 = m.offset as u128 + m.length as u128;
        if end > self.data.len() as u128 {
            return Err(PuffinError::BlobOutOfBounds);
        }
        Ok(vstd::slice::slice_subrange(self.data, m.offset as usize, end as usize))
    }

    /// Find the first blob of a given type.
    pub fn first_of_type(&self, blob_type: &str) -> (r: Option<&BlobMetadata>)
        ensures
            match r {
                Some(m) => first_typed(metadata_models(self.blobs@), blob_type@) == Some(m@),
                None => first_typed(metadata_models(self.blobs@), blob_type@) is None,
            },
    {
        let wanted: String = blob_type.to_owned();
        let ghost all = metadata_models(self.blobs@);
        let mut i: usize = 0;
        proof {
            assert(all.skip(0) =~= all);
        }
        while i < self.blobs.len()
            invariant
                i <= self.blobs@.len(),
                wanted@ == blob_type@,
                all == metadata_models(self.blobs@),
                first_typed(all, blob_type@) == first_typed(all.skip(i as int), blob_type@),
            decreases self.blobs@.len() - i,
        {
            proof {
                assert(all.skip(i as int)[0] == self.blobs@[i as int]@);
                assert(all.skip(i as int).drop_first() =~= all.skip(i + 1));
            }
            if self.blobs[i].blob_type == wanted {
                return Some(&self.blobs[i]);
            }
            i = i + 1;
        }
        None
    }
}

/// A written file reads back: its frame is valid and hands out the footer payload it was
/// framed around (whose size is stored in four signed bytes).
pub proof fn law_written_footer_reads_back(blobs: Seq<BlobToWrite>, payload: Seq<u8>)
    requires
        payload.len() <= i32::MAX,
    ensures
        payload_of(framed(blobs, payload)) == Ok::<Seq<u8>, PuffinError>(payload),
{
    let d = framed(blobs, payload);
    let all = body(blobs, blobs.len() as int);
    let size = payload.len() as int;
    let n = d.len() as int;
    bytes::lemma_le_bytes_len(size, 4);
    bytes::lemma_pow256_values();
    reveal_with_fuel(bytes::pow256, 4);
    bytes::lemma_le_signed_inverse(size, 4);
    assert(d.subrange(0, 4) =~= MAGIC@);
    assert(d.subrange(n - 4, n) =~= MAGIC@);
    assert(d.subrange(n - 12, n - 8) =~= bytes::le_bytes(size, 4));
    assert(d.subrange(n - 16 - size, n - 12 - size) =~= MAGIC@);
    assert(d.subrange(n - 12 - size, n - 12) =~= payload);
}

/// A written file gives back each blob: the directory entry of a blob locates the bytes that
/// were written.
pub proof fn law_written_blobs_read_back(blobs: Seq<BlobToWrite>, payload: Seq<u8>, i: int)
    requires
        offsets_fit(blobs),
        0 <= i < blobs.len(),
    ensures
        blob_at(framed(blobs, payload), directory(blobs)[i]) == Some(blobs[i].data@),
{
    let d = framed(blobs, payload);
    let start = 4 + body(blobs, i).len() as int;
    let len = blobs[i].data@.len() as int;
    lemma_body_grows(blobs, i);
    lemma_body_holds(blobs, blobs.len() as int, i);
    let all = body(blobs, blobs.len() as int);
    assert(d.subrange(start, start + len) =~= all.subrange(start - 4, start - 4 + len));
}

proof fn lemma_body_holds(blobs: Seq<BlobToWrite>, n: int, i: int)
    requires
        0 <= i < n <= blobs.len(),
    ensures
        body(blobs, i).len() + blobs[i].data@.len() <= body(blobs, n).len(),
        body(blobs, n).subrange(
            body(blobs, i).len() as int,
            body(blobs, i).len() as int + blobs[i].data@.len(),
        ) == blobs[i].data@,
    decreases n,
{
    let from = body(blobs, i).len() as int;
    let to = from + blobs[i].data@.len();
    if i < n - 1 {
        lemma_body_holds(blobs, n - 1, i);
        assert(body(blobs, n).subrange(from, to) =~= body(blobs, n - 1).subrange(from, to));
    } else {
        assert(body(blobs, n).subrange(from, to) =~= blobs[i].data@);
    }
}

/// What a read gives back of a write: where the reader's parser gives the directory back from the
/// footer payload, the file opens, its directory is that of the blobs written, and each entry
/// locates the bytes of its blob.
pub proof fn law_written_file_reads_back<'a>(
    blobs: Seq<BlobToWrite>,
    payload: Seq<u8>,
    parsed: FileMetadata,
    r: Result<PuffinFile<'a>, PuffinError>,
    i: int,
)
    requires
        offsets_fit(blobs),
        payload.len() <= i32::MAX,
        metadata_models(parsed.blobs@) == directory(blobs),
        read_as(framed(blobs, payload), Ok(parsed), r),
        0 <= i < blobs.len(),
    ensures
        payload_of(framed(blobs, payload)) == Ok::<Seq<u8>, PuffinError>(payload),
        r matches Ok(file) && metadata_models(file.blobs@) == directory(blobs) && blob_at(
            file.data@,
            file.blobs@[i]@,
        ) == Some(blobs[i].data@),
{
    law_written_footer_reads_back(blobs, payload);
    law_written_blobs_read_back(blobs, payload, i);
    assert(metadata_models(parsed.blobs@).len() == parsed.blobs@.len());
    assert(directory(blobs).len() == blobs.len());
    assert(metadata_models(parsed.blobs@)[i] == parsed.blobs@[i]@);
}

/// A zone map stored as a blob comes back from the file.
pub proof fn law_stored_zone_map_reads_back(
    blobs: Seq<BlobToWrite>,
    payload: Seq<u8>,
    i: int,
    zs: Seq<ZoneModel>,
    types: Map<i32, IcebergType>,
)
    requires
        offsets_fit(blobs),
        0 <= i < blobs.len(),
        blobs[i].data@ == zonemap::zone_map_bytes(zs, types),
        zonemap::storable(zs, types),
    ensures
        blob_at(framed(blobs, payload), directory(blobs)[i]) matches Some(b)
            && zonemap::parse_zone_map(b, types) == Ok::<Seq<ZoneModel>, ZoneMapError>(zs),
{
    law_written_blobs_read_back(blobs, payload, i);
    zonemap::law_zone_map_round_trip(zs, types, Seq::empty());
}

/// Whether the four bytes `PFA1` stand at a position.
pub open spec fn marks(d: Seq<u8>, p: int) -> bool {
    &&& 0 <= p
    &&& p + 4 <= d.len()
    &&& d[p] == 0x50 && d[p + 1] == 0x46 && d[p + 2] == 0x41 && d[p + 3] == 0x31
}

proof fn lemma_marks(d: Seq<u8>, p: int)
    requires
        0 <= p,
        p + 4 <= d.len(),
    ensures
        magic_at(d, p) <==> marks(d, p),
{
    let s = d.subrange(p, p + 4);
    assert(s[0] == d[p] && s[1] == d[p + 1] && s[2] == d[p + 2] && s[3] == d[p + 3]);
    assert(MAGIC@[0] == 0x50 && MAGIC@[1] == 0x46 && MAGIC@[2] == 0x41 && MAGIC@[3] == 0x31);
    if marks(d, p) {
        assert(s =~= MAGIC@);
    }
}

/// How a file is framed: the magic, the bytes of the blobs one behind the other, the magic, the
/// footer payload, its size in four bytes low byte first, four flag bytes of 0, the magic.
#[verifier::rlimit(40)]
pub proof fn law_files_are_framed(blobs: Seq<BlobToWrite>, payload: Seq<u8>)
    ensures
        ({
            let d = framed(blobs, payload);
            let n = d.len() as int;
            let size = payload.len() as int;
            let all = body(blobs, blobs.len() as int).len() as int;
            &&& n == 4 + all + 4 + size + 12
            &&& marks(d, 0)
            &&& d.subrange(4, 4 + all) == body(blobs, blobs.len() as int)
            &&& marks(d, 4 + all)
            &&& d.subrange(8 + all, 8 + all + size) == payload
            &&& bytes::spells_at(d, n - 12, 4, size)
            &&& d[n - 8] == 0 && d[n - 7] == 0 && d[n - 6] == 0 && d[n - 5] == 0
            &&& marks(d, n - 4)
        }),
{
    let d = framed(blobs, payload);
    let all = body(blobs, blobs.len() as int);
    let size = payload.len() as int;
    let p = all.len() as int;
    let magic = MAGIC@;
    let count = bytes::le_bytes(size, 4);
    let flags = seq![0u8, 0u8, 0u8, 0u8];
    bytes::lemma_le_bytes_len(size, 4);
    assert(magic.len() == 4);
    assert(d.subrange(0, d.len() as int) =~= d);
    bytes::lemma_stands_split(d, 0, magic + all + magic + payload + count + flags, magic);
    bytes::lemma_stands_split(d, 0, magic + all + magic + payload + count, flags);
    bytes::lemma_stands_split(d, 0, magic + all + magic + payload, count);
    bytes::lemma_stands_split(d, 0, magic + all + magic, payload);
    bytes::lemma_stands_split(d, 0, magic + all, magic);
    bytes::lemma_stands_split(d, 0, magic, all);
    lemma_marks(d, 0);
    lemma_marks(d, 4 + p);
    lemma_marks(d, 16 + p + size);
    bytes::lemma_stands_spells(d, 8 + p + size, size, 4);
    let tail = d.subrange(12 + p + size, 16 + p + size);
    assert(tail[0] == 0 && tail[1] == 0 && tail[2] == 0 && tail[3] == 0);
}

/// The directory lists the blobs in order: each entry has the type, fields, snapshot, sequence
/// number and properties of its blob, no compression, the blob's length, and an offset right
/// behind the blob before, the first at 4.
pub proof fn law_directory_lists_the_blobs(blobs: Seq<BlobToWrite>, i: int)
    requires
        offsets_fit(blobs),
        0 <= i < blobs.len(),
    ensures
        directory(blobs).len() == blobs.len(),
        directory(blobs)[i].blob_type == blobs[i].blob_type@,
        directory(blobs)[i].fields == blobs[i].fields@,
        directory(blobs)[i].snapshot_id == blobs[i].snapshot_id,
        directory(blobs)[i].sequence_number == blobs[i].sequence_number,
        directory(blobs)[i].length == blobs[i].data@.len(),
        directory(blobs)[i].compression_codec is None,
        blobs[i].properties is None ==> directory(blobs)[i].properties is None,
        blobs[i].properties matches Some(m) ==> directory(blobs)[i].properties == Some(m@),
        directory(blobs)[0].offset == 4,
        i + 1 < blobs.len() ==> directory(blobs)[i + 1].offset == directory(blobs)[i].offset
            + directory(blobs)[i].length,
{
    lemma_body_grows(blobs, i);
    lemma_body_grows(blobs, 0);
    if i + 1 < blobs.len() {
        lemma_body_grows(blobs, i + 1);
        assert(body(blobs, i + 1) == body(blobs, i) + blobs[i].data@);
    }
}

/// What opens: the magic, anything, the magic, a payload, its size, four flag bytes of which the
/// first is even, the magic. The payload is what is between.
#[verifier::rlimit(40)]
pub proof fn law_framed_payloads_are_found(
    before: Seq<u8>,
    payload: Seq<u8>,
    flags: Seq<u8>,
    d: Seq<u8>,
)
    requires
        flags.len() == 4,
        flags[0] % 2 == 0,
        payload.len() <= i32::MAX,
        d == seq![0x50u8, 0x46, 0x41, 0x31] + before + seq![0x50u8, 0x46, 0x41, 0x31] + payload
            + bytes::le_bytes(payload.len() as int, 4) + flags + seq![0x50u8, 0x46, 0x41, 0x31],
    ensures
        payload_of(d) == Ok::<Seq<u8>, PuffinError>(payload),
{
    let size = payload.len() as int;
    let n = d.len() as int;
    bytes::lemma_le_bytes_len(size, 4);
    bytes::lemma_pow256_values();
    reveal_with_fuel(bytes::pow256, 4);
    bytes::lemma_le_signed_inverse(size, 4);
    let magic = seq![0x50u8, 0x46, 0x41, 0x31];
    assert(MAGIC@ =~= magic);
    assert(d.subrange(0, 4) =~= magic);
    assert(d.subrange(n - 4, n) =~= magic);
    assert(d.subrange(n - 8, n - 4) =~= flags);
    assert(d[n - 8] == d.subrange(n - 8, n - 4)[0]);
    assert(d.subrange(n - 12, n - 8) =~= bytes::le_bytes(size, 4));
    assert(d.subrange(n - 16 - size, n - 12 - size) =~= magic);
    assert(d.subrange(n - 12 - size, n - 12) =~= payload);
}

/// How a file is judged, by its ends. With fewer than twenty bytes it is truncated; without the
/// magic at both ends it is no such file; with the lowest flag bit set its footer is compressed;
/// with a footer size that is negative or more than the file has room for it is truncated; without
/// the magic before the footer it is no such file. Any other opens, and its payload is the bytes
/// of that size before the size.
pub proof fn law_files_are_judged_by_their_ends(d: Seq<u8>, size: i32)
    requires
        d.len() >= 12 ==> bytes::spells_at(d, d.len() - 12, 4, size as int),
    ensures
        d.len() < 20 ==> payload_of(d) == Err::<Seq<u8>, PuffinError>(PuffinError::Truncated),
        d.len() >= 20 ==> payload_of(d) == (if !marks(d, 0) || !marks(d, d.len() - 4) {
            Err::<Seq<u8>, PuffinError>(PuffinError::BadMagic)
        } else if d[d.len() - 8] & 1 == 1 {
            Err(PuffinError::CompressedFooter)
        } else if size < 0 || size > d.len() - 20 {
            Err(PuffinError::Truncated)
        } else if !marks(d, d.len() - 16 - size) {
            Err(PuffinError::BadMagic)
        } else {
            Ok(d.subrange(d.len() - 12 - size, d.len() - 12))
        }),
{
    let n = d.len() as int;
    if n >= 20 {
        lemma_marks(d, 0);
        lemma_marks(d, n - 4);
        let flag = d[n - 8];
        assert(flag & 1 == 1 <==> flag % 2 == 1) by (bit_vector);
        bytes::lemma_read_signed_spelled(d, n - 12, size);
        if 0 <= size <= n - 20 {
            lemma_marks(d, n - 16 - size);
        }
    }
}

/// A blob is the bytes that its entry locates: as many as its length, behind as many as its
/// offset. An entry that reaches beyond the file, or counts below 0, locates none.
pub proof fn law_entries_locate_their_bytes(
    before: Seq<u8>,
    blob: Seq<u8>,
    after: Seq<u8>,
    m: MetadataModel,
    d: Seq<u8>,
)
    ensures
        m.offset == before.len() && m.length == blob.len() ==> blob_at(before + blob + after, m)
            == Some(blob),
        blob_at(d, m) is None <==> m.offset < 0 || m.length < 0 || m.offset + m.length > d.len(),
{
    if m.offset == before.len() && m.length == blob.len() {
        assert((before + blob + after).subrange(
            m.offset as int,
            m.offset + m.length,
        ) =~= blob);
    }
}

/// The entry of a type is the first that has it; where none has it there is none.
pub proof fn law_first_entry_has_the_type(
    ms: Seq<MetadataModel>,
    blob_type: Seq<char>,
    i: int,
)
    requires
        0 <= i <= ms.len(),
        forall|k: int| 0 <= k < i ==> (#[trigger] ms[k]).blob_type != blob_type,
        i < ms.len() ==> ms[i].blob_type == blob_type,
    ensures
        i < ms.len() ==> first_typed(ms, blob_type) == Some(ms[i]),
        i == ms.len() ==> first_typed(ms, blob_type) is None,
    decreases ms.len(),
{
    if i > 0 {
        let rest = ms.drop_first();
        assert(ms[0].blob_type != blob_type);
        assert forall|k: int| 0 <= k < i - 1 implies (#[trigger] rest[k]).blob_type
            != blob_type by {
            assert(rest[k] == ms[k + 1]);
        }
        law_first_entry_has_the_type(rest, blob_type, i - 1);
    }
}

/// An error says what is wrong with the file; one of the parser is passed on word for word.
pub proof fn law_errors_pass_on_the_parsers_words(words: String)
    ensures
        text::names(
            error_words(PuffinError::Json(words)),
            "invalid footer JSON: "@,
            words@,
            Seq::empty(),
        ),
        error_words(PuffinError::BadMagic) == "not a Puffin file: bad magic (expected PFA1)"@,
        error_words(PuffinError::Truncated) == "truncated Puffin file"@,
        error_words(PuffinError::CompressedFooter)
            == "footer payload is compressed; not supported in v1"@,
        error_words(PuffinError::BlobOutOfBounds) == "blob bytes out of bounds"@,
{
    let head = "invalid footer JSON: "@;
    let none = Seq::<char>::empty();
    text::lemma_names(head, words@, none);
    assert(head + words@ + none =~= head + words@);
}

/// The footer payload of a framed file is the one that it was framed with.
pub proof fn law_framed_files_give_their_payload<'a>(
    blobs: &[BlobToWrite],
    payload: &[u8],
    file: Vec<u8>,
    data: &'a [u8],
    r: Result<&'a [u8], PuffinError>,
)
    requires
        call_ensures(frame, (blobs, payload), file),
        data@ == file@,
        call_ensures(footer_payload, (data,), r),
        payload@.len() <= i32::MAX,
    ensures
        r matches Ok(p) && p@ == payload@,
{
    law_written_footer_reads_back(blobs@, payload@);
}

/// What the parser says decides: its directory and properties are those of the file, whose bytes
/// are kept as they are; its error is the file's.
pub proof fn law_parsed_footers_open<'a>(
    data: &'a [u8],
    parsed: Result<FileMetadata, String>,
    r: Result<PuffinFile<'a>, PuffinError>,
)
    requires
        call_ensures(open_parsed, (data, parsed), r),
    ensures
        parsed matches Ok(m) ==> (r matches Ok(f) && f.data@ == data@ && f.blobs@ == m.blobs@ && (
        m.properties matches Some(p) ==> f.properties@ == p@) && (m.properties is None
            ==> f.properties@ == Map::<String, String>::empty())),
        parsed matches Err(words) ==> (r matches Err(PuffinError::Json(s)) && s@ == words@),
{
}

} // verus!
