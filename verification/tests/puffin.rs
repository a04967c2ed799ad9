//! The Puffin container.
use std::collections::BTreeMap;

use karma::puffin::{blob_directory, footer_payload, frame, FileMetadata, MAGIC};
use karma::{read_puffin, surviving_zones, write_puffin, BlobMetadata, BlobToWrite, ColumnStats, ColumnTypes, IcebergType, Predicate, PuffinError, Value, ZoneMap, ZoneStats, ZONEMAP_BLOB_TYPE};
use serde_json::Value as Json;

fn properties_json(p: &BTreeMap<String, String>) -> Json {
    Json::Object(p.iter().map(|(k, v)| (k.clone(), Json::from(v.as_str()))).collect())
}

fn to_json(m: &FileMetadata) -> Vec<u8> {
    let mut blobs = Vec::new();
    for b in &m.blobs {
        let mut o = serde_json::Map::new();
        o.insert("type".into(), Json::from(b.blob_type.as_str()));
        o.insert("fields".into(), Json::from(b.fields.clone()));
        o.insert("snapshot-id".into(), Json::from(b.snapshot_id));
        o.insert("sequence-number".into(), Json::from(b.sequence_number));
        o.insert("offset".into(), Json::from(b.offset));
        o.insert("length".into(), Json::from(b.length));
        if let Some(p) = &b.properties {
            o.insert("properties".into(), properties_json(p));
        }
        blobs.push(Json::Object(o));
    }
    let mut o = serde_json::Map::new();
    o.insert("blobs".into(), Json::Array(blobs));
    if let Some(p) = &m.properties {
        o.insert("properties".into(), properties_json(p));
    }
    Json::Object(o).to_string().into_bytes()
}

fn properties_from(v: Option<&Json>) -> Option<BTreeMap<String, String>> {
    v.map(|p| p.as_object().unwrap().iter().map(|(k, v)| (k.clone(), v.as_str().unwrap().to_string())).collect())
}

fn from_json(payload: &[u8]) -> Result<FileMetadata, String> {
    let v: Json = serde_json::from_slice(payload).map_err(|e| e.to_string())?;
    let blobs = v["blobs"]
        .as_array()
        .ok_or("no blobs")?
        .iter()
        .map(|b| BlobMetadata {
            blob_type: b["type"].as_str().unwrap().to_string(),
            fields: b["fields"].as_array().unwrap().iter().map(|f| f.as_i64().unwrap() as i32).collect(),
            snapshot_id: b["snapshot-id"].as_i64().unwrap(),
            sequence_number: b["sequence-number"].as_i64().unwrap(),
            offset: b["offset"].as_i64().unwrap(),
            length: b["length"].as_i64().unwrap(),
            compression_codec: None,
            properties: properties_from(b.get("properties")),
        })
        .collect();
    Ok(FileMetadata { blobs, properties: properties_from(v.get("properties")) })
}

fn two_blobs() -> Vec<BlobToWrite> {
    vec![
        BlobToWrite {
            blob_type: "karma-zonemap-v1".into(),
            fields: vec![1, 2],
            snapshot_id: -1,
            sequence_number: -1,
            data: b"first-blob-bytes".to_vec(),
            properties: None,
        },
        BlobToWrite {
            blob_type: "karma-bloom-v1".into(),
            fields: vec![3],
            snapshot_id: 7,
            sequence_number: 4,
            data: b"second".to_vec(),
            properties: Some(BTreeMap::from([("k".into(), "v".into())])),
        },
    ]
}

#[test]
fn roundtrip_two_blobs() {
    let bytes = write_puffin(&two_blobs(), None, to_json);

    assert_eq!(&bytes[..4], &MAGIC);
    assert_eq!(&bytes[bytes.len() - 4..], &MAGIC);

    let pf = read_puffin(&bytes, from_json).unwrap();
    assert_eq!(pf.blobs.len(), 2);
    assert_eq!(pf.blob_bytes(&pf.blobs[0]).unwrap(), b"first-blob-bytes");
    assert_eq!(pf.blob_bytes(&pf.blobs[1]).unwrap(), b"second");
    assert_eq!(pf.blobs[0].fields, vec![1, 2]);
    assert_eq!(pf.blobs[1].snapshot_id, 7);
    assert_eq!(pf.first_of_type("karma-bloom-v1").unwrap().fields, vec![3]);
    assert!(pf.first_of_type("other").is_none());
    assert!(pf.properties.is_empty());
}

#[test]
fn rejects_non_puffin() {
    assert!(matches!(read_puffin(b"not a puffin file!!!", from_json), Err(PuffinError::BadMagic)));
    assert!(matches!(read_puffin(b"tiny", from_json), Err(PuffinError::Truncated)));
}

fn build_zone_map() -> ZoneMap {
    let zone = |zone_id: u32, row_offset: u64, min: i64, max: i64| ZoneStats {
        zone_id,
        row_offset,
        row_count: 1024,
        columns: vec![ColumnStats { field_id: 42, min: Value::I64(min), max: Value::I64(max), null_count: 0, value_count: 1024 }],
    };
    ZoneMap::new(vec![zone(0, 0, 0, 999), zone(1, 1024, 5000, 6000)])
}

#[test]
fn write_read_prune_full_loop() {
    let zm = build_zone_map();
    let types = ColumnTypes::from([(42, IcebergType::Long)]);
    let file = write_puffin(
        &[BlobToWrite {
            blob_type: ZONEMAP_BLOB_TYPE.into(),
            fields: vec![42],
            snapshot_id: -1,
            sequence_number: -1,
            data: zm.encode(&types),
            properties: None,
        }],
        None,
        to_json,
    );
    let pf = read_puffin(&file, from_json).unwrap();
    let meta = pf.first_of_type(ZONEMAP_BLOB_TYPE).expect("zone-map blob present");
    assert_eq!(meta.fields, vec![42]);
    let decoded = ZoneMap::decode(pf.blob_bytes(meta).unwrap(), &types).unwrap();
    assert_eq!(decoded, zm);
    assert_eq!(surviving_zones(&decoded, &Predicate::Gt(42, Value::I64(4000))), vec![1]);
    assert_eq!(surviving_zones(&decoded, &Predicate::Eq(42, Value::I64(500))), vec![0]);
    assert_eq!(surviving_zones(&decoded, &Predicate::Eq(42, Value::I64(4500))), Vec::<u32>::new());
}

#[test]
fn the_frame_byte_for_byte() {
    let bytes = frame(&two_blobs(), b"{}");
    let mut want = b"PFA1first-blob-bytessecondPFA1{}".to_vec();
    want.extend_from_slice(&2i32.to_le_bytes());
    want.extend_from_slice(&[0; 4]);
    want.extend_from_slice(b"PFA1");
    assert_eq!(bytes, want);
    assert_eq!(footer_payload(&bytes).unwrap(), b"{}");
    let directory = blob_directory(&two_blobs());
    assert_eq!((directory[0].offset, directory[0].length), (4, 16));
    assert_eq!((directory[1].offset, directory[1].length), (20, 6));
    assert_eq!(directory[1].properties, two_blobs()[1].properties);
    assert_eq!(directory[1].compression_codec, None);
}

#[test]
fn file_properties_come_back() {
    let properties = BTreeMap::from([("created-by".to_string(), "karma".to_string())]);
    let bytes = write_puffin(&[], Some(properties.clone()), to_json);
    let pf = read_puffin(&bytes, from_json).unwrap();
    assert!(pf.blobs.is_empty());
    assert_eq!(pf.properties, properties);
}

#[test]
fn bad_frames() {
    let good = frame(&[], b"{}");
    let n = good.len();
    let with = |at: usize, byte: u8| {
        let mut b = good.clone();
        b[at] = byte;
        b
    };
    assert_eq!(footer_payload(&with(0, 0)), Err(PuffinError::BadMagic));
    assert_eq!(footer_payload(&with(n - 1, 0)), Err(PuffinError::BadMagic));
    assert_eq!(footer_payload(&with(5, 0)), Err(PuffinError::BadMagic));
    assert_eq!(footer_payload(&with(n - 8, 1)), Err(PuffinError::CompressedFooter));
    assert_eq!(footer_payload(&with(n - 8, 2)).unwrap(), b"{}");
    assert_eq!(footer_payload(&with(n - 9, 0x80)), Err(PuffinError::Truncated));
    assert_eq!(footer_payload(&with(n - 12, 200)), Err(PuffinError::Truncated));
    assert_eq!(footer_payload(&good[..19]), Err(PuffinError::Truncated));
    assert!(matches!(read_puffin(&frame(&[], b"nonsense"), from_json), Err(PuffinError::Json(_))));
}

#[test]
fn blob_bounds_are_checked() {
    let bytes = write_puffin(&two_blobs(), None, to_json);
    let pf = read_puffin(&bytes, from_json).unwrap();
    let at = |offset: i64, length: i64| BlobMetadata { offset, length, ..pf.blobs[0].clone() };
    assert_eq!(pf.blob_bytes(&at(0, 4)).unwrap(), b"PFA1");
    assert_eq!(pf.blob_bytes(&at(0, bytes.len() as i64)).unwrap(), &bytes[..]);
    for bad in [at(-1, 2), at(2, -1), at(1, bytes.len() as i64), at(i64::MAX, i64::MAX)] {
        assert_eq!(pf.blob_bytes(&bad), Err(PuffinError::BlobOutOfBounds));
    }
}

#[test]
fn puffin_errors_in_words() {
    assert_eq!(PuffinError::BadMagic.message(), "not a Puffin file: bad magic (expected PFA1)");
    assert_eq!(PuffinError::Truncated.message(), "truncated Puffin file");
    assert_eq!(PuffinError::CompressedFooter.message(), "footer payload is compressed; not supported in v1");
    assert_eq!(PuffinError::Json("eof".into()).message(), "invalid footer JSON: eof");
    assert_eq!(PuffinError::BlobOutOfBounds.message(), "blob bytes out of bounds");
}

#[test]
fn the_footer_has_a_magic_of_its_own() {
    let data = b"PFA1{\"blobs\":[]}\x0c\0\0\0\0\0\0\0PFA1";
    assert_eq!(data.len(), 28);
    assert!(matches!(read_puffin(data, from_json), Err(PuffinError::Truncated)));
    let whole = frame(&[], b"{\"blobs\":[]}");
    assert_eq!(whole.len(), 32);
    assert!(read_puffin(&whole, from_json).unwrap().blobs.is_empty());
}
