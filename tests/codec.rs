use osm_pbf::blob::{check_inflated, classify_kind, BlockKind};
use osm_pbf::encode::{write_bytes_field, write_varint, write_varint_field};
use osm_pbf::entities::{decode_string_table, resolve_tags};
use osm_pbf::wire::{decode_zigzag, parse_fields, read_varint, Field, WireValue};
use osm_pbf::{
    as_vec_dense_nodes, into_vec_ways, iter_dense_nodeses, iter_nodes, read_osm_pbf_blob,
    write_osm_pbf_blob, Blob, BlobData, BlobHeader, DenseNodes, FileBlock, HeaderBlock, OsmError,
    PrimitiveBlock,
};

fn table_block(strings: &[&[u8]], extra: &[u8]) -> Vec<u8> {
    let mut table = Vec::new();
    for s in strings {
        write_bytes_field(&mut table, 1, s);
    }
    let mut block = Vec::new();
    write_bytes_field(&mut block, 1, &table);
    block.extend_from_slice(extra);
    block
}

fn data_blob(block: &[u8]) -> BlobData {
    BlobData::serialize(&FileBlock::Primitive(PrimitiveBlock::parse(block.to_vec()).unwrap()))
        .unwrap()
}

#[test]
fn varint_values() {
    assert_eq!(read_varint(&[0xAC, 0x02], 0), Some((300, 2)));
    assert_eq!(read_varint(&[0x00, 0x7f], 1), Some((127, 2)));
    assert_eq!(read_varint(&[0x80], 0), None);
    assert_eq!(read_varint(&[0xff; 11], 0), None);
    let max = [0xff, 0xff, 0xff, 0xff, 0xff, 0xff, 0xff, 0xff, 0xff, 0x01];
    assert_eq!(read_varint(&max, 0), Some((u64::MAX, 10)));
    let over = [0xff, 0xff, 0xff, 0xff, 0xff, 0xff, 0xff, 0xff, 0xff, 0x02];
    assert_eq!(read_varint(&over, 0), None);
}

#[test]
fn varint_writes_shortest_form() {
    let mut out = vec![9u8];
    write_varint(&mut out, 300);
    assert_eq!(out, vec![9, 0xAC, 0x02]);
    let mut big = Vec::new();
    write_varint(&mut big, u64::MAX);
    assert_eq!(read_varint(&big, 0), Some((u64::MAX, 10)));
}

#[test]
fn zigzag_values() {
    assert_eq!(decode_zigzag(0), 0);
    assert_eq!(decode_zigzag(1), -1);
    assert_eq!(decode_zigzag(4), 2);
    assert_eq!(decode_zigzag(3), -2);
    assert_eq!(decode_zigzag(u64::MAX), i64::MIN);
}

#[test]
fn fields_split() {
    let mut msg = Vec::new();
    write_varint_field(&mut msg, 3, 150);
    write_bytes_field(&mut msg, 1, b"ab");
    let fs = parse_fields(&msg).unwrap();
    assert_eq!(
        fs,
        vec![
            Field { number: 3, value: WireValue::Varint(150) },
            Field { number: 1, value: WireValue::Bytes(5, 7) },
        ]
    );
    assert_eq!(parse_fields(&[0x08]), None);
    assert_eq!(parse_fields(&[0x0b]), None);
}

#[test]
fn kinds() {
    assert_eq!(classify_kind(b"OSMHeader"), BlockKind::Header);
    assert_eq!(classify_kind(b"OSMData"), BlockKind::Data);
    assert_eq!(classify_kind(b"OSMDat"), BlockKind::Unknown);
}

#[test]
fn compressed_payload_is_not_the_record() {
    let block = table_block(&[b"", b"aaaaaaaaaaaaaaaaaaaaaaaaaaaaaaaaaaaaaaaa"], &[]);
    let bd = data_blob(&block);
    let z = bd.blob.zlib_data.clone().unwrap();
    assert_ne!(z, block);
    assert_eq!(bd.blob.payload().unwrap(), block);
    assert_eq!(bd.header.kind, b"OSMData".to_vec());
}

#[test]
fn raw_payload_passes_through() {
    let blob = Blob { raw: Some(vec![1, 2, 3]), raw_size: None, zlib_data: None };
    assert_eq!(blob.payload().unwrap(), vec![1, 2, 3]);
}

#[test]
fn check_inflated_results() {
    assert_eq!(check_inflated(Some(vec![1, 2]), 2), Ok(vec![1, 2]));
    assert_eq!(check_inflated(Some(vec![1, 2]), 3), Err(OsmError::SizeMismatch));
    assert_eq!(check_inflated(Some(vec![]), -1), Err(OsmError::SizeMismatch));
    assert_eq!(check_inflated(None, 0), Err(OsmError::DecompressionFailed));
}

#[test]
fn error_unsupported_encoding() {
    let blob = Blob { raw: None, raw_size: Some(3), zlib_data: None };
    assert_eq!(blob.payload().unwrap_err(), OsmError::UnsupportedEncoding);
    let mut bd = data_blob(&table_block(&[b""], &[]));
    bd.header.kind = b"OSMIndex".to_vec();
    assert_eq!(bd.deserialize().unwrap_err(), OsmError::UnsupportedEncoding);
}

#[test]
fn error_size_limit_on_declared_raw_size() {
    let blob = Blob { raw: None, raw_size: Some(32 * 1024 * 1024), zlib_data: Some(vec![0x78]) };
    assert_eq!(blob.payload().unwrap_err(), OsmError::SizeLimitExceeded);
}

#[test]
fn error_decompression_failed() {
    let blob = Blob { raw: None, raw_size: Some(3), zlib_data: Some(vec![1, 2, 3]) };
    assert_eq!(blob.payload().unwrap_err(), OsmError::DecompressionFailed);
}

#[test]
fn error_offsets_not_supported() {
    let mut extra = Vec::new();
    write_varint_field(&mut extra, 19, 5);
    let bd = data_blob(&table_block(&[b""], &extra));
    assert_eq!(bd.deserialize().unwrap_err(), OsmError::SchemaViolation);
}

#[test]
fn error_missing_string_table() {
    assert_eq!(PrimitiveBlock::parse(vec![]).unwrap_err(), OsmError::SchemaViolation);
}

#[test]
fn error_unequal_dense_columns() {
    let set = DenseNodes { id: vec![1, 1], lat: vec![1], lon: vec![1, 1], keys_vals: vec![] };
    assert_eq!(as_vec_dense_nodes(&set).unwrap_err(), OsmError::SchemaViolation);
}

#[test]
fn error_delta_overflow() {
    let set = DenseNodes { id: vec![i64::MAX, 1], lat: vec![0, 0], lon: vec![0, 0], keys_vals: vec![] };
    assert_eq!(as_vec_dense_nodes(&set).unwrap_err(), OsmError::SchemaViolation);
    assert_eq!(osm_pbf::delta::decode_deltas(&[i64::MIN, -1]).unwrap_err(), OsmError::SchemaViolation);
}

#[test]
fn error_tag_index_out_of_range() {
    let strings = vec!["a".to_string()];
    assert_eq!(resolve_tags(&[0], &[1], &strings).unwrap_err(), OsmError::SchemaViolation);
    assert_eq!(resolve_tags(&[0, 0], &[0], &strings).unwrap_err(), OsmError::SchemaViolation);
    assert_eq!(resolve_tags(&[], &[], &strings).unwrap(), vec![]);
}

#[test]
fn error_invalid_utf8_string() {
    assert_eq!(decode_string_table(&vec![vec![0xff]]).unwrap_err(), OsmError::SchemaViolation);
    assert_eq!(
        decode_string_table(&vec![b"ok".to_vec(), "é".as_bytes().to_vec()]).unwrap(),
        vec!["ok".to_string(), "é".to_string()]
    );
    let block = PrimitiveBlock::parse(table_block(&[&[0xc3]], &[])).unwrap();
    assert_eq!(into_vec_ways(block).unwrap_err(), OsmError::SchemaViolation);
}

#[test]
fn plain_nodes_and_dense_sets() {
    let mut node = Vec::new();
    write_varint_field(&mut node, 1, 14);
    write_varint_field(&mut node, 8, 3);
    write_varint_field(&mut node, 9, 4);
    let mut group = Vec::new();
    write_bytes_field(&mut group, 1, &node);
    let mut extra = Vec::new();
    write_bytes_field(&mut extra, 2, &group);
    let block = PrimitiveBlock::parse(table_block(&[b""], &extra)).unwrap();
    let nodes = iter_nodes(&block);
    assert_eq!(nodes.len(), 1);
    assert_eq!((nodes[0].id, nodes[0].lat, nodes[0].lon), (7, -2, 2));
    let sets = iter_dense_nodeses(&block);
    assert_eq!(sets.len(), 1);
    assert!(sets[0].is_none());
    assert_eq!(block.granularity(), 100);
    assert_eq!(block.date_granularity(), 1000);
    assert_eq!(block.lat_offset(), 0);
    assert_eq!(block.primitivegroup().len(), 1);
}

#[test]
fn header_block_round_trip() {
    let mut meta = Vec::new();
    write_bytes_field(&mut meta, 4, b"OsmSchema-V0.6");
    let bd = BlobData::serialize(&FileBlock::Header(HeaderBlock::parse(meta.clone()).unwrap())).unwrap();
    assert_eq!(bd.header.kind, b"OSMHeader".to_vec());
    match bd.deserialize().unwrap() {
        FileBlock::Header(h) => assert_eq!(h.bytes(), &meta),
        FileBlock::Primitive(_) => panic!("expected a header block"),
    }
}

#[test]
fn frame_layout() {
    let bd = data_blob(&table_block(&[b""], &[]));
    let mut out = Vec::new();
    write_osm_pbf_blob(&bd, &mut out).unwrap();
    let header_len = u32::from_be_bytes([out[0], out[1], out[2], out[3]]) as usize;
    let header = BlobHeader::parse(&out[4..4 + header_len]).unwrap();
    assert_eq!(header.kind, b"OSMData".to_vec());
    assert_eq!(header.datasize as usize, out.len() - 4 - header_len);
    let (back, end) = read_osm_pbf_blob(&out, 0).unwrap().unwrap();
    assert_eq!(end, out.len());
    assert_eq!(back.blob.zlib_data, bd.blob.zlib_data);
    assert_eq!(back.blob.raw_size, bd.blob.raw_size);
    assert!(read_osm_pbf_blob(&out, out.len()).unwrap().is_none());
}

#[test]
fn error_negative_datasize() {
    let mut header = Vec::new();
    write_bytes_field(&mut header, 1, b"OSMData");
    write_varint_field(&mut header, 3, (-1i64) as u64);
    let mut stream = (header.len() as u32).to_be_bytes().to_vec();
    stream.extend(header);
    assert_eq!(read_osm_pbf_blob(&stream, 0).unwrap_err(), OsmError::SchemaViolation);
}

#[test]
fn one_dense_entry_per_group() {
    let mut dense = Vec::new();
    let mut ids = Vec::new();
    write_varint(&mut ids, 2);
    write_bytes_field(&mut dense, 1, &ids);
    let mut with_dense = Vec::new();
    write_bytes_field(&mut with_dense, 2, &dense);
    let mut extra = Vec::new();
    write_bytes_field(&mut extra, 2, &[]);
    write_bytes_field(&mut extra, 2, &with_dense);
    let block = PrimitiveBlock::parse(table_block(&[b""], &extra)).unwrap();
    let sets = iter_dense_nodeses(&block);
    assert_eq!(sets.len(), 2);
    assert!(sets[0].is_none());
    assert_eq!(sets[1].unwrap().id, vec![1]);
}
