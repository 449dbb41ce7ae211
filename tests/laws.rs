use osm_pbf::delta::decode_deltas;
use osm_pbf::encode::{write_bytes_field, write_varint};
use osm_pbf::entities::resolve_tags;
use osm_pbf::{
    as_vec_dense_nodes, block_dense_nodes, into_vec_ways, read_blobs, write_blobs, BlobData,
    DenseNode, DenseNodes, FileBlock, OsmError, PrimitiveBlock,
};

fn zigzag(n: i64) -> u64 {
    ((n << 1) ^ (n >> 63)) as u64
}

fn packed_sint64(num: u64, values: &[i64]) -> Vec<u8> {
    let mut body = Vec::new();
    for &v in values {
        write_varint(&mut body, zigzag(v));
    }
    let mut out = Vec::new();
    write_bytes_field(&mut out, num, &body);
    out
}

fn packed_uint32(num: u64, values: &[u32]) -> Vec<u8> {
    let mut body = Vec::new();
    for &v in values {
        write_varint(&mut body, v as u64);
    }
    let mut out = Vec::new();
    write_bytes_field(&mut out, num, &body);
    out
}

fn dense_group(ids: &[i64], lats: &[i64], lons: &[i64]) -> Vec<u8> {
    let mut dense = packed_sint64(1, ids);
    dense.extend(packed_sint64(8, lats));
    dense.extend(packed_sint64(9, lons));
    let mut group = Vec::new();
    write_bytes_field(&mut group, 2, &dense);
    group
}

fn block_bytes(strings: &[&str], groups: &[Vec<u8>]) -> Vec<u8> {
    let mut table = Vec::new();
    for s in strings {
        write_bytes_field(&mut table, 1, s.as_bytes());
    }
    let mut block = Vec::new();
    write_bytes_field(&mut block, 1, &table);
    for g in groups {
        write_bytes_field(&mut block, 2, g);
    }
    block
}

fn stream_of(block: Vec<u8>) -> Vec<u8> {
    let data = PrimitiveBlock::parse(block).unwrap();
    let bd = BlobData::serialize(&FileBlock::Primitive(data)).unwrap();
    write_blobs(&vec![bd]).unwrap()
}

fn differences(a: &[i64]) -> Vec<i64> {
    let mut out = Vec::new();
    let mut prev = 0i64;
    for &x in a {
        out.push(x - prev);
        prev = x;
    }
    out
}

#[test]
fn delta_round_trip() {
    let absolute = vec![423867550i64, 423867560, -12, 0, 7_000_000_000, 7_000_000_001];
    assert_eq!(decode_deltas(&differences(&absolute)).unwrap(), absolute);
    assert_eq!(decode_deltas(&[]).unwrap(), Vec::<i64>::new());
}

#[test]
fn delta_round_trip_through_dense_rows() {
    let ids = vec![100i64, 105, 103];
    let lats = vec![1i64, -1, 2];
    let lons = vec![-5i64, -6, -7];
    let set = DenseNodes {
        id: differences(&ids),
        lat: differences(&lats),
        lon: differences(&lons),
        keys_vals: vec![],
    };
    let rows = as_vec_dense_nodes(&set).unwrap();
    let got: Vec<(i64, i64, i64)> = rows.iter().map(|n| (n.id, n.lat, n.lon)).collect();
    assert_eq!(got, vec![(100, 1, -5), (105, -1, -6), (103, 2, -7)]);
}

#[test]
fn accumulator_reset_between_sets() {
    let block = block_bytes(
        &[""],
        &[dense_group(&[10, 5], &[1, 1], &[2, 2]), dense_group(&[3, 1], &[7, 1], &[9, 1])],
    );
    let p = PrimitiveBlock::parse(block).unwrap();
    let nodes = block_dense_nodes(&p).unwrap();
    assert_eq!(
        nodes,
        vec![
            DenseNode { id: 10, lat: 1, lon: 2 },
            DenseNode { id: 15, lat: 2, lon: 4 },
            DenseNode { id: 3, lat: 7, lon: 9 },
            DenseNode { id: 4, lat: 8, lon: 10 },
        ]
    );
}

#[test]
fn size_invariant_holds_for_valid_block() {
    let block = block_bytes(&["", "a"], &[dense_group(&[1], &[2], &[3])]);
    let bd = BlobData::serialize(&FileBlock::Primitive(PrimitiveBlock::parse(block.clone()).unwrap()))
        .unwrap();
    assert_eq!(bd.blob.raw_size, Some(block.len() as i32));
    assert_eq!(bd.blob.payload().unwrap(), block);
}

#[test]
fn size_invariant_truncated_compressed_bytes() {
    let block = block_bytes(&["", "a", "b"], &[dense_group(&[1, 2], &[2, 3], &[3, 4])]);
    let mut bd =
        BlobData::serialize(&FileBlock::Primitive(PrimitiveBlock::parse(block).unwrap())).unwrap();
    let mut z = bd.blob.zlib_data.clone().unwrap();
    z.pop();
    bd.blob.zlib_data = Some(z);
    let r = bd.blob.payload();
    assert!(
        r == Err(OsmError::SizeMismatch) || r == Err(OsmError::DecompressionFailed),
        "{:?}",
        r
    );
    assert!(bd.deserialize().is_err());
}

#[test]
fn size_invariant_wrong_declared_size() {
    let block = block_bytes(&[""], &[]);
    let mut bd =
        BlobData::serialize(&FileBlock::Primitive(PrimitiveBlock::parse(block.clone()).unwrap()))
            .unwrap();
    bd.blob.raw_size = Some(block.len() as i32 + 1);
    assert_eq!(bd.blob.payload().unwrap_err(), OsmError::SizeMismatch);
}

#[test]
fn empty_stream_has_no_blocks() {
    assert_eq!(read_blobs(&[]).unwrap().len(), 0);
}

#[test]
fn stream_ending_after_whole_block_ends_cleanly() {
    let stream = stream_of(block_bytes(&[""], &[]));
    assert_eq!(read_blobs(&stream).unwrap().len(), 1);
    let mut two = stream.clone();
    two.extend(stream.iter());
    assert_eq!(read_blobs(&two).unwrap().len(), 2);
}

#[test]
fn stream_ending_inside_block_is_truncated() {
    let stream = stream_of(block_bytes(&[""], &[]));
    assert_eq!(read_blobs(&stream[..stream.len() - 1]).unwrap_err().1, OsmError::Truncated);
    let mut partial_prefix = stream.clone();
    partial_prefix.extend([0u8, 0u8]);
    let (before, e) = read_blobs(&partial_prefix).unwrap_err();
    assert_eq!(e, OsmError::Truncated);
    assert_eq!(before.len(), 1);
}

#[test]
fn tag_resolution_scenario() {
    let strings: Vec<String> =
        ["highway", "residential", "building", "yes"].iter().map(|s| s.to_string()).collect();
    let tags = resolve_tags(&[0, 2], &[1, 3], &strings).unwrap();
    assert_eq!(
        tags,
        vec![
            ("highway".to_string(), "residential".to_string()),
            ("building".to_string(), "yes".to_string()),
        ]
    );
}

#[test]
fn tag_resolution_through_block() {
    let mut way = Vec::new();
    osm_pbf::encode::write_varint_field(&mut way, 1, 42);
    way.extend(packed_uint32(2, &[0, 2]));
    way.extend(packed_uint32(3, &[1, 3]));
    way.extend(packed_sint64(8, &[5, 1, -3]));
    let mut group = Vec::new();
    write_bytes_field(&mut group, 3, &way);
    let block = block_bytes(&["highway", "residential", "building", "yes"], &[group]);
    let ways = into_vec_ways(PrimitiveBlock::parse(block).unwrap()).unwrap();
    assert_eq!(ways.len(), 1);
    assert_eq!(ways[0].way.id, 42);
    assert_eq!(
        ways[0].tags,
        vec![
            ("highway".to_string(), "residential".to_string()),
            ("building".to_string(), "yes".to_string()),
        ]
    );
    assert_eq!(osm_pbf::iter_node_ids(&ways[0].way).unwrap(), vec![5, 6, 3]);
}

#[test]
fn end_to_end_dense_nodes() {
    let block = block_bytes(
        &[""],
        &[dense_group(&[100, 5, -2], &[423867550, 10, 10], &[-710984720, 3, 3])],
    );
    let stream = stream_of(block);
    let blobs = read_blobs(&stream).unwrap();
    assert_eq!(blobs.len(), 1);
    let p = match blobs[0].deserialize().unwrap() {
        FileBlock::Primitive(p) => p,
        FileBlock::Header(_) => panic!("expected a data block"),
    };
    let nodes = block_dense_nodes(&p).unwrap();
    let ids: Vec<i64> = nodes.iter().map(|n| n.id).collect();
    let lats: Vec<i64> = nodes.iter().map(|n| n.lat).collect();
    assert_eq!(ids, vec![100, 105, 103]);
    assert_eq!(lats, vec![423867550, 423867560, 423867570]);
}

#[test]
fn header_size_limit() {
    let stream = [0u8, 1, 0, 0];
    assert_eq!(read_blobs(&stream).unwrap_err().1, OsmError::SizeLimitExceeded);
    let mut longer = vec![0u8, 1, 0, 0];
    longer.extend(vec![0u8; 70000]);
    assert_eq!(read_blobs(&longer).unwrap_err().1, OsmError::SizeLimitExceeded);
    assert_eq!(read_blobs(&[0u8, 0, 0xff, 0xff]).unwrap_err().1, OsmError::Truncated);
}

#[test]
fn tag_lookup_last_pair_wins() {
    let way = osm_pbf::MyWay {
        way: osm_pbf::Way { id: 1, keys: vec![], vals: vec![], refs: vec![] },
        tags: vec![
            ("highway".to_string(), "residential".to_string()),
            ("width".to_string(), "3".to_string()),
            ("highway".to_string(), "primary".to_string()),
        ],
    };
    assert_eq!(way.get_tag(&"highway".to_string()), Some(&"primary".to_string()));
    assert_eq!(way.get_tag(&"width".to_string()), Some(&"3".to_string()));
    assert_eq!(way.get_tag(&"building".to_string()), None);
}

#[test]
fn blocks_before_a_bad_frame_are_returned() {
    let mut stream = stream_of(block_bytes(&["", "x"], &[]));
    stream.extend(stream_of(block_bytes(&["", "y"], &[])));
    stream.extend([0u8, 1, 0, 0]);
    let (before, e) = read_blobs(&stream).unwrap_err();
    assert_eq!(e, OsmError::SizeLimitExceeded);
    assert_eq!(before.len(), 2);
    assert!(before.iter().all(|b| b.deserialize().is_ok()));
}

#[test]
fn serialize_then_deserialize_gives_the_record_back() {
    let block = block_bytes(&["", "a"], &[dense_group(&[4, 1], &[5, 1], &[6, 1])]);
    let bd = BlobData::serialize(&FileBlock::Primitive(PrimitiveBlock::parse(block.clone()).unwrap()))
        .unwrap();
    assert_eq!(bd.header.kind, b"OSMData".to_vec());
    assert_eq!(bd.blob.raw, None);
    assert_eq!(bd.blob.raw_size, Some(block.len() as i32));
    match bd.deserialize().unwrap() {
        FileBlock::Primitive(p) => {
            assert_eq!(p.bytes(), &block);
            assert_eq!(p.stringtable(), &vec![b"".to_vec(), b"a".to_vec()]);
            let nodes = block_dense_nodes(&p).unwrap();
            assert_eq!(nodes[1], DenseNode { id: 5, lat: 6, lon: 7 });
        }
        FileBlock::Header(_) => panic!("expected a data block"),
    }
}

#[test]
fn second_set_starts_from_its_own_deltas() {
    let first = DenseNodes { id: vec![50, 50], lat: vec![9, 9], lon: vec![1, 1], keys_vals: vec![] };
    let second = DenseNodes { id: vec![7, 1], lat: vec![-3, 1], lon: vec![2, 2], keys_vals: vec![] };
    let _ = as_vec_dense_nodes(&first).unwrap();
    let rows = as_vec_dense_nodes(&second).unwrap();
    assert_eq!(rows[0], DenseNode { id: 7, lat: -3, lon: 2 });
    assert_eq!(rows, as_vec_dense_nodes(&second).unwrap());
}
