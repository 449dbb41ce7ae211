use osm_pbf::encode::{write_bytes_field, write_varint_field};
use osm_pbf::{iter_ways, read_blobs, BlobData, FileBlock, HeaderBlock, PrimitiveBlock};
use rayon::iter::{IntoParallelRefIterator, ParallelIterator};

fn zigzag(n: i64) -> u64 {
    ((n << 1) ^ (n >> 63)) as u64
}

fn packed_sint64(num: u64, values: &[i64]) -> Vec<u8> {
    let mut body = Vec::new();
    for &v in values {
        osm_pbf::encode::write_varint(&mut body, zigzag(v));
    }
    let mut out = Vec::new();
    write_bytes_field(&mut out, num, &body);
    out
}

fn packed_uint32(num: u64, values: &[u32]) -> Vec<u8> {
    let mut body = Vec::new();
    for &v in values {
        osm_pbf::encode::write_varint(&mut body, v as u64);
    }
    let mut out = Vec::new();
    write_bytes_field(&mut out, num, &body);
    out
}

fn way_message(id: i64, keys: &[u32], vals: &[u32], refs: &[i64]) -> Vec<u8> {
    let mut out = Vec::new();
    write_varint_field(&mut out, 1, id as u64);
    out.extend(packed_uint32(2, keys));
    out.extend(packed_uint32(3, vals));
    out.extend(packed_sint64(8, refs));
    out
}

fn dense_message(ids: &[i64], lats: &[i64], lons: &[i64]) -> Vec<u8> {
    let mut out = packed_sint64(1, ids);
    out.extend(packed_sint64(8, lats));
    out.extend(packed_sint64(9, lons));
    out
}

fn sample_stream() -> Vec<u8> {
    let mut table = Vec::new();
    for s in ["", "highway", "residential", "building", "yes"] {
        write_bytes_field(&mut table, 1, s.as_bytes());
    }
    let mut group = Vec::new();
    write_bytes_field(&mut group, 2, &dense_message(&[1, 1, 1], &[10, 1, 1], &[20, 2, 2]));
    write_bytes_field(&mut group, 3, &way_message(7, &[1], &[2], &[1, 1, 1]));
    write_bytes_field(&mut group, 3, &way_message(8, &[3], &[4], &[3, -1]));
    let mut block = Vec::new();
    write_bytes_field(&mut block, 1, &table);
    write_bytes_field(&mut block, 2, &group);

    let header = HeaderBlock::parse(Vec::new()).unwrap();
    let data = PrimitiveBlock::parse(block).unwrap();
    let blobs = vec![
        BlobData::serialize(&FileBlock::Header(header)).unwrap(),
        BlobData::serialize(&FileBlock::Primitive(data)).unwrap(),
    ];
    osm_pbf::write_blobs(&blobs).unwrap()
}

#[test]
fn test_count_blobs() {
    assert!(read_blobs(&sample_stream()).unwrap().len() > 0);
}

#[test]
fn test_read_blocks() {
    let vec_blob: Vec<BlobData> = read_blobs(&sample_stream()).unwrap();

    assert!(
        vec_blob
            .par_iter()
            .map(|blob_data| blob_data.deserialize().unwrap())
            .count()
            > 0
    );
}

#[test]
fn test_count_ways() {
    let vec_blob: Vec<BlobData> = read_blobs(&sample_stream()).unwrap();

    assert!(
        vec_blob
            .par_iter()
            .map(|blob_data| {
                if let FileBlock::Primitive(primitive_block) = blob_data.deserialize().unwrap() {
                    iter_ways(&primitive_block).len()
                } else {
                    0
                }
            })
            .sum::<usize>()
            > 0
    );
}
