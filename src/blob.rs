//! Blocks of a stream: the blob header that names a block's kind, the blob
//! that carries its payload raw or zlib-compressed, and the decoding of a
//! payload into a header or data record.
use vstd::prelude::*;
use std::io::Read;
use std::io::Write;
use crate::encode::{
    bytes_field, int32_to_wire, int32_wire, key_bytes, lemma_int32_round_trip,
    lemma_read_bytes_field, lemma_read_varint_field, varint_bytes, varint_field, write_bytes_field,
    write_varint_field,
};
use crate::error::OsmError;
use crate::osmformat::{
    int64_or_zero, is_primitive_block_of, primitive_block_valid, HeaderBlock, PrimitiveBlock,
};
use crate::wire::{
    byte_views, collect_bytes, field_at, fields_from, fields_of, find_varint, int32_of, last_varint,
    parse_fields, repeated_bytes, to_int32, Field, WireValue,
};

verus! {

/// The largest declared uncompressed payload, exclusive: 32 MiB.
pub const MAX_RAW_SIZE: i32 = 32 * 1024 * 1024;

/// What zlib decompression of `data` gives: the bytes, or `None` where `data`
/// is not a zlib stream.
pub uninterp spec fn zlib_inflate(data: Seq<u8>) -> Option<Seq<u8>>;

/// What zlib compression of `data` at the default level gives.
pub uninterp spec fn zlib_deflate(data: Seq<u8>) -> Seq<u8>;

/// Relies on flate2's `read::ZlibDecoder`, read to its end: the result
/// depends on the compressed bytes alone.
#[verifier::external_body]
fn inflate(data: &[u8]) -> (r: Option<Vec<u8>>)
    ensures
        match r {
            Some(v) => zlib_inflate(data@) == Some(v@),
            None => zlib_inflate(data@) is None,
        },
{
    let mut out = Vec::new();
    match flate2::read::ZlibDecoder::new(data).read_to_end(&mut out) {
        Ok(_) => Some(out),
        Err(_) => None,
    }
}

/// Relies on flate2's `write::ZlibEncoder` at `Compression::default()`,
/// writing into a `Vec`: the result depends on the input bytes alone, writing
/// into a `Vec` does not fail, and the compressor reports no error on such a
/// stream; flate2's decoder reads back what its encoder wrote.
#[verifier::external_body]
fn deflate(data: &[u8]) -> (r: Option<Vec<u8>>)
    ensures
        r is Some,
        r.unwrap()@ == zlib_deflate(data@),
        zlib_inflate(r.unwrap()@) == Some(data@),
{
    let mut encoder = flate2::write::ZlibEncoder::new(Vec::new(), flate2::Compression::default());
    match encoder.write_all(data) {
        Ok(()) => encoder.finish().ok(),
        Err(_) => None,
    }
}

/// The kind tag of a header block, `OSMHeader`.
pub open spec fn header_tag() -> Seq<u8> {
    seq![79u8, 83u8, 77u8, 72u8, 101u8, 97u8, 100u8, 101u8, 114u8]
}

/// The kind tag of a data block, `OSMData`.
pub open spec fn data_tag() -> Seq<u8> {
    seq![79u8, 83u8, 77u8, 68u8, 97u8, 116u8, 97u8]
}

/// The kinds of block that this library knows.
#[derive(Clone, Copy, Debug, PartialEq, Eq)]
pub enum BlockKind {
    Header,
    Data,
    Unknown,
}

/// The kind of block that a kind tag names.
pub open spec fn kind_of(tag: Seq<u8>) -> BlockKind {
    if tag == header_tag() {
        BlockKind::Header
    } else if tag == data_tag() {
        BlockKind::Data
    } else {
        BlockKind::Unknown
    }
}

/// Tells which kind of block a kind tag names.
pub fn classify_kind(tag: &[u8]) -> (r: BlockKind)
    ensures
        r == kind_of(tag@),
{
    if tag.len() == 9 && tag[0] == 79 && tag[1] == 83 && tag[2] == 77 && tag[3] == 72 && tag[4]
        == 101 && tag[5] == 97 && tag[6] == 100 && tag[7] == 101 && tag[8] == 114 {
        assert(tag@ =~= header_tag());
        BlockKind::Header
    } else if tag.len() == 7 && tag[0] == 79 && tag[1] == 83 && tag[2] == 77 && tag[3] == 68
        && tag[4] == 97 && tag[5] == 116 && tag[6] == 97 {
        assert(tag@ =~= data_tag());
        BlockKind::Data
    } else {
        BlockKind::Unknown
    }
}

/// The header of a block: the kind tag of its payload, optional index data,
/// and the length of the blob that follows.
#[derive(Clone, Debug)]
pub struct BlobHeader {
    pub kind: Vec<u8>,
    pub indexdata: Option<Vec<u8>>,
    pub datasize: i32,
}

/// The payload of a block: raw bytes, or zlib-compressed bytes with their
/// declared uncompressed size.
#[derive(Clone, Debug)]
pub struct Blob {
    pub raw: Option<Vec<u8>>,
    pub raw_size: Option<i32>,
    pub zlib_data: Option<Vec<u8>>,
}

/// One framed block of a stream.
#[derive(Clone, Debug)]
pub struct BlobData {
    pub header: BlobHeader,
    pub blob: Blob,
}

/// The record that a block's payload decodes to.
#[derive(Debug)]
pub enum FileBlock {
    Header(HeaderBlock),
    Primitive(PrimitiveBlock),
}

/// An optional bytes field: the last occurrence wins.
pub open spec fn last_bytes_is(parts: Seq<Seq<u8>>, v: Option<Vec<u8>>) -> bool {
    if parts.len() == 0 {
        v is None
    } else {
        v matches Some(x) && x@ == parts.last()
    }
}

/// An optional `int32` field.
pub open spec fn last_int32_is(last: Option<u64>, v: Option<i32>) -> bool {
    match last {
        Some(n) => v == Some(int32_of(n)),
        None => v is None,
    }
}

/// `h` is what the message `b` decodes to as a blob header; the kind tag and
/// the data size are required.
pub open spec fn is_blob_header_of(b: Seq<u8>, h: BlobHeader) -> bool {
    &&& fields_of(b) matches Some(fs)
    &&& repeated_bytes(b, fs, 1) matches Some(kinds)
    &&& kinds.len() > 0 && h.kind@ == kinds.last()
    &&& repeated_bytes(b, fs, 2) matches Some(index)
    &&& last_bytes_is(index, h.indexdata)
    &&& last_varint(fs, 3) matches Some(Some(n)) && h.datasize == int32_of(n)
}

/// The message `b` decodes as a blob header.
pub open spec fn blob_header_valid(b: Seq<u8>) -> bool {
    &&& fields_of(b) matches Some(fs)
    &&& repeated_bytes(b, fs, 1) matches Some(kinds) && kinds.len() > 0
    &&& repeated_bytes(b, fs, 2) is Some
    &&& last_varint(fs, 3) matches Some(Some(_))
}

/// The data size that the valid blob header `b` declares.
pub open spec fn declared_datasize(b: Seq<u8>) -> i32 {
    int32_of(last_varint(fields_of(b).unwrap(), 3).unwrap().unwrap())
}

/// `blob` is what the message `b` decodes to as a blob.
pub open spec fn is_blob_of(b: Seq<u8>, blob: Blob) -> bool {
    &&& fields_of(b) matches Some(fs)
    &&& repeated_bytes(b, fs, 1) matches Some(raw) && last_bytes_is(raw, blob.raw)
    &&& last_varint(fs, 2) matches Some(size) && last_int32_is(size, blob.raw_size)
    &&& repeated_bytes(b, fs, 3) matches Some(zlib) && last_bytes_is(zlib, blob.zlib_data)
}

/// The message `b` decodes as a blob.
pub open spec fn blob_valid(b: Seq<u8>) -> bool {
    &&& fields_of(b) matches Some(fs)
    &&& repeated_bytes(b, fs, 1) is Some
    &&& last_varint(fs, 2) is Some
    &&& repeated_bytes(b, fs, 3) is Some
}

fn last_of(parts: Vec<Vec<u8>>) -> (r: Option<Vec<u8>>)
    ensures
        last_bytes_is(byte_views(parts@), r),
{
    let mut parts = parts;
    parts.pop()
}

fn read_int32_opt(fs: &Vec<Field>, num: u64) -> (r: Option<Option<i32>>)
    ensures
        match last_varint(fs@, num) {
            Some(last) => r matches Some(v) && last_int32_is(last, v),
            None => r is None,
        },
{
    match find_varint(fs, num) {
        Some(Some(v)) => Some(Some(to_int32(v))),
        Some(None) => Some(None),
        None => None,
    }
}

impl BlobHeader {
    /// Decodes a blob-header message.
    pub fn parse(b: &[u8]) -> (r: Result<BlobHeader, OsmError>)
        ensures
            match r {
                Ok(h) => is_blob_header_of(b@, h),
                Err(e) => e == OsmError::SchemaViolation && !blob_header_valid(b@),
            },
    {
        let fs = match parse_fields(b) {
            Some(fs) => fs,
            None => return Err(OsmError::SchemaViolation),
        };
        let kinds = match collect_bytes(b, &fs, 1) {
            Some(v) => v,
            None => return Err(OsmError::SchemaViolation),
        };
        let kind = match last_of(kinds) {
            Some(k) => k,
            None => return Err(OsmError::SchemaViolation),
        };
        let index = match collect_bytes(b, &fs, 2) {
            Some(v) => v,
            None => return Err(OsmError::SchemaViolation),
        };
        let indexdata = last_of(index);
        let datasize = match find_varint(&fs, 3) {
            Some(Some(v)) => to_int32(v),
            _ => return Err(OsmError::SchemaViolation),
        };
        Ok(BlobHeader { kind, indexdata, datasize })
    }
}

impl Blob {
    /// Decodes a blob message.
    pub fn parse(b: &[u8]) -> (r: Result<Blob, OsmError>)
        ensures
            match r {
                Ok(blob) => is_blob_of(b@, blob),
                Err(e) => e == OsmError::SchemaViolation && !blob_valid(b@),
            },
    {
        let fs = match parse_fields(b) {
            Some(fs) => fs,
            None => return Err(OsmError::SchemaViolation),
        };
        let raw = match collect_bytes(b, &fs, 1) {
            Some(v) => last_of(v),
            None => return Err(OsmError::SchemaViolation),
        };
        let raw_size = match read_int32_opt(&fs, 2) {
            Some(v) => v,
            None => return Err(OsmError::SchemaViolation),
        };
        let zlib_data = match collect_bytes(b, &fs, 3) {
            Some(v) => last_of(v),
            None => return Err(OsmError::SchemaViolation),
        };
        Ok(Blob { raw, raw_size, zlib_data })
    }
}

/// The uncompressed size that a blob declares; zero where it declares none.
pub open spec fn declared_raw_size(blob: Blob) -> int {
    match blob.raw_size {
        Some(n) => n as int,
        None => 0,
    }
}

/// What a decompression result means for a payload of declared size
/// `declared`: it must have exactly that many bytes.
pub open spec fn inflated_payload(inflated: Option<Seq<u8>>, declared: int) -> Result<
    Seq<u8>,
    OsmError,
> {
    match inflated {
        None => Err(OsmError::DecompressionFailed),
        Some(v) => if v.len() == declared {
            Ok(v)
        } else {
            Err(OsmError::SizeMismatch)
        },
    }
}

/// The serialized record that a blob carries. Raw bytes are taken as they
/// are; zlib data must declare a size under 32 MiB and decompress to exactly
/// that size; a blob with neither is in an encoding this library does not
/// read.
pub open spec fn payload_of(blob: Blob) -> Result<Seq<u8>, OsmError> {
    match blob.raw {
        Some(raw) => Ok(raw@),
        None => match blob.zlib_data {
            Some(z) => if declared_raw_size(blob) >= MAX_RAW_SIZE {
                Err(OsmError::SizeLimitExceeded)
            } else {
                inflated_payload(zlib_inflate(z@), declared_raw_size(blob))
            },
            None => Err(OsmError::UnsupportedEncoding),
        },
    }
}

/// A compressed payload that decodes has exactly the size its blob declares,
/// and one that decompresses to any other size is refused as a mismatch.
pub proof fn lemma_payload_size(blob: Blob)
    requires
        blob.raw is None,
        blob.zlib_data is Some,
    ensures
        payload_of(blob) matches Ok(p) ==> p.len() == declared_raw_size(blob),
        (zlib_inflate(blob.zlib_data.unwrap()@) matches Some(p) && p.len() != declared_raw_size(
            blob,
        ) && declared_raw_size(blob) < MAX_RAW_SIZE) ==> payload_of(blob) == Err::<
            Seq<u8>,
            OsmError,
        >(OsmError::SizeMismatch),
{
}

/// Checks a decompression result against the declared size.
pub fn check_inflated(inflated: Option<Vec<u8>>, declared: i32) -> (r: Result<Vec<u8>, OsmError>)
    ensures
        match inflated {
            Some(v) => match inflated_payload(Some(v@), declared as int) {
                Ok(p) => r matches Ok(w) && w@ == p,
                Err(e) => r == Err::<Vec<u8>, OsmError>(e),
            },
            None => r == Err::<Vec<u8>, OsmError>(OsmError::DecompressionFailed),
        },
{
    match inflated {
        Some(v) => {
            if declared >= 0 && v.len() as u64 == declared as u64 {
                Ok(v)
            } else {
                Err(OsmError::SizeMismatch)
            }
        },
        None => Err(OsmError::DecompressionFailed),
    }
}

impl Blob {
    /// The serialized record that this blob carries, decompressed where it is
    /// compressed.
    pub fn payload(&self) -> (r: Result<Vec<u8>, OsmError>)
        ensures
            match r {
                Ok(v) => payload_of(*self) == Ok::<Seq<u8>, OsmError>(v@),
                Err(e) => payload_of(*self) == Err::<Seq<u8>, OsmError>(e),
            },
    {
        match &self.raw {
            Some(raw) => Ok(vstd::slice::slice_to_vec(raw.as_slice())),
            None => match &self.zlib_data {
                Some(z) => {
                    let declared = match self.raw_size {
                        Some(n) => n,
                        None => 0,
                    };
                    if declared >= MAX_RAW_SIZE {
                        Err(OsmError::SizeLimitExceeded)
                    } else {
                        check_inflated(inflate(z.as_slice()), declared)
                    }
                },
                None => Err(OsmError::UnsupportedEncoding),
            },
        }
    }
}

/// The offset fields of the primitive block `p` are zero (or absent).
pub open spec fn offsets_are_zero(p: Seq<u8>) -> bool {
    &&& int64_or_zero(fields_of(p).unwrap(), 19) == Some(0i64)
    &&& int64_or_zero(fields_of(p).unwrap(), 20) == Some(0i64)
}

/// Why decoding the block `bd` fails, if it does. A block of unknown kind is
/// refused rather than skipped; callers that want to skip such blocks can
/// tell them by `classify_kind`. Coordinate offsets are not supported.
pub open spec fn deserialize_error(bd: BlobData) -> Option<OsmError> {
    match kind_of(bd.header.kind@) {
        BlockKind::Unknown => Some(OsmError::UnsupportedEncoding),
        BlockKind::Header => match payload_of(bd.blob) {
            Err(e) => Some(e),
            Ok(p) => if fields_of(p) is Some {
                None
            } else {
                Some(OsmError::SchemaViolation)
            },
        },
        BlockKind::Data => match payload_of(bd.blob) {
            Err(e) => Some(e),
            Ok(p) => if primitive_block_valid(p) && offsets_are_zero(p) {
                None
            } else {
                Some(OsmError::SchemaViolation)
            },
        },
    }
}

/// An optional bytes field, written only where it is present.
pub open spec fn opt_bytes_field(num: u64, v: Option<Vec<u8>>) -> Seq<u8> {
    match v {
        Some(x) => bytes_field(num, x@),
        None => seq![],
    }
}

/// An optional `int32` field, written only where it is present.
pub open spec fn opt_int32_field(num: u64, v: Option<i32>) -> Seq<u8> {
    match v {
        Some(n) => varint_field(num, int32_wire(n)),
        None => seq![],
    }
}

/// The encoding of a blob.
pub open spec fn blob_bytes(blob: Blob) -> Seq<u8> {
    opt_bytes_field(1, blob.raw) + opt_int32_field(2, blob.raw_size) + opt_bytes_field(
        3,
        blob.zlib_data,
    )
}

/// The encoding of a blob that holds only zlib data `z` and its size `raw_size`.
pub open spec fn compressed_blob_bytes(raw_size: i32, z: Seq<u8>) -> Seq<u8> {
    varint_field(2, int32_wire(raw_size)) + bytes_field(3, z)
}

/// The encoding of a blob header with kind tag `kind`, index data
/// `indexdata` and data size `datasize`.
pub open spec fn blob_header_bytes(kind: Seq<u8>, indexdata: Option<Vec<u8>>, datasize: i32) -> Seq<
    u8,
> {
    bytes_field(1, kind) + opt_bytes_field(2, indexdata) + varint_field(3, int32_wire(datasize))
}

fn write_opt_bytes(out: &mut Vec<u8>, num: u64, v: &Option<Vec<u8>>)
    requires
        1 <= num < 0x2000_0000,
    ensures
        final(out)@ == old(out)@ + opt_bytes_field(num, *v),
{
    match v {
        Some(x) => write_bytes_field(out, num, x.as_slice()),
        None => {
            assert(out@ + seq![] =~= out@);
        },
    }
}

/// Encodes a blob.
pub fn encode_blob(blob: &Blob) -> (r: Vec<u8>)
    ensures
        r@ == blob_bytes(*blob),
{
    let mut out: Vec<u8> = Vec::new();
    write_opt_bytes(&mut out, 1, &blob.raw);
    match blob.raw_size {
        Some(n) => write_varint_field(&mut out, 2, int32_to_wire(n)),
        None => {},
    }
    write_opt_bytes(&mut out, 3, &blob.zlib_data);
    assert(out@ =~= blob_bytes(*blob));
    out
}

/// Encodes a blob header with the given kind tag, index data and data size.
pub fn encode_blob_header(kind: &[u8], indexdata: &Option<Vec<u8>>, datasize: i32) -> (r: Vec<u8>)
    ensures
        r@ == blob_header_bytes(kind@, *indexdata, datasize),
{
    let mut out: Vec<u8> = Vec::new();
    write_bytes_field(&mut out, 1, kind);
    write_opt_bytes(&mut out, 2, indexdata);
    write_varint_field(&mut out, 3, int32_to_wire(datasize));
    assert(out@ =~= blob_header_bytes(kind@, *indexdata, datasize));
    out
}

/// The bytes of the tag `OSMHeader`.
pub fn header_tag_bytes() -> (r: Vec<u8>)
    ensures
        r@ == header_tag(),
{
    let mut v: Vec<u8> = Vec::new();
    v.push(79);
    v.push(83);
    v.push(77);
    v.push(72);
    v.push(101);
    v.push(97);
    v.push(100);
    v.push(101);
    v.push(114);
    assert(v@ =~= header_tag());
    v
}

/// The bytes of the tag `OSMData`.
pub fn data_tag_bytes() -> (r: Vec<u8>)
    ensures
        r@ == data_tag(),
{
    let mut v: Vec<u8> = Vec::new();
    v.push(79);
    v.push(83);
    v.push(77);
    v.push(68);
    v.push(97);
    v.push(116);
    v.push(97);
    assert(v@ =~= data_tag());
    v
}

/// The kind tag and the serialized record of a file block.
pub open spec fn record_of(fb: FileBlock) -> (Seq<u8>, Seq<u8>) {
    match fb {
        FileBlock::Header(h) => (header_tag(), h.spec_bytes()),
        FileBlock::Primitive(p) => (data_tag(), p.spec_bytes()),
    }
}

impl BlobData {
    /// Decodes this block's payload into the record its kind names.
    pub fn deserialize(&self) -> (r: Result<FileBlock, OsmError>)
        ensures
            match r {
                Ok(FileBlock::Header(h)) => {
                    &&& kind_of(self.header.kind@) == BlockKind::Header
                    &&& payload_of(self.blob) == Ok::<Seq<u8>, OsmError>(h.spec_bytes())
                },
                Ok(FileBlock::Primitive(p)) => {
                    &&& kind_of(self.header.kind@) == BlockKind::Data
                    &&& payload_of(self.blob) == Ok::<Seq<u8>, OsmError>(p.spec_bytes())
                    &&& p.spec_lat_offset() == 0 && p.spec_lon_offset() == 0
                },
                Err(e) => deserialize_error(*self) == Some(e),
            },
    {
        match classify_kind(self.header.kind.as_slice()) {
            BlockKind::Header => {
                let bytes = self.blob.payload()?;
                let h = HeaderBlock::parse(bytes)?;
                Ok(FileBlock::Header(h))
            },
            BlockKind::Data => {
                let bytes = self.blob.payload()?;
                let p = PrimitiveBlock::parse(bytes)?;
                if p.lat_offset() != 0 || p.lon_offset() != 0 {
                    return Err(OsmError::SchemaViolation);
                }
                Ok(FileBlock::Primitive(p))
            },
            BlockKind::Unknown => Err(OsmError::UnsupportedEncoding),
        }
    }

    /// Makes a block of a record: its serialized bytes zlib-compressed, with
    /// their size, under a header that names the record's kind and gives the
    /// length of the encoded blob. It fails exactly where the record reaches
    /// 32 MiB or the encoded blob would not fit an `int32` length.
    pub fn serialize(file_block: &FileBlock) -> (r: Result<BlobData, OsmError>)
        ensures
            r is Ok <==> serializable(*file_block),
            r matches Ok(bd) ==> is_block_of_record(*file_block, bd) && record_well_formed(
                *file_block,
            ),
            r matches Err(e) ==> e == OsmError::SizeLimitExceeded,
    {
        let (kind, bytes) = match file_block {
            FileBlock::Header(h) => {
                proof {
                    use_type_invariant(h);
                }
                (header_tag_bytes(), h.bytes().as_slice())
            },
            FileBlock::Primitive(p) => {
                proof {
                    use_type_invariant(p);
                }
                (data_tag_bytes(), p.bytes().as_slice())
            },
        };
        if bytes.len() >= MAX_RAW_SIZE as usize {
            return Err(OsmError::SizeLimitExceeded);
        }
        let compressed = deflate(bytes).unwrap();
        let blob = Blob { raw: None, raw_size: Some(bytes.len() as i32), zlib_data: Some(compressed) };
        let encoded = encode_blob(&blob);
        assert(encoded@ =~= compressed_blob_bytes(bytes@.len() as i32, zlib_deflate(bytes@)));
        if encoded.len() > i32::MAX as usize {
            return Err(OsmError::SizeLimitExceeded);
        }
        let header = BlobHeader { kind, indexdata: None, datasize: encoded.len() as i32 };
        Ok(BlobData { header, blob })
    }
}

/// A record can be made into a block: it is under 32 MiB, and its compressed
/// blob has an `int32` length.
pub open spec fn serializable(fb: FileBlock) -> bool {
    &&& record_of(fb).1.len() < MAX_RAW_SIZE
    &&& compressed_blob_bytes(record_of(fb).1.len() as i32, zlib_deflate(record_of(fb).1)).len()
        <= i32::MAX
}

/// The record of a file block is well-formed: a header block's encoding is
/// well-formed on the wire, and a data block's fields are its encoding's
/// decoding.
pub open spec fn record_well_formed(fb: FileBlock) -> bool {
    match fb {
        FileBlock::Header(h) => h.well_formed(),
        FileBlock::Primitive(p) => p.decoded_from_bytes(),
    }
}

/// `bd` is the block made of the record `fb`: kind tag, zlib data that
/// inflates back to the record's bytes, their size, and the blob's length.
pub open spec fn is_block_of_record(fb: FileBlock, bd: BlobData) -> bool {
    &&& bd.header.kind@ == record_of(fb).0
    &&& bd.header.indexdata is None
    &&& bd.header.datasize == blob_bytes(bd.blob).len()
    &&& bd.blob.raw is None
    &&& bd.blob.raw_size == Some(record_of(fb).1.len() as i32)
    &&& bd.blob.zlib_data matches Some(z) && z@ == zlib_deflate(record_of(fb).1)
    &&& payload_of(bd.blob) == Ok::<Seq<u8>, OsmError>(record_of(fb).1)
}

/// Decoding the block made of a well-formed record succeeds and gives back
/// the record's kind and bytes, where a data block has no coordinate offset.
pub proof fn lemma_serialize_then_deserialize(fb: FileBlock, bd: BlobData)
    requires
        is_block_of_record(fb, bd),
        record_well_formed(fb),
        fb matches FileBlock::Primitive(p) ==> p.spec_lat_offset() == 0 && p.spec_lon_offset()
            == 0,
    ensures
        deserialize_error(bd) is None,
        payload_of(bd.blob) == Ok::<Seq<u8>, OsmError>(record_of(fb).1),
        kind_of(bd.header.kind@) == match fb {
            FileBlock::Header(_) => BlockKind::Header,
            FileBlock::Primitive(_) => BlockKind::Data,
        },
{
    assert(header_tag().len() != data_tag().len());
    match fb {
        FileBlock::Header(h) => {},
        FileBlock::Primitive(p) => {
            crate::osmformat::lemma_primitive_block_valid(p.spec_bytes(), p);
        },
    }
}

/// `a` and `b` are both absent, or both present with the same bytes.
pub open spec fn same_bytes(a: Option<Vec<u8>>, b: Option<Vec<u8>>) -> bool {
    match (a, b) {
        (Some(x), Some(y)) => x@ == y@,
        (None, None) => true,
        _ => false,
    }
}

/// The field that an optional bytes field written at `pos` reads back as,
/// where it is present.
pub open spec fn written_bytes_field(pos: nat, num: u64, v: Option<Vec<u8>>) -> Option<Field> {
    match v {
        Some(x) => {
            let start = pos + key_bytes(num, 2).len() + varint_bytes(x@.len() as u64).len();
            Some(
                Field {
                    number: num,
                    value: WireValue::Bytes(start as usize, (start + x@.len()) as usize),
                },
            )
        },
        None => None,
    }
}

/// The field that an optional `int32` field reads back as, where it is
/// present.
pub open spec fn written_int32_field(num: u64, v: Option<i32>) -> Option<Field> {
    match v {
        Some(n) => Some(Field { number: num, value: WireValue::Varint(int32_wire(n)) }),
        None => None,
    }
}

proof fn lemma_read_opt_bytes(b: Seq<u8>, pos: nat, num: u64, v: Option<Vec<u8>>)
    requires
        1 <= num < 0x2000_0000,
        b.len() <= usize::MAX,
        pos + opt_bytes_field(num, v).len() <= b.len(),
        b.subrange(pos as int, (pos + opt_bytes_field(num, v).len()) as int) == opt_bytes_field(
            num,
            v,
        ),
    ensures
        match v {
            Some(x) => written_bytes_field(pos, num, v) matches Some(g) && field_at(b, pos) == Some(
                (g, pos + opt_bytes_field(num, v).len()),
            ) && (g.value matches WireValue::Bytes(s, e) && b.subrange(s as int, e as int) == x@),
            None => opt_bytes_field(num, v).len() == 0,
        },
{
    if let Some(x) = v {
        lemma_read_bytes_field(b, pos, num, x@);
    }
}

proof fn lemma_read_opt_int32(b: Seq<u8>, pos: nat, num: u64, v: Option<i32>)
    requires
        1 <= num < 0x2000_0000,
        pos + opt_int32_field(num, v).len() <= b.len(),
        b.subrange(pos as int, (pos + opt_int32_field(num, v).len()) as int) == opt_int32_field(
            num,
            v,
        ),
    ensures
        match v {
            Some(n) => field_at(b, pos) == Some(
                (written_int32_field(num, v).unwrap(), pos + opt_int32_field(num, v).len()),
            ),
            None => opt_int32_field(num, v).len() == 0,
        },
{
    if let Some(n) = v {
        lemma_read_varint_field(b, pos, num, int32_wire(n));
    }
}

/// The fields list with `f` added when it is present.
pub open spec fn push_opt(fs: Seq<Field>, f: Option<Field>) -> Seq<Field> {
    match f {
        Some(g) => fs.push(g),
        None => fs,
    }
}

/// A blob header written by `encode_blob_header` decodes to its kind tag,
/// index data and data size.
pub proof fn lemma_blob_header_round_trip(kind: Seq<u8>, indexdata: Option<Vec<u8>>, datasize: i32)
    requires
        blob_header_bytes(kind, indexdata, datasize).len() <= usize::MAX,
    ensures
        blob_header_valid(blob_header_bytes(kind, indexdata, datasize)),
        declared_datasize(blob_header_bytes(kind, indexdata, datasize)) == datasize,
        forall|h: BlobHeader|
            is_blob_header_of(blob_header_bytes(kind, indexdata, datasize), h) ==> h.kind@ == kind
                && same_bytes(h.indexdata, indexdata) && h.datasize == datasize,
{
    let a = bytes_field(1, kind);
    let m = opt_bytes_field(2, indexdata);
    let w = int32_wire(datasize);
    let c = varint_field(3, w);
    let hb = blob_header_bytes(kind, indexdata, datasize);
    assert(hb == a + m + c);
    assert(hb.subrange(0, a.len() as int) =~= a);
    assert(hb.subrange(a.len() as int, (a.len() + m.len()) as int) =~= m);
    assert(hb.subrange((a.len() + m.len()) as int, hb.len() as int) =~= c);
    lemma_read_bytes_field(hb, 0, 1, kind);
    let start = key_bytes(1, 2).len() + varint_bytes(kind.len() as u64).len();
    let f1 = Field {
        number: 1,
        value: WireValue::Bytes(start as usize, (start + kind.len()) as usize),
    };
    lemma_read_opt_bytes(hb, a.len(), 2, indexdata);
    let f2 = written_bytes_field(a.len(), 2, indexdata);
    lemma_read_varint_field(hb, a.len() + m.len(), 3, w);
    let f3 = Field { number: 3, value: WireValue::Varint(w) };
    assert(fields_from(hb, hb.len()) == Some(Seq::<Field>::empty()));
    assert(fields_from(hb, (a.len() + m.len()) as nat) == Some(seq![f3]));
    let tail = match f2 {
        Some(g) => seq![g, f3],
        None => seq![f3],
    };
    assert(fields_from(hb, a.len()) == Some(tail));
    let fs = seq![f1] + tail;
    assert(fields_of(hb) == Some(fs));
    let before = push_opt(seq![f1], f2);
    assert(fs =~= before.push(f3));
    assert(before.push(f3).drop_last() =~= before);
    assert(seq![f1].drop_last() =~= Seq::<Field>::empty());
    if let Some(g) = f2 {
        assert(seq![f1].push(g).drop_last() =~= seq![f1]);
    }
    let empty = Seq::<Field>::empty();
    assert(repeated_bytes(hb, empty, 1) == Some(Seq::<Seq<u8>>::empty()));
    assert(repeated_bytes(hb, empty, 2) == Some(Seq::<Seq<u8>>::empty()));
    assert(last_varint(empty, 3) == Some(None::<u64>));
    assert((start as usize) as int == start);
    assert(((start + kind.len()) as usize) as int == start + kind.len());
    assert(hb.subrange(start as int, (start + kind.len()) as int) == kind);
    assert(Seq::<Seq<u8>>::empty().push(kind) =~= seq![kind]);
    assert(repeated_bytes(hb, seq![f1], 1) == Some(seq![kind]));
    assert(repeated_bytes(hb, seq![f1], 2) == Some(Seq::<Seq<u8>>::empty()));
    assert(last_varint(seq![f1], 3) == Some(None::<u64>));
    if let Some(g) = f2 {
        assert(before == seq![f1].push(g));
        assert(repeated_bytes(hb, before, 1) == Some(seq![kind]));
        assert(last_varint(before, 3) == Some(None::<u64>));
    }
    assert(repeated_bytes(hb, before, 1) == Some(seq![kind]));
    assert(last_varint(before, 3) == Some(None::<u64>));
    assert(repeated_bytes(hb, fs, 1) == Some(seq![kind]));
    assert(last_varint(fs, 3) == Some(Some(w)));
    lemma_int32_round_trip(datasize);
    match indexdata {
        Some(x) => {
            let g = f2.unwrap();
            assert(Seq::<Seq<u8>>::empty().push(x@) =~= seq![x@]);
            assert(repeated_bytes(hb, before, 2) == Some(seq![x@]));
            assert(repeated_bytes(hb, fs, 2) == Some(seq![x@]));
        },
        None => {
            assert(repeated_bytes(hb, fs, 2) == Some(Seq::<Seq<u8>>::empty()));
        },
    }
}

/// The list holding `f` if it is present.
pub open spec fn opt_seq(f: Option<Field>) -> Seq<Field> {
    match f {
        Some(g) => seq![g],
        None => seq![],
    }
}

/// The fields that the encoding of `blob` splits into.
pub open spec fn blob_fields(blob: Blob) -> Seq<Field> {
    let a = opt_bytes_field(1, blob.raw);
    let m = opt_int32_field(2, blob.raw_size);
    push_opt(
        push_opt(push_opt(Seq::<Field>::empty(), written_bytes_field(0, 1, blob.raw)), written_int32_field(2, blob.raw_size)),
        written_bytes_field(a.len() + m.len(), 3, blob.zlib_data),
    )
}

proof fn lemma_blob_fields(blob: Blob)
    requires
        blob_bytes(blob).len() <= usize::MAX,
    ensures
        fields_of(blob_bytes(blob)) == Some(blob_fields(blob)),
        written_bytes_field(0, 1, blob.raw) matches Some(g) ==> (g.value matches WireValue::Bytes(
            s,
            e,
        ) && blob_bytes(blob).subrange(s as int, e as int) == blob.raw.unwrap()@),
        written_bytes_field(
            opt_bytes_field(1, blob.raw).len() + opt_int32_field(2, blob.raw_size).len(),
            3,
            blob.zlib_data,
        ) matches Some(g) ==> (g.value matches WireValue::Bytes(s, e) && blob_bytes(blob).subrange(
            s as int,
            e as int,
        ) == blob.zlib_data.unwrap()@),
{
    let a = opt_bytes_field(1, blob.raw);
    let m = opt_int32_field(2, blob.raw_size);
    let c = opt_bytes_field(3, blob.zlib_data);
    let bb = blob_bytes(blob);
    assert(bb == a + m + c);
    assert(bb.subrange(0, a.len() as int) =~= a);
    assert(bb.subrange(a.len() as int, (a.len() + m.len()) as int) =~= m);
    assert(bb.subrange((a.len() + m.len()) as int, bb.len() as int) =~= c);
    lemma_read_opt_bytes(bb, 0, 1, blob.raw);
    lemma_read_opt_int32(bb, a.len(), 2, blob.raw_size);
    lemma_read_opt_bytes(bb, a.len() + m.len(), 3, blob.zlib_data);
    let f1 = written_bytes_field(0, 1, blob.raw);
    let f2 = written_int32_field(2, blob.raw_size);
    let f3 = written_bytes_field(a.len() + m.len(), 3, blob.zlib_data);
    assert(fields_from(bb, bb.len()) == Some(Seq::<Field>::empty()));
    assert(fields_from(bb, (a.len() + m.len()) as nat) == Some(opt_seq(f3))) by {
        if f3 is Some {
            assert(opt_seq(f3) =~= seq![f3.unwrap()] + Seq::<Field>::empty());
        }
    }
    assert(fields_from(bb, a.len()) == Some(opt_seq(f2) + opt_seq(f3))) by {
        if f2 is Some {
            assert(opt_seq(f2) + opt_seq(f3) =~= seq![f2.unwrap()] + opt_seq(f3));
        } else {
            assert(opt_seq(f2) + opt_seq(f3) =~= opt_seq(f3));
        }
    }
    assert(fields_of(bb) == Some(opt_seq(f1) + (opt_seq(f2) + opt_seq(f3)))) by {
        if f1 is Some {
            assert(opt_seq(f1) + (opt_seq(f2) + opt_seq(f3)) =~= seq![f1.unwrap()] + (opt_seq(f2)
                + opt_seq(f3)));
        } else {
            assert(opt_seq(f1) + (opt_seq(f2) + opt_seq(f3)) =~= opt_seq(f2) + opt_seq(f3));
        }
    }
    assert(opt_seq(f1) + (opt_seq(f2) + opt_seq(f3)) =~= blob_fields(blob));
}

/// The values that a list of at most one bytes part holds.
pub open spec fn opt_parts(v: Option<Vec<u8>>) -> Seq<Seq<u8>> {
    match v {
        Some(x) => seq![x@],
        None => seq![],
    }
}

proof fn lemma_blob_values(blob: Blob)
    requires
        blob_bytes(blob).len() <= usize::MAX,
    ensures
        repeated_bytes(blob_bytes(blob), blob_fields(blob), 1) == Some(opt_parts(blob.raw)),
        repeated_bytes(blob_bytes(blob), blob_fields(blob), 3) == Some(opt_parts(blob.zlib_data)),
        last_varint(blob_fields(blob), 2) == Some(
            match blob.raw_size {
                Some(n) => Some(int32_wire(n)),
                None => None::<u64>,
            },
        ),
{
    lemma_blob_fields(blob);
    let bb = blob_bytes(blob);
    let a = opt_bytes_field(1, blob.raw);
    let m = opt_int32_field(2, blob.raw_size);
    let f1 = written_bytes_field(0, 1, blob.raw);
    let f2 = written_int32_field(2, blob.raw_size);
    let f3 = written_bytes_field(a.len() + m.len(), 3, blob.zlib_data);
    let empty = Seq::<Field>::empty();
    let fs1 = push_opt(empty, f1);
    let fs2 = push_opt(fs1, f2);
    let fs3 = push_opt(fs2, f3);
    assert(fs3 == blob_fields(blob));
    let size = match blob.raw_size {
        Some(n) => Some(int32_wire(n)),
        None => None::<u64>,
    };
    assert(repeated_bytes(bb, empty, 1) == Some(Seq::<Seq<u8>>::empty()));
    assert(repeated_bytes(bb, empty, 3) == Some(Seq::<Seq<u8>>::empty()));
    assert(last_varint(empty, 2) == Some(None::<u64>));
    if let Some(g) = f1 {
        assert(fs1.drop_last() =~= empty);
        assert(Seq::<Seq<u8>>::empty().push(blob.raw.unwrap()@) =~= opt_parts(blob.raw));
    }
    assert(repeated_bytes(bb, fs1, 1) == Some(opt_parts(blob.raw)));
    assert(repeated_bytes(bb, fs1, 3) == Some(Seq::<Seq<u8>>::empty()));
    assert(last_varint(fs1, 2) == Some(None::<u64>));
    if let Some(g) = f2 {
        assert(fs2.drop_last() =~= fs1);
    }
    assert(repeated_bytes(bb, fs2, 1) == Some(opt_parts(blob.raw)));
    assert(repeated_bytes(bb, fs2, 3) == Some(Seq::<Seq<u8>>::empty()));
    assert(last_varint(fs2, 2) == Some(size));
    if let Some(g) = f3 {
        assert(fs3.drop_last() =~= fs2);
        assert(Seq::<Seq<u8>>::empty().push(blob.zlib_data.unwrap()@) =~= opt_parts(
            blob.zlib_data,
        ));
    }
}

/// A blob written by `encode_blob` decodes to the same raw bytes, declared
/// size and zlib data.
pub proof fn lemma_blob_round_trip(blob: Blob)
    requires
        blob_bytes(blob).len() <= usize::MAX,
    ensures
        blob_valid(blob_bytes(blob)),
        forall|back: Blob|
            is_blob_of(blob_bytes(blob), back) ==> same_bytes(back.raw, blob.raw) && back.raw_size
                == blob.raw_size && same_bytes(back.zlib_data, blob.zlib_data),
{
    lemma_blob_fields(blob);
    lemma_blob_values(blob);
    if let Some(n) = blob.raw_size {
        lemma_int32_round_trip(n);
    }
}

} // verus!
