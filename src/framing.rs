//! The outer stream: blocks one after another, each a 4-byte big-endian
//! header length, the blob header, then the blob.
use vstd::prelude::*;
use crate::blob::{
    blob_bytes, blob_header_bytes, blob_header_valid, blob_valid, declared_datasize,
    encode_blob, encode_blob_header, is_blob_header_of, is_blob_of, lemma_blob_header_round_trip,
    lemma_blob_round_trip, same_bytes, Blob, BlobData, BlobHeader,
};
use crate::error::OsmError;

verus! {

/// The largest blob header, exclusive: 64 KiB.
pub const MAX_HEADER_LEN: u32 = 64 * 1024;

/// The big-endian number in the first four bytes of `b`.
pub open spec fn be_u32(b: Seq<u8>) -> u32 {
    (b[0] as int * 0x100_0000 + b[1] as int * 0x1_0000 + b[2] as int * 0x100 + b[3] as int) as u32
}

/// The four big-endian bytes of `n`.
pub open spec fn be_bytes(n: u32) -> Seq<u8> {
    seq![
        (n / 0x100_0000) as u8,
        (n / 0x1_0000 % 0x100) as u8,
        (n / 0x100 % 0x100) as u8,
        (n % 0x100) as u8,
    ]
}

/// Relies on byteorder's `BigEndian::read_u32`: the first four bytes as a
/// big-endian number. It panics on fewer than four bytes.
#[verifier::external_body]
fn read_be_u32(b: &[u8]) -> (r: u32)
    requires
        b@.len() >= 4,
    ensures
        r == be_u32(b@),
{
    <byteorder::BigEndian as byteorder::ByteOrder>::read_u32(b)
}

/// The block that starts at `pos` of the stream `data`: where its header ends
/// and where the block ends; `None` where the stream ends exactly at `pos`.
pub open spec fn frame_at(data: Seq<u8>, pos: nat) -> Result<Option<(nat, nat)>, OsmError> {
    if pos >= data.len() {
        Ok(None)
    } else if data.len() - pos < 4 {
        Err(OsmError::Truncated)
    } else {
        let header_len = be_u32(data.subrange(pos as int, pos + 4 as int));
        let header_end = pos + 4 + header_len;
        if header_len >= MAX_HEADER_LEN {
            Err(OsmError::SizeLimitExceeded)
        } else if header_end > data.len() {
            Err(OsmError::Truncated)
        } else if !blob_header_valid(data.subrange(pos + 4 as int, header_end as int)) {
            Err(OsmError::SchemaViolation)
        } else {
            let size = declared_datasize(data.subrange(pos + 4 as int, header_end as int));
            if size < 0 {
                Err(OsmError::SchemaViolation)
            } else if header_end + size > data.len() {
                Err(OsmError::Truncated)
            } else if !blob_valid(data.subrange(header_end as int, header_end + size)) {
                Err(OsmError::SchemaViolation)
            } else {
                Ok(Some((header_end as nat, (header_end + size) as nat)))
            }
        }
    }
}

/// `bd` is the block of `data` that starts at `pos`, whose header ends at
/// `header_end` and which ends at `end`.
pub open spec fn is_frame_of(data: Seq<u8>, pos: nat, header_end: nat, end: nat, bd: BlobData) -> bool {
    &&& is_blob_header_of(data.subrange(pos + 4 as int, header_end as int), bd.header)
    &&& is_blob_of(data.subrange(header_end as int, end as int), bd.blob)
}

/// The blocks of `data` from `pos` on: where each starts, where its header
/// ends and where it ends; or the error at the first block that is not whole
/// and well-formed.
pub open spec fn frames_from(data: Seq<u8>, pos: nat) -> Result<Seq<(nat, nat, nat)>, OsmError>
    decreases data.len() - pos,
    via frames_from_decreases
{
    match frame_at(data, pos) {
        Err(e) => Err(e),
        Ok(None) => Ok(seq![]),
        Ok(Some((header_end, end))) => match frames_from(data, end) {
            Ok(rest) => Ok(seq![(pos, header_end, end)] + rest),
            Err(e) => Err(e),
        },
    }
}

#[via_fn]
proof fn frames_from_decreases(data: Seq<u8>, pos: nat) {
}

/// The length of the blob header that a block's first four bytes announce.
/// Fewer than four bytes are a truncated frame; 64 KiB or more is refused.
pub fn header_length(prefix: &[u8]) -> (r: Result<usize, OsmError>)
    ensures
        match r {
            Ok(n) => prefix@.len() >= 4 && n == be_u32(prefix@) && n < MAX_HEADER_LEN,
            Err(e) => prefix@.len() < 4 && e == OsmError::Truncated || prefix@.len() >= 4 && be_u32(
                prefix@,
            ) >= MAX_HEADER_LEN && e == OsmError::SizeLimitExceeded,
        },
{
    if prefix.len() < 4 {
        return Err(OsmError::Truncated);
    }
    let n = read_be_u32(prefix);
    if n >= MAX_HEADER_LEN {
        return Err(OsmError::SizeLimitExceeded);
    }
    Ok(n as usize)
}

/// The length of the blob that a header announces; a negative size is
/// malformed.
pub fn blob_length(header: &BlobHeader) -> (r: Result<usize, OsmError>)
    ensures
        match r {
            Ok(n) => header.datasize >= 0 && n == header.datasize,
            Err(e) => header.datasize < 0 && e == OsmError::SchemaViolation,
        },
{
    if header.datasize < 0 {
        Err(OsmError::SchemaViolation)
    } else {
        Ok(header.datasize as usize)
    }
}

/// Reads the block that starts at `pos`; gives it with the position just
/// past it, or `None` where the stream ends exactly at `pos`.
pub fn read_osm_pbf_blob(data: &[u8], pos: usize) -> (r: Result<Option<(BlobData, usize)>, OsmError>)
    requires
        pos <= data@.len(),
    ensures
        match r {
            Ok(None) => frame_at(data@, pos as nat) == Ok::<Option<(nat, nat)>, OsmError>(None),
            Ok(Some((bd, end))) => frame_at(data@, pos as nat) matches Ok(Some((h, e))) && e == end
                && is_frame_of(data@, pos as nat, h, e, bd),
            Err(e) => frame_at(data@, pos as nat) == Err::<Option<(nat, nat)>, OsmError>(e),
        },
{
    if pos == data.len() {
        return Ok(None);
    }
    if data.len() - pos < 4 {
        return Err(OsmError::Truncated);
    }
    let header_len = header_length(&data[pos..pos + 4])?;
    let start = pos + 4;
    if data.len() - start < header_len {
        return Err(OsmError::Truncated);
    }
    let header_end = start + header_len;
    let header = BlobHeader::parse(&data[start..header_end])?;
    let size = blob_length(&header)?;
    if data.len() - header_end < size {
        return Err(OsmError::Truncated);
    }
    let end = header_end + size;
    let blob = match Blob::parse(&data[header_end..end]) {
        Ok(b) => b,
        Err(e) => return Err(e),
    };
    Ok(Some((BlobData { header, blob }, end)))
}

/// The blocks of `data` from `pos` on that are whole and well-formed, up to
/// the end of the stream or the first block that is not.
pub open spec fn frames_before_stop(data: Seq<u8>, pos: nat) -> Seq<(nat, nat, nat)>
    decreases data.len() - pos,
    via frames_before_stop_decreases
{
    match frame_at(data, pos) {
        Ok(Some((header_end, end))) => seq![(pos, header_end, end)] + frames_before_stop(data, end),
        _ => seq![],
    }
}

#[via_fn]
proof fn frames_before_stop_decreases(data: Seq<u8>, pos: nat) {
}

/// `blocks` are the blocks of `data` at the places `fr`, in order.
pub open spec fn decodes_frames(data: Seq<u8>, fr: Seq<(nat, nat, nat)>, blocks: Seq<BlobData>) -> bool {
    &&& blocks.len() == fr.len()
    &&& forall|i: int|
        0 <= i < fr.len() ==> is_frame_of(data, fr[i].0, fr[i].1, fr[i].2, #[trigger] blocks[i])
}

/// Reads every block of a stream, in order. An empty stream has no blocks.
/// Where a block is not whole or not well-formed, reading stops there: the
/// error comes back with the blocks read before it.
pub fn read_blobs(data: &[u8]) -> (r: Result<Vec<BlobData>, (Vec<BlobData>, OsmError)>)
    ensures
        match r {
            Ok(v) => frames_from(data@, 0) matches Ok(fr) && decodes_frames(data@, fr, v@),
            Err((v, e)) => frames_from(data@, 0) == Err::<Seq<(nat, nat, nat)>, OsmError>(e)
                && decodes_frames(data@, frames_before_stop(data@, 0), v@),
        },
{
    let mut out: Vec<BlobData> = Vec::new();
    let ghost mut seen: Seq<(nat, nat, nat)> = seq![];
    let mut pos: usize = 0;
    loop
        invariant
            pos <= data@.len(),
            decodes_frames(data@, seen, out@),
            frames_before_stop(data@, 0) == seen + frames_before_stop(data@, pos as nat),
            match frames_from(data@, pos as nat) {
                Ok(rest) => frames_from(data@, 0) == Ok::<Seq<(nat, nat, nat)>, OsmError>(seen + rest),
                Err(e) => frames_from(data@, 0) == Err::<Seq<(nat, nat, nat)>, OsmError>(e),
            },
        decreases data@.len() - pos,
    {
        match read_osm_pbf_blob(data, pos) {
            Ok(None) => {
                assert(seen + seq![] =~= seen);
                return Ok(out);
            },
            Ok(Some((bd, end))) => {
                let ghost h = frame_at(data@, pos as nat)->Ok_0->Some_0.0;
                proof {
                    let entry = (pos as nat, h, end as nat);
                    if let Ok(rest) = frames_from(data@, end as nat) {
                        assert(seen + (seq![entry] + rest) =~= seen.push(entry) + rest);
                    }
                    assert(seen + (seq![entry] + frames_before_stop(data@, end as nat))
                        =~= seen.push(entry) + frames_before_stop(data@, end as nat));
                    seen = seen.push(entry);
                }
                out.push(bd);
                pos = end;
            },
            Err(e) => {
                assert(seen + seq![] =~= seen);
                return Err((out, e));
            },
        }
    }
}

/// The bytes of the block `bd`: its header, giving the length of the encoded
/// blob, framed by its own length; `None` where the header would reach
/// 64 KiB or the blob would not fit an `int32` length.
pub open spec fn frame_bytes(bd: BlobData) -> Option<Seq<u8>> {
    let body = blob_bytes(bd.blob);
    if body.len() > i32::MAX {
        None
    } else {
        let head = blob_header_bytes(bd.header.kind@, bd.header.indexdata, body.len() as i32);
        if head.len() >= MAX_HEADER_LEN {
            None
        } else {
            Some(be_bytes(head.len() as u32) + head + body)
        }
    }
}

/// The blocks of `blobs` one after another.
pub open spec fn stream_bytes(blobs: Seq<BlobData>) -> Option<Seq<u8>>
    decreases blobs.len(),
{
    if blobs.len() == 0 {
        Some(seq![])
    } else {
        match (stream_bytes(blobs.drop_last()), frame_bytes(blobs.last())) {
            (Some(s), Some(f)) => Some(s + f),
            _ => None,
        }
    }
}

fn write_be_u32(out: &mut Vec<u8>, n: u32)
    ensures
        final(out)@ == old(out)@ + be_bytes(n),
{
    out.push((n / 0x100_0000) as u8);
    out.push((n / 0x1_0000 % 0x100) as u8);
    out.push((n / 0x100 % 0x100) as u8);
    out.push((n % 0x100) as u8);
    assert(final(out)@ =~= old(out)@ + be_bytes(n));
}

/// Appends the block `bd` to `out`. The header written gives the true length
/// of the encoded blob, whatever `bd.header.datasize` says.
pub fn write_osm_pbf_blob(bd: &BlobData, out: &mut Vec<u8>) -> (r: Result<(), OsmError>)
    ensures
        match frame_bytes(*bd) {
            Some(f) => r is Ok && final(out)@ == old(out)@ + f,
            None => r == Err::<(), OsmError>(OsmError::SizeLimitExceeded) && final(out)@ == old(
                out,
            )@,
        },
{
    let mut body = encode_blob(&bd.blob);
    if body.len() > i32::MAX as usize {
        return Err(OsmError::SizeLimitExceeded);
    }
    let mut head = encode_blob_header(
        bd.header.kind.as_slice(),
        &bd.header.indexdata,
        body.len() as i32,
    );
    if head.len() >= MAX_HEADER_LEN as usize {
        return Err(OsmError::SizeLimitExceeded);
    }
    let ghost head_view = head@;
    let ghost body_view = body@;
    write_be_u32(out, head.len() as u32);
    out.append(&mut head);
    out.append(&mut body);
    assert(final(out)@ =~= old(out)@ + (be_bytes(head_view.len() as u32) + head_view + body_view));
    Ok(())
}

/// Writes the blocks `blobs` as a stream.
pub fn write_blobs(blobs: &Vec<BlobData>) -> (r: Result<Vec<u8>, OsmError>)
    ensures
        match stream_bytes(blobs@) {
            Some(s) => r matches Ok(v) && v@ == s,
            None => r == Err::<Vec<u8>, OsmError>(OsmError::SizeLimitExceeded),
        },
{
    let mut out: Vec<u8> = Vec::new();
    let mut i: usize = 0;
    while i < blobs.len()
        invariant
            i <= blobs@.len(),
            stream_bytes(blobs@.take(i as int)) == Some(out@),
        decreases blobs@.len() - i,
    {
        assert(blobs@.take(i + 1).drop_last() =~= blobs@.take(i as int));
        match write_osm_pbf_blob(&blobs[i], &mut out) {
            Ok(()) => {},
            Err(e) => {
                proof {
                    lemma_stream_none_extends(blobs@, i as nat + 1);
                }
                return Err(e);
            },
        }
        i = i + 1;
    }
    assert(blobs@.take(blobs@.len() as int) =~= blobs@);
    Ok(out)
}

proof fn lemma_stream_none_extends(blobs: Seq<BlobData>, k: nat)
    requires
        k <= blobs.len(),
        stream_bytes(blobs.take(k as int)) is None,
    ensures
        stream_bytes(blobs) is None,
    decreases blobs.len() - k,
{
    if k < blobs.len() {
        assert(blobs.take(k + 1 as int).drop_last() =~= blobs.take(k as int));
        lemma_stream_none_extends(blobs, k + 1);
    } else {
        assert(blobs.take(k as int) =~= blobs);
    }
}

/// A stream with no bytes has no blocks, and a stream that ends right after
/// a whole block ends there cleanly.
pub proof fn lemma_clean_end(data: Seq<u8>)
    ensures
        frames_from(Seq::<u8>::empty(), 0) == Ok::<Seq<(nat, nat, nat)>, OsmError>(seq![]),
        frames_from(data, data.len()) == Ok::<Seq<(nat, nat, nat)>, OsmError>(seq![]),
{
}

/// A header length of 64 KiB or more is refused before anything after the
/// length is looked at, whether or not the stream holds that many bytes.
pub proof fn lemma_header_size_limit(data: Seq<u8>, pos: nat)
    requires
        pos + 4 <= data.len(),
        be_u32(data.subrange(pos as int, pos + 4 as int)) >= MAX_HEADER_LEN,
    ensures
        frame_at(data, pos) == Err::<Option<(nat, nat)>, OsmError>(OsmError::SizeLimitExceeded),
        frames_from(data, pos) == Err::<Seq<(nat, nat, nat)>, OsmError>(OsmError::SizeLimitExceeded),
{
}

proof fn lemma_be_round_trip(n: u32)
    ensures
        be_u32(be_bytes(n)) == n,
{
    let b = be_bytes(n);
    assert(b[0] as int == n / 0x100_0000);
    assert(b[1] as int == n / 0x1_0000 % 0x100);
    assert(b[2] as int == n / 0x100 % 0x100);
    assert(b[3] as int == n % 0x100);
    assert(n / 0x100_0000 * 0x100_0000 + n / 0x1_0000 % 0x100 * 0x1_0000 + n / 0x100 % 0x100
        * 0x100 + n % 0x100 == n) by (nonlinear_arith);
}

/// `back` holds the same block as `bd`, its header giving the true length of
/// the encoded blob.
pub open spec fn same_block(back: BlobData, bd: BlobData) -> bool {
    &&& back.header.kind@ == bd.header.kind@
    &&& same_bytes(back.header.indexdata, bd.header.indexdata)
    &&& back.header.datasize == blob_bytes(bd.blob).len()
    &&& same_bytes(back.blob.raw, bd.blob.raw)
    &&& back.blob.raw_size == bd.blob.raw_size
    &&& same_bytes(back.blob.zlib_data, bd.blob.zlib_data)
}

/// A block written by `write_osm_pbf_blob` at `pos` of a stream reads back
/// there as the same block, and the next block starts right after it.
pub proof fn lemma_frame_round_trip(bd: BlobData, data: Seq<u8>, pos: nat)
    requires
        frame_bytes(bd) is Some,
        data.len() <= usize::MAX,
        pos + frame_bytes(bd).unwrap().len() <= data.len(),
        data.subrange(pos as int, (pos + frame_bytes(bd).unwrap().len()) as int) == frame_bytes(bd).unwrap(),
    ensures
        frame_at(data, pos) matches Ok(Some((h, end))) && end == pos + frame_bytes(bd).unwrap().len()
            && forall|back: BlobData| #[trigger] is_frame_of(data, pos, h, end, back) ==> same_block(back, bd),
{
    let body = blob_bytes(bd.blob);
    let head = blob_header_bytes(bd.header.kind@, bd.header.indexdata, body.len() as i32);
    let f = frame_bytes(bd).unwrap();
    let hl = head.len() as u32;
    assert(f == be_bytes(hl) + head + body);
    let header_end = pos + 4 + head.len();
    let end = header_end + body.len();
    assert(data.subrange(pos as int, pos + 4 as int) =~= be_bytes(hl)) by {
        assert(f.subrange(0, 4) =~= be_bytes(hl));
    }
    lemma_be_round_trip(hl);
    assert(data.subrange(pos + 4 as int, header_end as int) =~= head) by {
        assert(f.subrange(4, 4 + head.len() as int) =~= head);
    }
    assert(data.subrange(header_end as int, end as int) =~= body) by {
        assert(f.subrange(4 + head.len() as int, f.len() as int) =~= body);
    }
    lemma_blob_header_round_trip(bd.header.kind@, bd.header.indexdata, body.len() as i32);
    lemma_blob_round_trip(bd.blob);
}

proof fn lemma_stream_front(blobs: Seq<BlobData>)
    requires
        blobs.len() > 0,
    ensures
        stream_bytes(blobs) == match (frame_bytes(blobs[0]), stream_bytes(blobs.drop_first())) {
            (Some(f), Some(r)) => Some(f + r),
            _ => None,
        },
    decreases blobs.len(),
{
    if blobs.len() == 1 {
        assert(blobs.drop_last() =~= Seq::<BlobData>::empty());
        assert(blobs.drop_first() =~= Seq::<BlobData>::empty());
        if let Some(f) = frame_bytes(blobs[0]) {
            assert(Seq::<u8>::empty() + f =~= f + Seq::<u8>::empty());
        }
    } else {
        let init = blobs.drop_last();
        lemma_stream_front(init);
        assert(init.drop_first() =~= blobs.drop_first().drop_last());
        assert(init[0] == blobs[0]);
        assert(blobs.drop_first().last() == blobs.last());
        match (frame_bytes(blobs[0]), stream_bytes(init.drop_first()), frame_bytes(blobs.last())) {
            (Some(f), Some(m), Some(l)) => {
                assert(f + m + l =~= f + (m + l));
            },
            _ => {},
        }
    }
}

proof fn lemma_frames_of_stream(data: Seq<u8>, pos: nat, blobs: Seq<BlobData>)
    requires
        stream_bytes(blobs) is Some,
        data.len() <= usize::MAX,
        pos + stream_bytes(blobs).unwrap().len() == data.len(),
        data.skip(pos as int) == stream_bytes(blobs).unwrap(),
    ensures
        frames_from(data, pos) matches Ok(fr) && fr.len() == blobs.len() && forall|
            i: int,
            back: BlobData,
        |
            0 <= i < fr.len() && #[trigger] is_frame_of(data, fr[i].0, fr[i].1, fr[i].2, back)
                ==> same_block(back, blobs[i]),
    decreases blobs.len(),
{
    if blobs.len() == 0 {
        assert(frames_from(data, pos) == Ok::<Seq<(nat, nat, nat)>, OsmError>(seq![]));
    } else {
        lemma_stream_front(blobs);
        let f = frame_bytes(blobs[0]).unwrap();
        let r = stream_bytes(blobs.drop_first()).unwrap();
        let end = pos + f.len();
        assert(data.subrange(pos as int, end as int) =~= f) by {
            assert(data.skip(pos as int) == f + r);
            assert((f + r).subrange(0, f.len() as int) =~= f);
        }
        lemma_frame_round_trip(blobs[0], data, pos);
        let h = frame_at(data, pos)->Ok_0->Some_0.0;
        assert(data.skip(end as int) =~= r) by {
            assert(data.skip(pos as int) == f + r);
            assert(data.skip(end as int) =~= data.skip(pos as int).skip(f.len() as int));
            assert((f + r).skip(f.len() as int) =~= r);
        }
        lemma_frames_of_stream(data, end, blobs.drop_first());
        lemma_frames_cons(data, pos, h, end, blobs);
    }
}

proof fn lemma_frames_cons(data: Seq<u8>, pos: nat, h: nat, end: nat, blobs: Seq<BlobData>)
    requires
        blobs.len() > 0,
        frame_at(data, pos) == Ok::<Option<(nat, nat)>, OsmError>(Some((h, end))),
        forall|back: BlobData| #[trigger] is_frame_of(data, pos, h, end, back) ==> same_block(back, blobs[0]),
        frames_from(data, end) matches Ok(rest) && rest.len() == blobs.len() - 1 && forall|
            i: int,
            back: BlobData,
        |
            0 <= i < rest.len() && #[trigger] is_frame_of(data, rest[i].0, rest[i].1, rest[i].2, back)
                ==> same_block(back, blobs.drop_first()[i]),
    ensures
        frames_from(data, pos) matches Ok(fr) && fr.len() == blobs.len() && forall|
            i: int,
            back: BlobData,
        |
            0 <= i < fr.len() && #[trigger] is_frame_of(data, fr[i].0, fr[i].1, fr[i].2, back)
                ==> same_block(back, blobs[i]),
{
    let rest = frames_from(data, end)->Ok_0;
    let fr = seq![(pos, h, end)] + rest;
    assert(frames_from(data, pos) == Ok::<Seq<(nat, nat, nat)>, OsmError>(fr));
    assert forall|i: int, back: BlobData|
        0 <= i < fr.len() && #[trigger] is_frame_of(data, fr[i].0, fr[i].1, fr[i].2, back)
            implies same_block(back, blobs[i]) by {
        if i > 0 {
            assert(fr[i] == rest[i - 1]);
            assert(blobs[i] == blobs.drop_first()[i - 1]);
            assert(is_frame_of(data, rest[i - 1].0, rest[i - 1].1, rest[i - 1].2, back));
        }
    }
}

/// What `write_blobs` writes, `read_blobs` reads back: as many blocks as were
/// written, each the same block, its header giving the true length of its
/// blob.
pub proof fn lemma_write_then_read(blobs: Seq<BlobData>)
    requires
        stream_bytes(blobs) is Some,
        stream_bytes(blobs).unwrap().len() <= usize::MAX,
    ensures
        ({
            let s = stream_bytes(blobs).unwrap();
            frames_from(s, 0) matches Ok(fr) && fr.len() == blobs.len() && forall|
                i: int,
                back: BlobData,
            |
                0 <= i < fr.len() && #[trigger] is_frame_of(s, fr[i].0, fr[i].1, fr[i].2, back)
                    ==> same_block(back, blobs[i])
        }),
{
    let s = stream_bytes(blobs).unwrap();
    assert(s.skip(0) =~= s);
    lemma_frames_of_stream(s, 0, blobs);
}

} // verus!
