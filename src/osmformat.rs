//! The records of a data block: string table, primitive groups, nodes, dense
//! nodes and ways, decoded from their protocol-buffer messages.
use vstd::prelude::*;
use crate::error::OsmError;
use crate::wire::{
    byte_views, collect_bytes, decode_zigzag, fields_of, find_varint, int32_list, int32_of,
    int64_of, join, join_bytes, last_varint, parse_fields, read_int32_list, read_sint64_list,
    read_uint32_list, repeated_bytes, sint64_list, sint64_of, to_int32, to_int64, uint32_list,
    Field,
};

verus! {

/// Nodes in columnar form: parallel columns of delta-encoded ids, latitudes
/// and longitudes, and the flattened key/value indices of their tags.
#[derive(Clone, Debug)]
pub struct DenseNodes {
    pub id: Vec<i64>,
    pub lat: Vec<i64>,
    pub lon: Vec<i64>,
    pub keys_vals: Vec<i32>,
}

/// A node in its plain form, coordinates in units of 1e-7 degree.
#[derive(Clone, Debug)]
pub struct Node {
    pub id: i64,
    pub keys: Vec<u32>,
    pub vals: Vec<u32>,
    pub lat: i64,
    pub lon: i64,
}

/// A way: its id, the string-table indices of its tag keys and values, and
/// the delta-encoded ids of the nodes along it.
#[derive(Clone, Debug)]
pub struct Way {
    pub id: i64,
    pub keys: Vec<u32>,
    pub vals: Vec<u32>,
    pub refs: Vec<i64>,
}

/// `d` is what the message `b` decodes to as dense nodes.
pub open spec fn is_dense_nodes_of(b: Seq<u8>, d: DenseNodes) -> bool {
    &&& fields_of(b) matches Some(fs)
    &&& sint64_list(b, fs, 1) == Some(d.id@)
    &&& sint64_list(b, fs, 8) == Some(d.lat@)
    &&& sint64_list(b, fs, 9) == Some(d.lon@)
    &&& int32_list(b, fs, 10) == Some(d.keys_vals@)
}

/// The message `b` decodes as dense nodes.
pub open spec fn dense_nodes_valid(b: Seq<u8>) -> bool {
    &&& fields_of(b) matches Some(fs)
    &&& sint64_list(b, fs, 1) is Some
    &&& sint64_list(b, fs, 8) is Some
    &&& sint64_list(b, fs, 9) is Some
    &&& int32_list(b, fs, 10) is Some
}

/// `n` is what the message `b` decodes to as a node; id, latitude and
/// longitude are required.
pub open spec fn is_node_of(b: Seq<u8>, n: Node) -> bool {
    &&& fields_of(b) matches Some(fs)
    &&& last_varint(fs, 1) matches Some(Some(id)) && n.id == sint64_of(id)
    &&& uint32_list(b, fs, 2) == Some(n.keys@)
    &&& uint32_list(b, fs, 3) == Some(n.vals@)
    &&& last_varint(fs, 8) matches Some(Some(lat)) && n.lat == sint64_of(lat)
    &&& last_varint(fs, 9) matches Some(Some(lon)) && n.lon == sint64_of(lon)
}

/// The message `b` decodes as a node.
pub open spec fn node_valid(b: Seq<u8>) -> bool {
    &&& fields_of(b) matches Some(fs)
    &&& last_varint(fs, 1) matches Some(Some(_))
    &&& uint32_list(b, fs, 2) is Some
    &&& uint32_list(b, fs, 3) is Some
    &&& last_varint(fs, 8) matches Some(Some(_))
    &&& last_varint(fs, 9) matches Some(Some(_))
}

/// `w` is what the message `b` decodes to as a way; the id is required.
pub open spec fn is_way_of(b: Seq<u8>, w: Way) -> bool {
    &&& fields_of(b) matches Some(fs)
    &&& last_varint(fs, 1) matches Some(Some(id)) && w.id == int64_of(id)
    &&& uint32_list(b, fs, 2) == Some(w.keys@)
    &&& uint32_list(b, fs, 3) == Some(w.vals@)
    &&& sint64_list(b, fs, 8) == Some(w.refs@)
}

/// The message `b` decodes as a way.
pub open spec fn way_valid(b: Seq<u8>) -> bool {
    &&& fields_of(b) matches Some(fs)
    &&& last_varint(fs, 1) matches Some(Some(_))
    &&& uint32_list(b, fs, 2) is Some
    &&& uint32_list(b, fs, 3) is Some
    &&& sint64_list(b, fs, 8) is Some
}

impl DenseNodes {
    /// Decodes a dense-nodes message.
    pub fn parse(b: &[u8]) -> (r: Result<DenseNodes, OsmError>)
        ensures
            match r {
                Ok(d) => is_dense_nodes_of(b@, d),
                Err(e) => e == OsmError::SchemaViolation && !dense_nodes_valid(b@),
            },
    {
        let fs = match parse_fields(b) {
            Some(fs) => fs,
            None => return Err(OsmError::SchemaViolation),
        };
        let id = match read_sint64_list(b, &fs, 1) {
            Some(v) => v,
            None => return Err(OsmError::SchemaViolation),
        };
        let lat = match read_sint64_list(b, &fs, 8) {
            Some(v) => v,
            None => return Err(OsmError::SchemaViolation),
        };
        let lon = match read_sint64_list(b, &fs, 9) {
            Some(v) => v,
            None => return Err(OsmError::SchemaViolation),
        };
        let keys_vals = match read_int32_list(b, &fs, 10) {
            Some(v) => v,
            None => return Err(OsmError::SchemaViolation),
        };
        Ok(DenseNodes { id, lat, lon, keys_vals })
    }
}

impl Node {
    /// Decodes a node message.
    pub fn parse(b: &[u8]) -> (r: Result<Node, OsmError>)
        ensures
            match r {
                Ok(n) => is_node_of(b@, n),
                Err(e) => e == OsmError::SchemaViolation && !node_valid(b@),
            },
    {
        let fs = match parse_fields(b) {
            Some(fs) => fs,
            None => return Err(OsmError::SchemaViolation),
        };
        let id = match find_varint(&fs, 1) {
            Some(Some(v)) => decode_zigzag(v),
            _ => return Err(OsmError::SchemaViolation),
        };
        let keys = match read_uint32_list(b, &fs, 2) {
            Some(v) => v,
            None => return Err(OsmError::SchemaViolation),
        };
        let vals = match read_uint32_list(b, &fs, 3) {
            Some(v) => v,
            None => return Err(OsmError::SchemaViolation),
        };
        let lat = match find_varint(&fs, 8) {
            Some(Some(v)) => decode_zigzag(v),
            _ => return Err(OsmError::SchemaViolation),
        };
        let lon = match find_varint(&fs, 9) {
            Some(Some(v)) => decode_zigzag(v),
            _ => return Err(OsmError::SchemaViolation),
        };
        Ok(Node { id, keys, vals, lat, lon })
    }
}

impl Way {
    /// Decodes a way message.
    pub fn parse(b: &[u8]) -> (r: Result<Way, OsmError>)
        ensures
            match r {
                Ok(w) => is_way_of(b@, w),
                Err(e) => e == OsmError::SchemaViolation && !way_valid(b@),
            },
    {
        let fs = match parse_fields(b) {
            Some(fs) => fs,
            None => return Err(OsmError::SchemaViolation),
        };
        let id = match find_varint(&fs, 1) {
            Some(Some(v)) => to_int64(v),
            _ => return Err(OsmError::SchemaViolation),
        };
        let keys = match read_uint32_list(b, &fs, 2) {
            Some(v) => v,
            None => return Err(OsmError::SchemaViolation),
        };
        let vals = match read_uint32_list(b, &fs, 3) {
            Some(v) => v,
            None => return Err(OsmError::SchemaViolation),
        };
        let refs = match read_sint64_list(b, &fs, 8) {
            Some(v) => v,
            None => return Err(OsmError::SchemaViolation),
        };
        Ok(Way { id, keys, vals, refs })
    }
}

/// A group of entities of one kind: plain nodes, one dense-nodes set, or ways.
/// Relations and change sets are not read.
#[derive(Clone, Debug)]
pub struct PrimitiveGroup {
    pub nodes: Vec<Node>,
    pub dense: Option<DenseNodes>,
    pub ways: Vec<Way>,
}

/// A data block: its string table, its groups, and the coordinate scale and
/// offsets, together with the block's own encoding, from which the other
/// fields are decoded. The fields are read through methods; a block is made
/// only by `parse`, so the decoded fields always agree with the encoding.
#[derive(Debug)]
pub struct PrimitiveBlock {
    pub(crate) bytes: Vec<u8>,
    pub(crate) stringtable: Vec<Vec<u8>>,
    pub(crate) primitivegroup: Vec<PrimitiveGroup>,
    pub(crate) granularity: i32,
    pub(crate) lat_offset: i64,
    pub(crate) lon_offset: i64,
    pub(crate) date_granularity: i32,
}

/// A header block, held in its encoding: the file's metadata is passed
/// through unread. A header block is made only by `parse`, so its encoding is
/// well-formed on the wire.
#[derive(Debug)]
pub struct HeaderBlock {
    pub(crate) bytes: Vec<u8>,
}

/// `g` is what the message `b` decodes to as a primitive group. Occurrences
/// of the dense-nodes field merge into one set.
pub open spec fn is_group_of(b: Seq<u8>, g: PrimitiveGroup) -> bool {
    &&& fields_of(b) matches Some(fs)
    &&& repeated_bytes(b, fs, 1) matches Some(nodes)
    &&& g.nodes@.len() == nodes.len()
    &&& forall|i: int| 0 <= i < nodes.len() ==> is_node_of(nodes[i], #[trigger] g.nodes@[i])
    &&& repeated_bytes(b, fs, 2) matches Some(dense)
    &&& if dense.len() == 0 {
        g.dense is None
    } else {
        g.dense matches Some(d) && is_dense_nodes_of(join(dense), d)
    }
    &&& repeated_bytes(b, fs, 3) matches Some(ways)
    &&& g.ways@.len() == ways.len()
    &&& forall|i: int| 0 <= i < ways.len() ==> is_way_of(ways[i], #[trigger] g.ways@[i])
}

/// The message `b` decodes as a primitive group.
pub open spec fn group_valid(b: Seq<u8>) -> bool {
    &&& fields_of(b) matches Some(fs)
    &&& repeated_bytes(b, fs, 1) matches Some(nodes)
    &&& forall|i: int| 0 <= i < nodes.len() ==> node_valid(#[trigger] nodes[i])
    &&& repeated_bytes(b, fs, 2) matches Some(dense)
    &&& (dense.len() == 0 || dense_nodes_valid(join(dense)))
    &&& repeated_bytes(b, fs, 3) matches Some(ways)
    &&& forall|i: int| 0 <= i < ways.len() ==> way_valid(#[trigger] ways[i])
}

/// The optional `int32` field `num`, `dflt` where it is absent.
pub open spec fn int32_or(fs: Seq<Field>, num: u64, dflt: i32) -> Option<i32> {
    match last_varint(fs, num) {
        Some(Some(v)) => Some(int32_of(v)),
        Some(None) => Some(dflt),
        None => None,
    }
}

/// The optional `int64` field `num`, zero where it is absent.
pub open spec fn int64_or_zero(fs: Seq<Field>, num: u64) -> Option<i64> {
    match last_varint(fs, num) {
        Some(Some(v)) => Some(int64_of(v)),
        Some(None) => Some(0),
        None => None,
    }
}

/// `strings` is what the message `t` decodes to as a string table.
pub open spec fn is_string_table_of(t: Seq<u8>, strings: Seq<Vec<u8>>) -> bool {
    &&& fields_of(t) matches Some(fs)
    &&& repeated_bytes(t, fs, 1) == Some(byte_views(strings))
}

/// `p` is what the message `b` decodes to as a primitive block. The string
/// table is required; occurrences of it merge.
pub open spec fn is_primitive_block_of(b: Seq<u8>, p: PrimitiveBlock) -> bool {
    &&& p.spec_bytes() == b
    &&& fields_of(b) matches Some(fs)
    &&& repeated_bytes(b, fs, 1) matches Some(tables)
    &&& tables.len() > 0
    &&& is_string_table_of(join(tables), p.spec_stringtable())
    &&& repeated_bytes(b, fs, 2) matches Some(groups)
    &&& p.spec_primitivegroup().len() == groups.len()
    &&& forall|i: int|
        0 <= i < groups.len() ==> is_group_of(groups[i], #[trigger] p.spec_primitivegroup()[i])
    &&& int32_or(fs, 17, 100) == Some(p.spec_granularity())
    &&& int32_or(fs, 18, 1000) == Some(p.spec_date_granularity())
    &&& int64_or_zero(fs, 19) == Some(p.spec_lat_offset())
    &&& int64_or_zero(fs, 20) == Some(p.spec_lon_offset())
}

/// The message `b` decodes as a primitive block.
pub open spec fn primitive_block_valid(b: Seq<u8>) -> bool {
    &&& fields_of(b) matches Some(fs)
    &&& repeated_bytes(b, fs, 1) matches Some(tables)
    &&& tables.len() > 0
    &&& fields_of(join(tables)) matches Some(ts)
    &&& repeated_bytes(join(tables), ts, 1) is Some
    &&& repeated_bytes(b, fs, 2) matches Some(groups)
    &&& forall|i: int| 0 <= i < groups.len() ==> group_valid(#[trigger] groups[i])
    &&& int32_or(fs, 17, 100) is Some
    &&& int32_or(fs, 18, 1000) is Some
    &&& int64_or_zero(fs, 19) is Some
    &&& int64_or_zero(fs, 20) is Some
}

fn parse_nodes(parts: &Vec<Vec<u8>>) -> (r: Result<Vec<Node>, OsmError>)
    ensures
        match r {
            Ok(v) => v@.len() == parts@.len() && forall|i: int|
                0 <= i < parts@.len() ==> is_node_of(byte_views(parts@)[i], #[trigger] v@[i]),
            Err(e) => e == OsmError::SchemaViolation && exists|i: int|
                0 <= i < parts@.len() && !node_valid(#[trigger] byte_views(parts@)[i]),
        },
{
    let mut out: Vec<Node> = Vec::new();
    let mut i: usize = 0;
    while i < parts.len()
        invariant
            i <= parts@.len(),
            out@.len() == i,
            forall|j: int| 0 <= j < i ==> is_node_of(byte_views(parts@)[j], #[trigger] out@[j]),
        decreases parts@.len() - i,
    {
        match Node::parse(parts[i].as_slice()) {
            Ok(n) => {
                out.push(n);
            },
            Err(e) => {
                assert(!node_valid(byte_views(parts@)[i as int]));
                return Err(e);
            },
        }
        i = i + 1;
    }
    Ok(out)
}

fn parse_ways(parts: &Vec<Vec<u8>>) -> (r: Result<Vec<Way>, OsmError>)
    ensures
        match r {
            Ok(v) => v@.len() == parts@.len() && forall|i: int|
                0 <= i < parts@.len() ==> is_way_of(byte_views(parts@)[i], #[trigger] v@[i]),
            Err(e) => e == OsmError::SchemaViolation && exists|i: int|
                0 <= i < parts@.len() && !way_valid(#[trigger] byte_views(parts@)[i]),
        },
{
    let mut out: Vec<Way> = Vec::new();
    let mut i: usize = 0;
    while i < parts.len()
        invariant
            i <= parts@.len(),
            out@.len() == i,
            forall|j: int| 0 <= j < i ==> is_way_of(byte_views(parts@)[j], #[trigger] out@[j]),
        decreases parts@.len() - i,
    {
        match Way::parse(parts[i].as_slice()) {
            Ok(w) => {
                out.push(w);
            },
            Err(e) => {
                assert(!way_valid(byte_views(parts@)[i as int]));
                return Err(e);
            },
        }
        i = i + 1;
    }
    Ok(out)
}

fn parse_groups(parts: &Vec<Vec<u8>>) -> (r: Result<Vec<PrimitiveGroup>, OsmError>)
    ensures
        match r {
            Ok(v) => v@.len() == parts@.len() && forall|i: int|
                0 <= i < parts@.len() ==> is_group_of(byte_views(parts@)[i], #[trigger] v@[i]),
            Err(e) => e == OsmError::SchemaViolation && exists|i: int|
                0 <= i < parts@.len() && !group_valid(#[trigger] byte_views(parts@)[i]),
        },
{
    let mut out: Vec<PrimitiveGroup> = Vec::new();
    let mut i: usize = 0;
    while i < parts.len()
        invariant
            i <= parts@.len(),
            out@.len() == i,
            forall|j: int| 0 <= j < i ==> is_group_of(byte_views(parts@)[j], #[trigger] out@[j]),
        decreases parts@.len() - i,
    {
        match PrimitiveGroup::parse(parts[i].as_slice()) {
            Ok(g) => {
                out.push(g);
            },
            Err(e) => {
                assert(!group_valid(byte_views(parts@)[i as int]));
                return Err(e);
            },
        }
        i = i + 1;
    }
    Ok(out)
}

impl PrimitiveGroup {
    /// Decodes a primitive-group message.
    pub fn parse(b: &[u8]) -> (r: Result<PrimitiveGroup, OsmError>)
        ensures
            match r {
                Ok(g) => is_group_of(b@, g),
                Err(e) => e == OsmError::SchemaViolation && !group_valid(b@),
            },
    {
        let fs = match parse_fields(b) {
            Some(fs) => fs,
            None => return Err(OsmError::SchemaViolation),
        };
        let node_parts = match collect_bytes(b, &fs, 1) {
            Some(v) => v,
            None => return Err(OsmError::SchemaViolation),
        };
        let nodes = parse_nodes(&node_parts)?;
        let dense_parts = match collect_bytes(b, &fs, 2) {
            Some(v) => v,
            None => return Err(OsmError::SchemaViolation),
        };
        let dense = if dense_parts.len() == 0 {
            None
        } else {
            let joined = join_bytes(&dense_parts);
            Some(DenseNodes::parse(joined.as_slice())?)
        };
        let way_parts = match collect_bytes(b, &fs, 3) {
            Some(v) => v,
            None => return Err(OsmError::SchemaViolation),
        };
        let ways = parse_ways(&way_parts)?;
        Ok(PrimitiveGroup { nodes, dense, ways })
    }
}

fn read_int32_or(fs: &Vec<Field>, num: u64, dflt: i32) -> (r: Option<i32>)
    ensures
        r == int32_or(fs@, num, dflt),
{
    match find_varint(fs, num) {
        Some(Some(v)) => Some(to_int32(v)),
        Some(None) => Some(dflt),
        None => None,
    }
}

fn read_int64_or_zero(fs: &Vec<Field>, num: u64) -> (r: Option<i64>)
    ensures
        r == int64_or_zero(fs@, num),
{
    match find_varint(fs, num) {
        Some(Some(v)) => Some(to_int64(v)),
        Some(None) => Some(0),
        None => None,
    }
}

impl PrimitiveBlock {
    /// Decodes a primitive-block message, keeping its bytes.
    pub fn parse(b: Vec<u8>) -> (r: Result<PrimitiveBlock, OsmError>)
        ensures
            match r {
                Ok(p) => is_primitive_block_of(b@, p),
                Err(e) => e == OsmError::SchemaViolation && !primitive_block_valid(b@),
            },
    {
        let fs = match parse_fields(b.as_slice()) {
            Some(fs) => fs,
            None => return Err(OsmError::SchemaViolation),
        };
        let table_parts = match collect_bytes(b.as_slice(), &fs, 1) {
            Some(v) => v,
            None => return Err(OsmError::SchemaViolation),
        };
        if table_parts.len() == 0 {
            return Err(OsmError::SchemaViolation);
        }
        let table = join_bytes(&table_parts);
        let table_fields = match parse_fields(table.as_slice()) {
            Some(fs) => fs,
            None => return Err(OsmError::SchemaViolation),
        };
        let stringtable = match collect_bytes(table.as_slice(), &table_fields, 1) {
            Some(v) => v,
            None => return Err(OsmError::SchemaViolation),
        };
        let group_parts = match collect_bytes(b.as_slice(), &fs, 2) {
            Some(v) => v,
            None => return Err(OsmError::SchemaViolation),
        };
        let primitivegroup = parse_groups(&group_parts)?;
        let granularity = match read_int32_or(&fs, 17, 100) {
            Some(v) => v,
            None => return Err(OsmError::SchemaViolation),
        };
        let date_granularity = match read_int32_or(&fs, 18, 1000) {
            Some(v) => v,
            None => return Err(OsmError::SchemaViolation),
        };
        let lat_offset = match read_int64_or_zero(&fs, 19) {
            Some(v) => v,
            None => return Err(OsmError::SchemaViolation),
        };
        let lon_offset = match read_int64_or_zero(&fs, 20) {
            Some(v) => v,
            None => return Err(OsmError::SchemaViolation),
        };
        Ok(
            PrimitiveBlock {
                bytes: b,
                stringtable,
                primitivegroup,
                granularity,
                lat_offset,
                lon_offset,
                date_granularity,
            },
        )
    }
}

impl PrimitiveBlock {
    /// The block's encoding.
    pub closed spec fn spec_bytes(self) -> Seq<u8> {
        self.bytes@
    }

    /// The entries of the block's string table.
    pub closed spec fn spec_stringtable(self) -> Seq<Vec<u8>> {
        self.stringtable@
    }

    /// The block's primitive groups.
    pub closed spec fn spec_primitivegroup(self) -> Seq<PrimitiveGroup> {
        self.primitivegroup@
    }

    /// The size of a coordinate unit, in nanodegrees.
    pub closed spec fn spec_granularity(self) -> i32 {
        self.granularity
    }

    /// The latitude offset, in nanodegrees.
    pub closed spec fn spec_lat_offset(self) -> i64 {
        self.lat_offset
    }

    /// The longitude offset, in nanodegrees.
    pub closed spec fn spec_lon_offset(self) -> i64 {
        self.lon_offset
    }

    /// The size of a time unit, in milliseconds.
    pub closed spec fn spec_date_granularity(self) -> i32 {
        self.date_granularity
    }

    /// The decoded fields are what the encoding decodes to.
    #[verifier::type_invariant]
    pub open spec fn decoded_from_bytes(self) -> bool {
        is_primitive_block_of(self.spec_bytes(), self)
    }

    /// The block's encoding.
    pub fn bytes(&self) -> (r: &Vec<u8>)
        ensures
            r@ == self.spec_bytes(),
    {
        &self.bytes
    }

    /// The entries of the block's string table.
    pub fn stringtable(&self) -> (r: &Vec<Vec<u8>>)
        ensures
            r@ == self.spec_stringtable(),
    {
        &self.stringtable
    }

    /// The block's primitive groups.
    pub fn primitivegroup(&self) -> (r: &Vec<PrimitiveGroup>)
        ensures
            r@ == self.spec_primitivegroup(),
    {
        &self.primitivegroup
    }

    /// The size of a coordinate unit, in nanodegrees.
    pub fn granularity(&self) -> (r: i32)
        ensures
            r == self.spec_granularity(),
    {
        self.granularity
    }

    /// The latitude offset, in nanodegrees.
    pub fn lat_offset(&self) -> (r: i64)
        ensures
            r == self.spec_lat_offset(),
    {
        self.lat_offset
    }

    /// The longitude offset, in nanodegrees.
    pub fn lon_offset(&self) -> (r: i64)
        ensures
            r == self.spec_lon_offset(),
    {
        self.lon_offset
    }

    /// The size of a time unit, in milliseconds.
    pub fn date_granularity(&self) -> (r: i32)
        ensures
            r == self.spec_date_granularity(),
    {
        self.date_granularity
    }
}

impl HeaderBlock {
    /// The block's encoding.
    pub closed spec fn spec_bytes(self) -> Seq<u8> {
        self.bytes@
    }

    /// The encoding is well-formed on the wire.
    #[verifier::type_invariant]
    pub open spec fn well_formed(self) -> bool {
        fields_of(self.spec_bytes()) is Some
    }

    /// The block's encoding.
    pub fn bytes(&self) -> (r: &Vec<u8>)
        ensures
            r@ == self.spec_bytes(),
    {
        &self.bytes
    }

    /// Takes a header-block message, which must be well-formed on the wire.
    pub fn parse(b: Vec<u8>) -> (r: Result<HeaderBlock, OsmError>)
        ensures
            match r {
                Ok(h) => h.spec_bytes() == b@ && fields_of(b@) is Some,
                Err(e) => e == OsmError::SchemaViolation && fields_of(b@) is None,
            },
    {
        match parse_fields(b.as_slice()) {
            Some(_) => Ok(HeaderBlock { bytes: b }),
            None => Err(OsmError::SchemaViolation),
        }
    }
}

/// A group that decodes from `b` shows that `b` is a valid group.
pub proof fn lemma_group_valid(b: Seq<u8>, g: PrimitiveGroup)
    requires
        is_group_of(b, g),
    ensures
        group_valid(b),
{
    let fs = fields_of(b).unwrap();
    let nodes = repeated_bytes(b, fs, 1).unwrap();
    let ways = repeated_bytes(b, fs, 3).unwrap();
    assert forall|i: int| 0 <= i < nodes.len() implies node_valid(#[trigger] nodes[i]) by {
        assert(is_node_of(nodes[i], g.nodes@[i]));
    }
    assert forall|i: int| 0 <= i < ways.len() implies way_valid(#[trigger] ways[i]) by {
        assert(is_way_of(ways[i], g.ways@[i]));
    }
}

/// A block that decodes from `b` shows that `b` is a valid block.
pub proof fn lemma_primitive_block_valid(b: Seq<u8>, p: PrimitiveBlock)
    requires
        is_primitive_block_of(b, p),
    ensures
        primitive_block_valid(b),
{
    let fs = fields_of(b).unwrap();
    let groups = repeated_bytes(b, fs, 2).unwrap();
    assert forall|i: int| 0 <= i < groups.len() implies group_valid(#[trigger] groups[i]) by {
        lemma_group_valid(groups[i], p.spec_primitivegroup()[i]);
    }
}

} // verus!
