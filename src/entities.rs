//! The entities of a data block in row form: nodes with absolute ids and
//! coordinates, and ways with absolute node ids and resolved tags.
use vstd::prelude::*;
use vstd::utf8::{decode_utf8, valid_utf8};
use crate::delta::{decode_deltas, fits_i64, ints, lemma_accumulator_starts_at_zero, running_sums};
use crate::error::OsmError;
use crate::osmformat::{DenseNodes, Node, PrimitiveBlock, PrimitiveGroup, Way};

verus! {

/// A node decoded from a dense-nodes set: absolute id, and latitude and
/// longitude in units of 1e-7 degree.
#[derive(Clone, Copy, Debug, PartialEq, Eq)]
pub struct DenseNode {
    pub id: i64,
    pub lat: i64,
    pub lon: i64,
}

/// The three columns of `d` have one length, and every running sum of each
/// fits in `i64`.
pub open spec fn dense_decodable(d: DenseNodes) -> bool {
    &&& d.lat@.len() == d.id@.len()
    &&& d.lon@.len() == d.id@.len()
    &&& fits_i64(running_sums(ints(d.id@)))
    &&& fits_i64(running_sums(ints(d.lat@)))
    &&& fits_i64(running_sums(ints(d.lon@)))
}

/// The nodes of the set `d`, row `i` made of the running sums of each column
/// up to `i`.
pub open spec fn dense_rows(d: DenseNodes) -> Seq<DenseNode> {
    Seq::new(
        d.id@.len(),
        |i: int|
            DenseNode {
                id: running_sums(ints(d.id@))[i] as i64,
                lat: running_sums(ints(d.lat@))[i] as i64,
                lon: running_sums(ints(d.lon@))[i] as i64,
            },
    )
}

/// Turns a columnar dense-nodes set into rows of absolute values. Each column
/// has its own accumulator, which starts at zero.
pub fn as_vec_dense_nodes(dense_nodes: &DenseNodes) -> (r: Result<Vec<DenseNode>, OsmError>)
    ensures
        match r {
            Ok(v) => dense_decodable(*dense_nodes) && v@ == dense_rows(*dense_nodes),
            Err(e) => e == OsmError::SchemaViolation && !dense_decodable(*dense_nodes),
        },
{
    let n = dense_nodes.id.len();
    if dense_nodes.lat.len() != n || dense_nodes.lon.len() != n {
        return Err(OsmError::SchemaViolation);
    }
    let ids = decode_deltas(dense_nodes.id.as_slice())?;
    let lats = decode_deltas(dense_nodes.lat.as_slice())?;
    let lons = decode_deltas(dense_nodes.lon.as_slice())?;
    let ghost rows = dense_rows(*dense_nodes);
    assert(ints(ids@).len() == ids@.len() && ints(lats@).len() == lats@.len() && ints(lons@).len()
        == lons@.len());
    let mut out: Vec<DenseNode> = Vec::new();
    let mut i: usize = 0;
    while i < n
        invariant
            n == dense_nodes.id@.len(),
            ints(ids@) == running_sums(ints(dense_nodes.id@)),
            ints(lats@) == running_sums(ints(dense_nodes.lat@)),
            ints(lons@) == running_sums(ints(dense_nodes.lon@)),
            dense_nodes.lat@.len() == n,
            dense_nodes.lon@.len() == n,
            rows == dense_rows(*dense_nodes),
            ids@.len() == n && lats@.len() == n && lons@.len() == n,
            i <= n,
            out@ == rows.take(i as int),
        decreases n - i,
    {
        assert(ints(ids@)[i as int] == ids@[i as int] as int);
        assert(ints(lats@)[i as int] == lats@[i as int] as int);
        assert(ints(lons@)[i as int] == lons@[i as int] as int);
        out.push(DenseNode { id: ids[i], lat: lats[i], lon: lons[i] });
        assert(out@ =~= rows.take(i + 1));
        i = i + 1;
    }
    assert(out@ =~= rows);
    Ok(out)
}

/// The absolute ids of the nodes along a way, in order: the running sum of
/// its delta-encoded references.
pub fn iter_node_ids(way: &Way) -> (r: Result<Vec<i64>, OsmError>)
    ensures
        match r {
            Ok(v) => fits_i64(running_sums(ints(way.refs@))) && ints(v@) == running_sums(
                ints(way.refs@),
            ),
            Err(e) => e == OsmError::SchemaViolation && !fits_i64(running_sums(ints(way.refs@))),
        },
{
    decode_deltas(way.refs.as_slice())
}

/// The plain nodes of all groups, group by group.
pub open spec fn all_nodes(gs: Seq<PrimitiveGroup>) -> Seq<Node>
    decreases gs.len(),
{
    if gs.len() == 0 {
        seq![]
    } else {
        all_nodes(gs.drop_last()) + gs.last().nodes@
    }
}

/// The ways of all groups, group by group.
pub open spec fn all_ways(gs: Seq<PrimitiveGroup>) -> Seq<Way>
    decreases gs.len(),
{
    if gs.len() == 0 {
        seq![]
    } else {
        all_ways(gs.drop_last()) + gs.last().ways@
    }
}

/// The dense-nodes sets of the groups that have one, in order.
pub open spec fn dense_sets(gs: Seq<PrimitiveGroup>) -> Seq<DenseNodes>
    decreases gs.len(),
{
    if gs.len() == 0 {
        seq![]
    } else {
        dense_sets(gs.drop_last()) + match gs.last().dense {
            Some(d) => seq![d],
            None => seq![],
        }
    }
}

/// The rows of several dense-nodes sets, set by set.
pub open spec fn rows_of_sets(sets: Seq<DenseNodes>) -> Seq<DenseNode>
    decreases sets.len(),
{
    if sets.len() == 0 {
        seq![]
    } else {
        rows_of_sets(sets.drop_last()) + dense_rows(sets.last())
    }
}

/// Expanding two dense-nodes sets one after the other gives the rows of each
/// set as if it were expanded alone: the second set's first node has exactly
/// its first deltas as id and coordinates.
pub proof fn lemma_sets_expand_independently(first: DenseNodes, second: DenseNodes)
    requires
        second.id@.len() > 0,
        dense_decodable(second),
    ensures
        rows_of_sets(seq![first, second]) == dense_rows(first) + dense_rows(second),
        rows_of_sets(seq![first, second])[dense_rows(first).len() as int] == (DenseNode {
            id: second.id@[0],
            lat: second.lat@[0],
            lon: second.lon@[0],
        }),
{
    assert(seq![first, second].drop_last() =~= seq![first]);
    assert(seq![first].drop_last() =~= Seq::<DenseNodes>::empty());
    assert(rows_of_sets(Seq::<DenseNodes>::empty()) == Seq::<DenseNode>::empty());
    assert(rows_of_sets(seq![first]) =~= dense_rows(first));
    lemma_accumulator_starts_at_zero(ints(second.id@));
    lemma_accumulator_starts_at_zero(ints(second.lat@));
    lemma_accumulator_starts_at_zero(ints(second.lon@));
}

/// References to the plain nodes of a block, group by group.
pub fn iter_nodes<'a>(primitive_block: &'a PrimitiveBlock) -> (r: Vec<&'a Node>)
    ensures
        r@.map_values(|n: &Node| *n) == all_nodes(primitive_block.spec_primitivegroup()),
{
    let groups = primitive_block.primitivegroup();
    let mut out: Vec<&Node> = Vec::new();
    let mut g: usize = 0;
    while g < groups.len()
        invariant
            g <= groups@.len(),
            out@.map_values(|n: &Node| *n) == all_nodes(groups@.take(g as int)),
        decreases groups@.len() - g,
    {
        let nodes = &groups[g].nodes;
        let ghost before = out@.map_values(|n: &Node| *n);
        let mut j: usize = 0;
        while j < nodes.len()
            invariant
                j <= nodes@.len(),
                out@.map_values(|n: &Node| *n) == before + nodes@.take(j as int),
            decreases nodes@.len() - j,
        {
            let ghost prev = out@;
            out.push(&nodes[j]);
            assert(out@ =~= prev.push(&nodes@[j as int]));
            assert(out@.map_values(|n: &Node| *n) =~= prev.map_values(|n: &Node| *n).push(nodes@[j as int]));
            assert(out@.map_values(|n: &Node| *n) =~= before + nodes@.take(j + 1));
            j = j + 1;
        }
        assert(groups@.take(g + 1).drop_last() =~= groups@.take(g as int));
        assert(nodes@.take(j as int) =~= nodes@);
        g = g + 1;
    }
    assert(groups@.take(groups@.len() as int) =~= groups@);
    out
}

/// References to the ways of a block, group by group.
pub fn iter_ways<'a>(primitive_block: &'a PrimitiveBlock) -> (r: Vec<&'a Way>)
    ensures
        r@.map_values(|w: &Way| *w) == all_ways(primitive_block.spec_primitivegroup()),
{
    let groups = primitive_block.primitivegroup();
    let mut out: Vec<&Way> = Vec::new();
    let mut g: usize = 0;
    while g < groups.len()
        invariant
            g <= groups@.len(),
            out@.map_values(|w: &Way| *w) == all_ways(groups@.take(g as int)),
        decreases groups@.len() - g,
    {
        let ways = &groups[g].ways;
        let ghost before = out@.map_values(|w: &Way| *w);
        let mut j: usize = 0;
        while j < ways.len()
            invariant
                j <= ways@.len(),
                out@.map_values(|w: &Way| *w) == before + ways@.take(j as int),
            decreases ways@.len() - j,
        {
            let ghost prev = out@;
            out.push(&ways[j]);
            assert(out@ =~= prev.push(&ways@[j as int]));
            assert(out@.map_values(|w: &Way| *w) =~= prev.map_values(|w: &Way| *w).push(ways@[j as int]));
            assert(out@.map_values(|w: &Way| *w) =~= before + ways@.take(j + 1));
            j = j + 1;
        }
        assert(groups@.take(g + 1).drop_last() =~= groups@.take(g as int));
        assert(ways@.take(j as int) =~= ways@);
        g = g + 1;
    }
    assert(groups@.take(groups@.len() as int) =~= groups@);
    out
}

/// The dense-nodes set of a group, if it has one.
pub open spec fn dense_entry(d: Option<&DenseNodes>) -> Option<DenseNodes> {
    match d {
        Some(x) => Some(*x),
        None => None,
    }
}

/// The dense-nodes set of each group of a block, one entry per group, in
/// group order: `None` where the group holds no dense nodes, which stands for
/// an empty set.
pub fn iter_dense_nodeses<'a>(primitive_block: &'a PrimitiveBlock) -> (r: Vec<
    Option<&'a DenseNodes>,
>)
    ensures
        r@.len() == primitive_block.spec_primitivegroup().len(),
        forall|i: int|
            0 <= i < r@.len() ==> dense_entry(#[trigger] r@[i])
                == primitive_block.spec_primitivegroup()[i].dense,
{
    let groups = primitive_block.primitivegroup();
    let mut out: Vec<Option<&DenseNodes>> = Vec::new();
    let mut g: usize = 0;
    while g < groups.len()
        invariant
            g <= groups@.len(),
            groups@ == primitive_block.spec_primitivegroup(),
            out@.len() == g,
            forall|i: int| 0 <= i < g ==> dense_entry(#[trigger] out@[i]) == groups@[i].dense,
        decreases groups@.len() - g,
    {
        match &groups[g].dense {
            Some(d) => out.push(Some(d)),
            None => out.push(None),
        }
        g = g + 1;
    }
    out
}

/// The group's dense-nodes set, if it has one, expands without error.
pub open spec fn group_decodable(g: PrimitiveGroup) -> bool {
    match g.dense {
        Some(d) => dense_decodable(d),
        None => true,
    }
}

/// The nodes of every dense-nodes set of a block, set by set, each set
/// expanded with accumulators of its own.
pub fn block_dense_nodes(primitive_block: &PrimitiveBlock) -> (r: Result<Vec<DenseNode>, OsmError>)
    ensures
        match r {
            Ok(v) => (forall|i: int|
                0 <= i < primitive_block.spec_primitivegroup().len() ==> group_decodable(
                    #[trigger] primitive_block.spec_primitivegroup()[i],
                )) && v@ == rows_of_sets(
                dense_sets(primitive_block.spec_primitivegroup()),
            ),
            Err(e) => e == OsmError::SchemaViolation && exists|i: int|
                0 <= i < primitive_block.spec_primitivegroup().len() && !group_decodable(
                    #[trigger] primitive_block.spec_primitivegroup()[i],
                ),
        },
{
    let groups = primitive_block.primitivegroup();
    let mut out: Vec<DenseNode> = Vec::new();
    let mut g: usize = 0;
    while g < groups.len()
        invariant
            g <= groups@.len(),
            groups@ == primitive_block.spec_primitivegroup(),
            out@ == rows_of_sets(dense_sets(groups@.take(g as int))),
            forall|i: int|
                0 <= i < g ==> group_decodable(#[trigger] groups@[i]),
        decreases groups@.len() - g,
    {
        let ghost before = dense_sets(groups@.take(g as int));
        assert(groups@.take(g + 1).drop_last() =~= groups@.take(g as int));
        assert(groups@.take(g + 1).last() == groups@[g as int]);
        match &groups[g].dense {
            Some(d) => {
                let mut rows = match as_vec_dense_nodes(d) {
                    Ok(rows) => rows,
                    Err(e) => {
                        assert(!group_decodable(groups@[g as int]));
                        return Err(e);
                    },
                };
                assert((before + seq![*d]).drop_last() =~= before);
                out.append(&mut rows);
            },
            None => {
                assert(before + seq![] =~= before);
            },
        }
        g = g + 1;
    }
    assert(groups@.take(groups@.len() as int) =~= groups@);
    Ok(out)
}

/// The first node of a dense-nodes set has exactly the set's first deltas as
/// id and coordinates: no accumulator carries over from any set expanded
/// before it.
pub proof fn lemma_first_row(d: DenseNodes)
    requires
        d.id@.len() > 0,
        dense_decodable(d),
    ensures
        dense_rows(d)[0] == (DenseNode { id: d.id@[0], lat: d.lat@[0], lon: d.lon@[0] }),
{
    lemma_accumulator_starts_at_zero(ints(d.id@));
    lemma_accumulator_starts_at_zero(ints(d.lat@));
    lemma_accumulator_starts_at_zero(ints(d.lon@));
}

/// A way with its tags resolved against the string table of its block, each
/// key paired with its value in the order the way lists them.
#[derive(Clone, Debug)]
pub struct MyWay {
    pub way: Way,
    pub tags: Vec<(String, String)>,
}

/// The key and value index lists have one length and every index is below
/// `n`.
pub open spec fn tags_resolvable(keys: Seq<u32>, vals: Seq<u32>, n: nat) -> bool {
    &&& keys.len() == vals.len()
    &&& forall|i: int| 0 <= i < keys.len() ==> #[trigger] keys[i] < n && vals[i] < n
}

/// `tags` pairs, position by position, the text at each key index with the
/// text at the value index.
pub open spec fn tags_are(
    tags: Seq<(String, String)>,
    keys: Seq<u32>,
    vals: Seq<u32>,
    texts: Seq<Seq<char>>,
) -> bool {
    &&& tags.len() == keys.len()
    &&& forall|i: int|
        0 <= i < keys.len() ==> (#[trigger] tags[i]).0@ == texts[keys[i] as int] && tags[i].1@
            == texts[vals[i] as int]
}

/// The texts of a list of strings.
pub open spec fn texts_of(strings: Seq<String>) -> Seq<Seq<char>> {
    strings.map_values(|s: String| s@)
}

/// The texts that a string table's entries encode in UTF-8.
pub open spec fn table_texts(table: Seq<Vec<u8>>) -> Seq<Seq<char>> {
    table.map_values(|b: Vec<u8>| decode_utf8(b@))
}

/// Every entry of the string table is valid UTF-8.
pub open spec fn table_valid(table: Seq<Vec<u8>>) -> bool {
    forall|i: int| 0 <= i < table.len() ==> valid_utf8(#[trigger] table[i]@)
}

/// Relies on `String::from_utf8` (on a copy of the bytes): a string exactly
/// where the bytes are valid UTF-8, holding the characters they encode.
#[verifier::external_body]
fn utf8_string(b: &[u8]) -> (r: Option<String>)
    ensures
        match r {
            Some(s) => valid_utf8(b@) && s@ == decode_utf8(b@),
            None => !valid_utf8(b@),
        },
{
    String::from_utf8(b.to_vec()).ok()
}

/// Reads the entries of a string table as UTF-8 text.
pub fn decode_string_table(table: &Vec<Vec<u8>>) -> (r: Result<Vec<String>, OsmError>)
    ensures
        match r {
            Ok(v) => table_valid(table@) && texts_of(v@) == table_texts(table@),
            Err(e) => e == OsmError::SchemaViolation && !table_valid(table@),
        },
{
    let mut out: Vec<String> = Vec::new();
    let mut i: usize = 0;
    while i < table.len()
        invariant
            i <= table@.len(),
            out@.len() == i,
            forall|j: int| 0 <= j < i ==> valid_utf8(#[trigger] table@[j]@),
            forall|j: int| 0 <= j < i ==> (#[trigger] out@[j])@ == decode_utf8(table@[j]@),
        decreases table@.len() - i,
    {
        match utf8_string(table[i].as_slice()) {
            Some(text) => {
                out.push(text);
            },
            None => {
                return Err(OsmError::SchemaViolation);
            },
        }
        i = i + 1;
    }
    assert(texts_of(out@) =~= table_texts(table@));
    Ok(out)
}

/// Resolves a way's tags: key index `keys[i]` and value index `vals[i]`
/// name entries of `strings`. Lists of unequal length, or an index past the
/// table, are refused.
pub fn resolve_tags(keys: &[u32], vals: &[u32], strings: &[String]) -> (r: Result<
    Vec<(String, String)>,
    OsmError,
>)
    ensures
        match r {
            Ok(tags) => tags_resolvable(keys@, vals@, strings@.len()) && tags_are(
                tags@,
                keys@,
                vals@,
                texts_of(strings@),
            ),
            Err(e) => e == OsmError::SchemaViolation && !tags_resolvable(
                keys@,
                vals@,
                strings@.len(),
            ),
        },
{
    if keys.len() != vals.len() {
        return Err(OsmError::SchemaViolation);
    }
    let mut out: Vec<(String, String)> = Vec::new();
    let mut i: usize = 0;
    while i < keys.len()
        invariant
            keys@.len() == vals@.len(),
            i <= keys@.len(),
            out@.len() == i,
            forall|j: int| 0 <= j < i ==> #[trigger] keys@[j] < strings@.len() && vals@[j] < strings@.len(),
            forall|j: int|
                0 <= j < i ==> (#[trigger] out@[j]).0@ == texts_of(strings@)[keys@[j] as int]
                    && out@[j].1@ == texts_of(strings@)[vals@[j] as int],
        decreases keys@.len() - i,
    {
        let k = keys[i] as usize;
        let v = vals[i] as usize;
        if k >= strings.len() || v >= strings.len() {
            return Err(OsmError::SchemaViolation);
        }
        out.push((strings[k].clone(), strings[v].clone()));
        i = i + 1;
    }
    Ok(out)
}

/// `a` and `b` hold the same way.
pub open spec fn same_way(a: Way, b: Way) -> bool {
    &&& a.id == b.id
    &&& a.keys@ == b.keys@
    &&& a.vals@ == b.vals@
    &&& a.refs@ == b.refs@
}

fn copy_way(w: &Way) -> (r: Way)
    ensures
        same_way(r, *w),
{
    Way {
        id: w.id,
        keys: vstd::slice::slice_to_vec(w.keys.as_slice()),
        vals: vstd::slice::slice_to_vec(w.vals.as_slice()),
        refs: vstd::slice::slice_to_vec(w.refs.as_slice()),
    }
}

/// The ways of a block, group by group, each with its tags resolved against
/// the block's string table.
pub fn into_vec_ways(primitive_block: PrimitiveBlock) -> (r: Result<Vec<MyWay>, OsmError>)
    ensures
        match r {
            Ok(v) => {
                let ways = all_ways(primitive_block.spec_primitivegroup());
                let table = primitive_block.spec_stringtable();
                &&& table_valid(table)
                &&& v@.len() == ways.len()
                &&& forall|i: int|
                    0 <= i < ways.len() ==> {
                        &&& same_way((#[trigger] v@[i]).way, ways[i])
                        &&& tags_resolvable(ways[i].keys@, ways[i].vals@, table.len())
                        &&& tags_are(v@[i].tags@, ways[i].keys@, ways[i].vals@, table_texts(table))
                    }
            },
            Err(e) => {
                let ways = all_ways(primitive_block.spec_primitivegroup());
                let table = primitive_block.spec_stringtable();
                &&& e == OsmError::SchemaViolation
                &&& !table_valid(table) || exists|i: int|
                    0 <= i < ways.len() && !tags_resolvable(
                        (#[trigger] ways[i]).keys@,
                        ways[i].vals@,
                        table.len(),
                    )
            },
        },
{
    let strings = decode_string_table(primitive_block.stringtable())?;
    let ways = iter_ways(&primitive_block);
    let ghost all = all_ways(primitive_block.spec_primitivegroup());
    let ghost table = primitive_block.spec_stringtable();
    assert(ways@.map_values(|w: &Way| *w).len() == ways@.len());
    assert(texts_of(strings@).len() == strings@.len());
    assert(table_texts(table).len() == table.len());
    let mut out: Vec<MyWay> = Vec::new();
    let mut i: usize = 0;
    while i < ways.len()
        invariant
            ways@.map_values(|w: &Way| *w) == all,
            all == all_ways(primitive_block.spec_primitivegroup()),
            all.len() == ways@.len(),
            table == primitive_block.spec_stringtable(),
            texts_of(strings@) == table_texts(table),
            strings@.len() == table.len(),
            i <= ways@.len(),
            out@.len() == i,
            forall|j: int|
                0 <= j < i ==> {
                    &&& same_way((#[trigger] out@[j]).way, all[j])
                    &&& tags_resolvable(all[j].keys@, all[j].vals@, table.len())
                    &&& tags_are(out@[j].tags@, all[j].keys@, all[j].vals@, table_texts(table))
                },
        decreases ways@.len() - i,
    {
        let w = ways[i];
        assert(all[i as int] == *w);
        let tags = match resolve_tags(w.keys.as_slice(), w.vals.as_slice(), strings.as_slice()) {
            Ok(t) => t,
            Err(e) => {
                assert(!tags_resolvable(all[i as int].keys@, all[i as int].vals@, table.len()));
                return Err(e);
            },
        };
        out.push(MyWay { way: copy_way(w), tags });
        i = i + 1;
    }
    Ok(out)
}

impl MyWay {
    /// The value of tag `key`: as in a map built from the pairs in order, the
    /// last pair with that key gives it.
    pub fn get_tag(&self, key: &String) -> (r: Option<&String>)
        ensures
            match r {
                Some(v) => exists|i: int|
                    0 <= i < self.tags@.len() && (#[trigger] self.tags@[i]).0@ == key@ && v
                        == self.tags@[i].1 && forall|j: int|
                        i < j < self.tags@.len() ==> (#[trigger] self.tags@[j]).0@ != key@,
                None => forall|i: int|
                    0 <= i < self.tags@.len() ==> (#[trigger] self.tags@[i]).0@ != key@,
            },
    {
        let mut found: Option<usize> = None;
        let mut i: usize = 0;
        while i < self.tags.len()
            invariant
                i <= self.tags@.len(),
                match found {
                    Some(k) => k < i && self.tags@[k as int].0@ == key@ && forall|j: int|
                        k < j < i ==> (#[trigger] self.tags@[j]).0@ != key@,
                    None => forall|j: int| 0 <= j < i ==> (#[trigger] self.tags@[j]).0@ != key@,
                },
            decreases self.tags@.len() - i,
        {
            if self.tags[i].0 == *key {
                found = Some(i);
            }
            i = i + 1;
        }
        match found {
            Some(k) => Some(&self.tags[k].1),
            None => None,
        }
    }
}

} // verus!
