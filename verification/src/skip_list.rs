use crate::bytes::{
    be8, be_word, lemma_be8_between, lemma_be8_word, patched, push_word, read_word, write_at,
};
use crate::json::{chars_eq, chars_lt, seq_lt};
use crate::text::{chars_of, string_from_utf8};
use vstd::prelude::*;
use vstd::utf8::{decode_utf8, encode_utf8, encode_utf8_decode_utf8, encode_utf8_valid_utf8, valid_utf8};

verus! {

#[verifier::external_type_specification]
#[verifier::external_body]
pub struct ExFromUtf8Error(std::string::FromUtf8Error);

/// What can go wrong in the skip list.
#[derive(Debug)]
pub enum SkipListError {
    FileError(std::io::Error),
    Utf8Error(std::string::FromUtf8Error),
}

/// `rand::random::<bool>()`: a fair coin flip from the thread's random generator; nothing
/// is stated of which side comes up.
#[verifier::external_body]
fn coin_flip() -> bool {
    rand::random::<bool>()
}

/// How many of the flips, from the first on, come up heads before the first tails, up to
/// `max`.
pub open spec fn leading_heads(flips: Seq<bool>, max: int) -> int
    decreases flips.len(),
{
    if max <= 0 || flips.len() == 0 || !flips[0] {
        0
    } else {
        1 + leading_heads(flips.drop_first(), max - 1)
    }
}

/// How many levels above the bottom row a key rises for these coin flips: one more for each
/// head in a row, from the first flip on, up to `max`.
pub fn height_from_flips(flips: &Vec<bool>, max: usize) -> (h: usize)
    ensures
        h == leading_heads(flips@, max as int),
        h <= max,
{
    let mut h: usize = 0;
    assert(flips@.subrange(0, flips@.len() as int) =~= flips@);
    while h < max && h < flips.len() && flips[h]
        invariant
            h <= max,
            h <= flips.len(),
            forall|j: int| 0 <= j < h ==> flips@[j],
            leading_heads(flips@, max as int) == h + leading_heads(
                flips@.subrange(h as int, flips@.len() as int),
                max - h,
            ),
        decreases max - h,
    {
        let ghost rest = flips@.subrange(h as int, flips@.len() as int);
        assert(rest.drop_first() =~= flips@.subrange(h + 1, flips@.len() as int));
        h += 1;
    }
    proof {
        let rest = flips@.subrange(h as int, flips@.len() as int);
        assert(leading_heads(rest, max - h) == 0);
    }
    h
}

/// How many levels above the bottom row a new key rises: coins are flipped until one comes
/// up tails or `max` came up heads, and the height is then [`height_from_flips`] of them.
pub fn tower_height(max: usize) -> (h: usize)
    ensures
        h <= max,
{
    let mut flips: Vec<bool> = Vec::new();
    let mut heads: usize = 0;
    let mut done = false;
    while !done && heads < max
        invariant
            heads <= max,
        decreases max - heads + if done { 0int } else { 1int },
    {
        let f = coin_flip();
        flips.push(f);
        if f {
            heads += 1;
        } else {
            done = true;
        }
    }
    height_from_flips(&flips, max)
}


/// Kinds of skip-list nodes: links between rows, data, and nodes moved or removed.
#[derive(Debug, PartialEq, Eq, PartialOrd, Ord, Clone, Copy, Structural)]
pub enum NodeType {
    Linker,
    Data,
    Deleted,
}

/// The byte a kind of node is written with.
pub open spec fn type_code(t: NodeType) -> u8 {
    match t {
        NodeType::Linker => 0,
        NodeType::Data => 1,
        NodeType::Deleted => 2,
    }
}

/// The kind of node a byte stands for (any other byte: deleted).
pub open spec fn type_of_code(c: u8) -> NodeType {
    if c == 0 {
        NodeType::Linker
    } else if c == 1 {
        NodeType::Data
    } else {
        NodeType::Deleted
    }
}

impl NodeType {
    /// The byte the kind is written with.
    pub fn as_u8(&self) -> (c: u8)
        ensures
            c == type_code(*self),
    {
        match self {
            NodeType::Linker => 0,
            NodeType::Data => 1,
            NodeType::Deleted => 2,
        }
    }

    /// The kind a byte stands for.
    pub fn from_u8(u: u8) -> (t: NodeType)
        ensures
            t == type_of_code(u),
    {
        match u {
            0 => NodeType::Linker,
            1 => NodeType::Data,
            _ => NodeType::Deleted,
        }
    }
}

/// The word that stands for no node.
pub const NULL_NODE_ID: u64 = 0xffff_ffff_ffff_ffff;

/// Where the key starts in a node's record: after the kind, four links and two lengths.
pub const NODE_HEADER_SIZE: usize = 49;

/// A node of a skip list, as kept in its file: where its record is, its kind, its key, its
/// links up, down, left and right, and, for data, the record locations it holds.
#[derive(Debug)]
pub struct Node {
    pub id: usize,
    pub node_type: NodeType,
    pub key: String,
    pub top_node: Option<usize>,
    pub down_node: Option<usize>,
    pub prev_node: Option<usize>,
    pub next_node: Option<usize>,
    pub value: Vec<usize>,
}

/// The word a link is written as (no node: all ones).
pub open spec fn pointer_word(p: Option<usize>) -> u64 {
    match p {
        Some(x) => x as u64,
        None => NULL_NODE_ID,
    }
}

/// The link a word stands for.
pub open spec fn pointer_of(w: u64) -> Option<usize> {
    if w == NULL_NODE_ID {
        None
    } else {
        Some(w as usize)
    }
}

/// The bytes of the record locations of a node, eight big-endian bytes each.
pub open spec fn value_bytes(v: Seq<usize>) -> Seq<u8>
    decreases v.len(),
{
    if v.len() == 0 {
        Seq::empty()
    } else {
        value_bytes(v.drop_last()) + be8(v.last() as u64)
    }
}

/// The record locations written in bytes, eight bytes each.
pub open spec fn words_of(b: Seq<u8>) -> Seq<usize>
    decreases b.len(),
{
    if b.len() < 8 {
        Seq::empty()
    } else {
        words_of(b.subrange(0, b.len() - 8)) + seq![be_word(b, b.len() - 8) as usize]
    }
}

/// The header of a node's record: its kind, its links right, left, up and down, the length
/// of its key in bytes and the length of its locations in bytes.
pub open spec fn header_bytes(n: Node) -> Seq<u8> {
    seq![type_code(n.node_type)] + be8(pointer_word(n.next_node)) + be8(pointer_word(n.prev_node))
        + be8(pointer_word(n.top_node)) + be8(pointer_word(n.down_node)) + be8(
        encode_utf8(n.key@).len() as u64,
    ) + be8((n.value@.len() * 8) as u64)
}

/// The record of a node: its header, its key, its locations.
pub open spec fn record_bytes(n: Node) -> Seq<u8> {
    header_bytes(n) + encode_utf8(n.key@) + value_bytes(n.value@)
}

/// A node read back as values.
pub enum NodeView {
    /// A live node: kind, key, links right, left, up and down, locations.
    Found(NodeType, Seq<char>, Option<usize>, Option<usize>, Option<usize>, Option<usize>, Seq<usize>),
    /// A node moved to another record.
    MovedTo(usize),
    /// A node removed with no other record.
    Gone,
}

/// Why the bytes of a record do not read.
#[derive(Debug, PartialEq, Eq, Clone, Copy, Structural)]
pub enum RecordError {
    /// The bytes end before the record does.
    Truncated,
    /// The key is not UTF-8.
    InvalidKey,
    /// A moved node names a record at or before its own: following it would not end.
    LinkBack,
}

/// How the bytes from a node's record on read: the header; a deleted node names where it
/// moved (or nothing); otherwise the key follows, and for data the locations after it.
#[verifier::opaque]
pub open spec fn read_record(b: Seq<u8>) -> Result<NodeView, RecordError> {
    if b.len() < NODE_HEADER_SIZE {
        Err(RecordError::Truncated)
    } else {
        let t = type_of_code(b[0]);
        let next = pointer_of(be_word(b, 1));
        if t == NodeType::Deleted {
            match next {
                Some(x) => Ok(NodeView::MovedTo(x)),
                None => Ok(NodeView::Gone),
            }
        } else {
            let klen = be_word(b, 33) as int;
            let vlen = be_word(b, 41) as int;
            let kend = NODE_HEADER_SIZE + klen;
            if kend > b.len() {
                Err(RecordError::Truncated)
            } else if !valid_utf8(b.subrange(NODE_HEADER_SIZE as int, kend)) {
                Err(RecordError::InvalidKey)
            } else if t == NodeType::Data && kend + vlen > b.len() {
                Err(RecordError::Truncated)
            } else {
                Ok(
                    NodeView::Found(
                        t,
                        decode_utf8(b.subrange(NODE_HEADER_SIZE as int, kend)),
                        next,
                        pointer_of(be_word(b, 9)),
                        pointer_of(be_word(b, 17)),
                        pointer_of(be_word(b, 25)),
                        if t == NodeType::Data {
                            words_of(b.subrange(kend, kend + vlen))
                        } else {
                            Seq::empty()
                        },
                    ),
                )
            }
        }
    }
}

/// Whether the locations of a data record are whole words: reading a partial word panics.
pub open spec fn whole_words(b: Seq<u8>) -> bool {
    b.len() >= NODE_HEADER_SIZE && type_of_code(b[0]) == NodeType::Data ==> be_word(b, 41) % 8 == 0
}

/// What was read from a record, for the node at `id`.
pub enum NodeRecord {
    Found(Node),
    MovedTo(usize),
    Gone,
}

/// The values of what was read.
pub open spec fn record_view(r: NodeRecord) -> NodeView {
    match r {
        NodeRecord::Found(n) => NodeView::Found(
            n.node_type,
            n.key@,
            n.next_node,
            n.prev_node,
            n.top_node,
            n.down_node,
            n.value@,
        ),
        NodeRecord::MovedTo(x) => NodeView::MovedTo(x),
        NodeRecord::Gone => NodeView::Gone,
    }
}

/// Appends the word of a link.
fn push_pointer(out: &mut Vec<u8>, p: Option<usize>)
    ensures
        final(out)@ == old(out)@ + be8(pointer_word(p)),
{
    match p {
        Some(x) => push_word(out, x as u64),
        None => push_word(out, NULL_NODE_ID),
    }
}

/// The link a word stands for.
fn read_pointer(b: &[u8], i: usize) -> (p: Option<usize>)
    requires
        i + 8 <= b.len(),
    ensures
        p == pointer_of(be_word(b@, i as int)),
{
    let w = read_word(b, i);
    if w == NULL_NODE_ID {
        None
    } else {
        Some(w as usize)
    }
}

/// The header of a node's record.
pub fn convert_node_to_header(node: &Node) -> (r: Vec<u8>)
    requires
        node.value@.len() * 8 <= u64::MAX,
    ensures
        r@ == header_bytes(*node),
{
    let mut ret: Vec<u8> = Vec::new();
    ret.push(node.node_type.as_u8());
    push_pointer(&mut ret, node.next_node);
    push_pointer(&mut ret, node.prev_node);
    push_pointer(&mut ret, node.top_node);
    push_pointer(&mut ret, node.down_node);
    let key_len = node.key.as_str().as_bytes().len();
    push_word(&mut ret, key_len as u64);
    push_word(&mut ret, (node.value.len() as u64) * 8);
    assert(ret@ =~= header_bytes(*node));
    ret
}

/// The record of a node: header, key bytes, locations.
pub fn node_record(node: &Node) -> (r: Vec<u8>)
    requires
        node.value@.len() * 8 <= u64::MAX,
    ensures
        r@ == record_bytes(*node),
{
    let mut ret = convert_node_to_header(node);
    let key = node.key.as_str().as_bytes();
    let mut i: usize = 0;
    let ghost head = ret@;
    while i < key.len()
        invariant
            i <= key.len(),
            ret@ == head + key@.take(i as int),
        decreases key.len() - i,
    {
        ret.push(key[i]);
        assert(key@.take(i + 1) == key@.take(i as int).push(key@[i as int]));
        i += 1;
    }
    assert(key@.take(key.len() as int) == key@);
    let ghost with_key = ret@;
    let mut j: usize = 0;
    assert(node.value@.take(0) =~= Seq::<usize>::empty());
    while j < node.value.len()
        invariant
            j <= node.value.len(),
            ret@ == with_key + value_bytes(node.value@.take(j as int)),
        decreases node.value.len() - j,
    {
        push_word(&mut ret, node.value[j] as u64);
        let ghost t = node.value@.take(j + 1);
        assert(t.drop_last() =~= node.value@.take(j as int));
        assert(t.last() == node.value@[j as int]);
        j += 1;
    }
    assert(node.value@.take(node.value.len() as int) =~= node.value@);
    ret
}

/// The locations written in `b[start..end]`, eight bytes each.
fn read_words(b: &[u8], start: usize, end: usize) -> (r: Vec<usize>)
    requires
        start <= end <= b.len(),
        (end - start) % 8 == 0,
    ensures
        r@ == words_of(b@.subrange(start as int, end as int)),
{
    let mut r: Vec<usize> = Vec::new();
    let mut k: usize = start;
    assert(b@.subrange(start as int, start as int) =~= Seq::<u8>::empty());
    while k < end
        invariant
            start <= k <= end <= b.len(),
            (k - start) % 8 == 0,
            (end - start) % 8 == 0,
            r@ == words_of(b@.subrange(start as int, k as int)),
        decreases end - k,
    {
        let w = read_word(b, k);
        r.push(w as usize);
        let ghost s = b@.subrange(start as int, k + 8);
        assert(s.subrange(0, s.len() - 8) =~= b@.subrange(start as int, k as int));
        assert(be_word(s, s.len() - 8) == be_word(b@, k as int));
        k += 8;
    }
    r
}

/// Reads the bytes from a node's record on (see [`read_record`]); the node is at `id`.
pub fn read_node_record(id: usize, b: &[u8]) -> (r: Result<NodeRecord, RecordError>)
    requires
        whole_words(b@),
    ensures
        match read_record(b@) {
            Ok(v) => r matches Ok(rec) && record_view(rec) == v && (rec matches NodeRecord::Found(
                n,
            ) ==> n.id == id),
            Err(e) => r == Err::<NodeRecord, RecordError>(e),
        },
{
    reveal(read_record);
    if b.len() < NODE_HEADER_SIZE {
        return Err(RecordError::Truncated);
    }
    let t = NodeType::from_u8(b[0]);
    let next = read_pointer(b, 1);
    if t == NodeType::Deleted {
        return Ok(
            match next {
                Some(x) => NodeRecord::MovedTo(x),
                None => NodeRecord::Gone,
            },
        );
    }
    let klen = read_word(b, 33);
    let vlen = read_word(b, 41);
    if klen > (b.len() - NODE_HEADER_SIZE) as u64 {
        return Err(RecordError::Truncated);
    }
    let kend = NODE_HEADER_SIZE + klen as usize;
    let mut key_bytes: Vec<u8> = Vec::new();
    let mut i: usize = NODE_HEADER_SIZE;
    while i < kend
        invariant
            NODE_HEADER_SIZE <= i <= kend <= b.len(),
            key_bytes@ == b@.subrange(NODE_HEADER_SIZE as int, i as int),
        decreases kend - i,
    {
        key_bytes.push(b[i]);
        assert(b@.subrange(NODE_HEADER_SIZE as int, i + 1) =~= b@.subrange(
            NODE_HEADER_SIZE as int,
            i as int,
        ).push(b@[i as int]));
        i += 1;
    }
    let key = match string_from_utf8(key_bytes) {
        Some(k) => k,
        None => {
            return Err(RecordError::InvalidKey);
        },
    };
    let value = if t == NodeType::Data {
        if vlen > (b.len() - kend) as u64 {
            return Err(RecordError::Truncated);
        }
        let vend = kend + vlen as usize;
        read_words(b, kend, vend)
    } else {
        Vec::new()
    };
    proof {
        if t != NodeType::Data {
            assert(value@ =~= Seq::<usize>::empty());
        }
    }
    Ok(
        NodeRecord::Found(
            Node {
                id,
                node_type: t,
                key,
                top_node: read_pointer(b, 17),
                down_node: read_pointer(b, 25),
                prev_node: read_pointer(b, 9),
                next_node: next,
                value,
            },
        ),
    )
}


/// Reading the bytes of record locations gives the locations back.
pub proof fn lemma_words_of_value_bytes(v: Seq<usize>)
    ensures
        value_bytes(v).len() == 8 * v.len(),
        words_of(value_bytes(v)) == v,
    decreases v.len(),
{
    if v.len() > 0 {
        lemma_words_of_value_bytes(v.drop_last());
        let b = value_bytes(v);
        let a = value_bytes(v.drop_last());
        lemma_be8_word(v.last() as u64);
        assert(b.subrange(0, b.len() - 8) =~= a);
        lemma_be8_between(a, v.last() as u64, Seq::empty());
        assert(a + be8(v.last() as u64) + Seq::<u8>::empty() =~= b);
        assert(v.drop_last().push(v.last()) =~= v);
    } else {
        assert(v =~= Seq::<usize>::empty());
    }
}

/// A word inside the first bytes reads the same with more bytes after them.
proof fn lemma_be_word_prefix(a: Seq<u8>, c: Seq<u8>, i: int)
    requires
        0 <= i,
        i + 8 <= a.len(),
    ensures
        be_word(a + c, i) == be_word(a, i),
{
    let s = a + c;
    assert(s[i] == a[i] && s[i + 1] == a[i + 1] && s[i + 2] == a[i + 2] && s[i + 3] == a[i + 3]);
    assert(s[i + 4] == a[i + 4] && s[i + 5] == a[i + 5] && s[i + 6] == a[i + 6] && s[i + 7] == a[
        i + 7
    ]);
}

/// The words of a header stand where they are read.
proof fn lemma_header_words(n: Node)
    ensures
        header_bytes(n).len() == NODE_HEADER_SIZE,
        header_bytes(n)[0] == type_code(n.node_type),
        be_word(header_bytes(n), 1) == pointer_word(n.next_node),
        be_word(header_bytes(n), 9) == pointer_word(n.prev_node),
        be_word(header_bytes(n), 17) == pointer_word(n.top_node),
        be_word(header_bytes(n), 25) == pointer_word(n.down_node),
        be_word(header_bytes(n), 33) == encode_utf8(n.key@).len() as u64,
        be_word(header_bytes(n), 41) == (n.value@.len() * 8) as u64,
{
    let p0 = seq![type_code(n.node_type)];
    let v1 = pointer_word(n.next_node);
    let v2 = pointer_word(n.prev_node);
    let v3 = pointer_word(n.top_node);
    let v4 = pointer_word(n.down_node);
    let v5 = encode_utf8(n.key@).len() as u64;
    let v6 = (n.value@.len() * 8) as u64;
    let h = header_bytes(n);
    lemma_be8_word(v1);
    lemma_be8_word(v2);
    lemma_be8_word(v3);
    lemma_be8_word(v4);
    lemma_be8_word(v5);
    lemma_be8_word(v6);
    assert(h.len() == 49);
    assert(be_word(h, 1) == v1) by {
        lemma_be8_between(p0, v1, be8(v2) + be8(v3) + be8(v4) + be8(v5) + be8(v6));
        assert(p0 + be8(v1) + (be8(v2) + be8(v3) + be8(v4) + be8(v5) + be8(v6)) =~= h);
    }
    assert(be_word(h, 9) == v2) by {
        lemma_be8_between(p0 + be8(v1), v2, be8(v3) + be8(v4) + be8(v5) + be8(v6));
        assert(p0 + be8(v1) + be8(v2) + (be8(v3) + be8(v4) + be8(v5) + be8(v6)) =~= h);
    }
    assert(be_word(h, 17) == v3) by {
        lemma_be8_between(p0 + be8(v1) + be8(v2), v3, be8(v4) + be8(v5) + be8(v6));
        assert(p0 + be8(v1) + be8(v2) + be8(v3) + (be8(v4) + be8(v5) + be8(v6)) =~= h);
    }
    assert(be_word(h, 25) == v4) by {
        lemma_be8_between(p0 + be8(v1) + be8(v2) + be8(v3), v4, be8(v5) + be8(v6));
        assert(p0 + be8(v1) + be8(v2) + be8(v3) + be8(v4) + (be8(v5) + be8(v6)) =~= h);
    }
    assert(be_word(h, 33) == v5) by {
        lemma_be8_between(p0 + be8(v1) + be8(v2) + be8(v3) + be8(v4), v5, be8(v6));
        assert(p0 + be8(v1) + be8(v2) + be8(v3) + be8(v4) + be8(v5) + be8(v6) =~= h);
    }
    assert(be_word(h, 41) == v6) by {
        lemma_be8_between(
            p0 + be8(v1) + be8(v2) + be8(v3) + be8(v4) + be8(v5),
            v6,
            Seq::<u8>::empty(),
        );
        assert(p0 + be8(v1) + be8(v2) + be8(v3) + be8(v4) + be8(v5) + be8(v6) + Seq::<u8>::empty()
            =~= h);
    }
}

/// A live node's record reads back as the node, whatever bytes follow it (see
/// [`lemma_record_roundtrip`]).
#[verifier::spinoff_prover]
#[verifier::rlimit(40)]
pub proof fn lemma_record_reads_before(n: Node, rest: Seq<u8>)
    requires
        record_reads_back(n),
    ensures
        whole_words(record_bytes(n) + rest),
        read_record(record_bytes(n) + rest) == Ok::<NodeView, RecordError>(found_view(n)),
{
    reveal(read_record);
    let h = header_bytes(n);
    let k = encode_utf8(n.key@);
    let vb = value_bytes(n.value@);
    lemma_header_words(n);
    lemma_words_of_value_bytes(n.value@);
    encode_utf8_valid_utf8(n.key@);
    encode_utf8_decode_utf8(n.key@);
    let b = record_bytes(n) + rest;
    assert(b =~= h + (k + vb + rest));
    lemma_be_word_prefix(h, k + vb + rest, 1);
    lemma_be_word_prefix(h, k + vb + rest, 9);
    lemma_be_word_prefix(h, k + vb + rest, 17);
    lemma_be_word_prefix(h, k + vb + rest, 25);
    lemma_be_word_prefix(h, k + vb + rest, 33);
    lemma_be_word_prefix(h, k + vb + rest, 41);
    let kend = NODE_HEADER_SIZE + k.len();
    assert(b.subrange(NODE_HEADER_SIZE as int, kend as int) =~= k);
    assert(b.subrange(kend as int, kend + vb.len()) =~= vb);
    assert(type_of_code(type_code(n.node_type)) == n.node_type);
}

/// A live node's record reads back as the node: kind, key, links and locations (for a
/// node with links that are not the all-ones word, and no locations unless it holds data).
pub proof fn lemma_record_roundtrip(n: Node)
    requires
        record_reads_back(n),
    ensures
        whole_words(record_bytes(n)),
        read_record(record_bytes(n)) == Ok::<NodeView, RecordError>(found_view(n)),
{
    lemma_record_reads_before(n, Seq::empty());
    assert(record_bytes(n) + Seq::<u8>::empty() =~= record_bytes(n));
}


/// The configuration of a skip list: the number of rows, then where each row starts.
pub open spec fn rows_bytes(rows: Seq<usize>) -> Seq<u8> {
    be8(rows.len() as u64) + value_bytes(rows)
}

/// How configuration bytes read: the number of rows, then that many row starts.
pub open spec fn read_rows_spec(b: Seq<u8>) -> Result<Seq<usize>, RecordError> {
    if b.len() < 8 {
        Err(RecordError::Truncated)
    } else if be_word(b, 0) as int * 8 > b.len() - 8 {
        Err(RecordError::Truncated)
    } else {
        Ok(words_of(b.subrange(8, 8 + be_word(b, 0) as int * 8)))
    }
}

/// The configuration bytes of the row starts.
pub fn rows_config(rows: &Vec<usize>) -> (r: Vec<u8>)
    ensures
        r@ == rows_bytes(rows@),
{
    let mut out: Vec<u8> = Vec::new();
    push_word(&mut out, rows.len() as u64);
    let ghost head = out@;
    let mut j: usize = 0;
    assert(rows@.take(0) =~= Seq::<usize>::empty());
    while j < rows.len()
        invariant
            j <= rows.len(),
            out@ == head + value_bytes(rows@.take(j as int)),
        decreases rows.len() - j,
    {
        push_word(&mut out, rows[j] as u64);
        let ghost t = rows@.take(j + 1);
        assert(t.drop_last() =~= rows@.take(j as int));
        assert(t.last() == rows@[j as int]);
        j += 1;
    }
    assert(rows@.take(rows.len() as int) =~= rows@);
    out
}

/// Reads the row starts from configuration bytes.
pub fn read_rows(b: &[u8]) -> (r: Result<Vec<usize>, RecordError>)
    ensures
        match read_rows_spec(b@) {
            Ok(rows) => r matches Ok(v) && v@ == rows,
            Err(e) => r == Err::<Vec<usize>, RecordError>(e),
        },
{
    if b.len() < 8 {
        return Err(RecordError::Truncated);
    }
    let count = read_word(b, 0);
    if count > ((b.len() - 8) / 8) as u64 {
        return Err(RecordError::Truncated);
    }
    let end = 8 + (count as usize) * 8;
    Ok(read_words(b, 8, end))
}

/// The configuration of a skip list reads back as its row starts.
pub proof fn lemma_rows_roundtrip(rows: Seq<usize>)
    requires
        rows.len() * 8 + 8 <= u64::MAX,
    ensures
        read_rows_spec(rows_bytes(rows)) == Ok::<Seq<usize>, RecordError>(rows),
{
    lemma_words_of_value_bytes(rows);
    lemma_be8_word(rows.len() as u64);
    let b = rows_bytes(rows);
    lemma_be_word_prefix(be8(rows.len() as u64), value_bytes(rows), 0);
    assert(b.subrange(8, 8 + rows.len() as int * 8) =~= value_bytes(rows));
}

// ------------------------------------------------------------------------------------------
// The data file of a skip list.
// ------------------------------------------------------------------------------------------

/// What a node's link reads as in the data file `image`, from `id`: a moved node is followed
/// to the record it names, which always lies further on; the record found, and where.
pub open spec fn node_at(image: Seq<u8>, id: int) -> Result<(int, NodeView), RecordError>
    decreases image.len() - id,
{
    if id < 0 || id > image.len() {
        Err(RecordError::Truncated)
    } else {
        match read_record(image.subrange(id, image.len() as int)) {
            Err(e) => Err(e),
            Ok(NodeView::MovedTo(x)) => if x as int <= id {
                Err(RecordError::LinkBack)
            } else if x > image.len() {
                Err(RecordError::Truncated)
            } else {
                node_at(image, x as int)
            },
            Ok(v) => Ok((id, v)),
        }
    }
}

/// Whether the records on the way from `id` hold whole words of locations (reading a
/// partial word panics).
pub open spec fn chain_whole_words(image: Seq<u8>, id: int) -> bool
    decreases image.len() - id,
{
    if id < 0 || id > image.len() {
        true
    } else {
        let b = image.subrange(id, image.len() as int);
        whole_words(b) && match read_record(b) {
            Ok(NodeView::MovedTo(x)) => if id < x <= image.len() {
                chain_whole_words(image, x as int)
            } else {
                true
            },
            _ => true,
        }
    }
}

/// The node a removed record with no other record reads as.
pub open spec fn is_gone_node(n: Node) -> bool {
    &&& n.id == usize::MAX
    &&& n.node_type == NodeType::Deleted
    &&& n.key@ == Seq::<char>::empty()
    &&& n.top_node is None
    &&& n.down_node is None
    &&& n.prev_node is None
    &&& n.next_node is None
    &&& n.value@ == Seq::<usize>::empty()
}

/// Reads the node at `id` of the data file `image`, following moved nodes.
pub fn read_node(image: &[u8], id: usize) -> (r: Result<Node, RecordError>)
    requires
        chain_whole_words(image@, id as int),
    ensures
        match node_at(image@, id as int) {
            Ok((at, NodeView::Gone)) => r matches Ok(n) && is_gone_node(n),
            Ok((at, v)) => r matches Ok(n) && n.id == at && record_view(NodeRecord::Found(n)) == v,
            Err(e) => r == Err::<Node, RecordError>(e),
        },
{
    let mut cur = id;
    loop
        invariant
            node_at(image@, cur as int) == node_at(image@, id as int),
            chain_whole_words(image@, cur as int),
        decreases image.len() - cur,
    {
        if cur > image.len() {
            return Err(RecordError::Truncated);
        }
        let (_, tail) = image.split_at(cur);
        assert(tail@ == image@.subrange(cur as int, image@.len() as int));
        match read_node_record(cur, tail) {
            Err(e) => {
                return Err(e);
            },
            Ok(NodeRecord::Found(n)) => {
                return Ok(n);
            },
            Ok(NodeRecord::Gone) => {
                proof {
                    reveal_strlit("");
                }
                return Ok(
                    Node {
                        id: usize::MAX,
                        node_type: NodeType::Deleted,
                        key: String::new(),
                        top_node: None,
                        down_node: None,
                        prev_node: None,
                        next_node: None,
                        value: Vec::new(),
                    },
                );
            },
            Ok(NodeRecord::MovedTo(x)) => {
                if x <= cur {
                    return Err(RecordError::LinkBack);
                }
                if x > image.len() {
                    return Err(RecordError::Truncated);
                }
                cur = x;
            },
        }
    }
}

/// Appends the record of a new node to the data file `image`: data with `value`, or a link
/// node without; it has no links yet, and its id is where its record starts.
pub fn new_node(image: &mut Vec<u8>, key: String, value: Option<Vec<usize>>) -> (n: Node)
    requires
        value matches Some(v) ==> v@.len() * 8 <= u64::MAX,
    ensures
        n.id == old(image)@.len(),
        n.node_type == (if value is Some {
            NodeType::Data
        } else {
            NodeType::Linker
        }),
        n.key@ == key@,
        n.top_node is None && n.down_node is None && n.prev_node is None && n.next_node is None,
        n.value@ == (match value {
            Some(v) => v@,
            None => Seq::<usize>::empty(),
        }),
        final(image)@ == old(image)@ + record_bytes(n),
{
    let node_type = match &value {
        Some(_) => NodeType::Data,
        None => NodeType::Linker,
    };
    let value = match value {
        Some(v) => v,
        None => Vec::new(),
    };
    let mut node = Node {
        id: 0,
        node_type,
        key,
        top_node: None,
        down_node: None,
        prev_node: None,
        next_node: None,
        value,
    };
    let record = node_record(&node);
    node.id = image.len();
    let ghost before = image@;
    let mut i: usize = 0;
    while i < record.len()
        invariant
            i <= record.len(),
            image@ == before + record@.take(i as int),
        decreases record.len() - i,
    {
        image.push(record[i]);
        assert(record@.take(i + 1) =~= record@.take(i as int).push(record@[i as int]));
        i += 1;
    }
    assert(record@.take(record.len() as int) =~= record@);
    node
}

/// Writes a node's header over its record in the data file `image`.
pub fn update_node_header(image: &mut Vec<u8>, node: &Node)
    requires
        node.id + NODE_HEADER_SIZE <= usize::MAX,
        node.value@.len() * 8 <= u64::MAX,
    ensures
        final(image)@ == patched(old(image)@, node.id as int, header_bytes(*node)),
{
    let header = convert_node_to_header(node);
    proof {
        lemma_header_words(*node);
    }
    write_at(image, node.id, header.as_slice());
}

/// Marks a node as removed, naming where it moved (if anywhere), and writes its header.
pub fn delete_node(image: &mut Vec<u8>, node: &mut Node, new_node_location: Option<usize>)
    requires
        old(node).id + NODE_HEADER_SIZE <= usize::MAX,
        old(node).value@.len() * 8 <= u64::MAX,
    ensures
        final(node).node_type == NodeType::Deleted,
        final(node).next_node == new_node_location,
        final(node).id == old(node).id,
        final(node).key == old(node).key,
        final(node).value == old(node).value,
        final(node).prev_node == old(node).prev_node,
        final(node).top_node == old(node).top_node,
        final(node).down_node == old(node).down_node,
        final(image)@ == patched(old(image)@, old(node).id as int, header_bytes(*final(node))),
{
    node.node_type = NodeType::Deleted;
    node.next_node = new_node_location;
    update_node_header(image, node);
}

/// A copy of record locations.
fn copy_locations(v: &Vec<usize>) -> (r: Vec<usize>)
    ensures
        r@ == v@,
{
    let mut r: Vec<usize> = Vec::new();
    let mut i: usize = 0;
    while i < v.len()
        invariant
            i <= v.len(),
            r@ == v@.take(i as int),
        decreases v.len() - i,
    {
        r.push(v[i]);
        assert(v@.take(i + 1) =~= v@.take(i as int).push(v@[i as int]));
        i += 1;
    }
    assert(v@.take(v.len() as int) =~= v@);
    r
}

/// Moves a node to a new record at the end of the data file `image`, with its current
/// locations and links, and marks the old record as moved there.
pub fn update_node_value(image: &mut Vec<u8>, node: &mut Node)
    requires
        old(node).id + NODE_HEADER_SIZE <= usize::MAX,
        old(node).value@.len() * 8 <= u64::MAX,
        old(image)@.len() + NODE_HEADER_SIZE <= usize::MAX,
    ensures
        ({
            let moved = Node {
                id: old(image)@.len() as usize,
                node_type: NodeType::Data,
                ..*old(node)
            };
            &&& final(node).node_type == NodeType::Deleted
            &&& final(node).next_node == Some(old(image)@.len() as usize)
            &&& final(node).id == old(node).id
            &&& final(node).key == old(node).key
            &&& final(node).value == old(node).value
            &&& final(node).prev_node == old(node).prev_node
            &&& final(node).top_node == old(node).top_node
            &&& final(node).down_node == old(node).down_node
            &&& final(image)@ == patched(
                old(image)@ + record_bytes(moved),
                old(node).id as int,
                header_bytes(*final(node)),
            )
        }),
{
    let ghost before = image@;
    let key = node.key.clone();
    let value = copy_locations(&node.value);
    let mut new_node = new_node(image, key, Some(value));
    let ghost fresh = record_bytes(new_node);
    new_node.next_node = node.next_node;
    new_node.prev_node = node.prev_node;
    new_node.top_node = node.top_node;
    new_node.down_node = node.down_node;
    update_node_header(image, &new_node);
    proof {
        lemma_header_words(new_node);
        assert(patched(before + fresh, before.len() as int, header_bytes(new_node)) =~= before
            + record_bytes(new_node));
    }
    let new_id = new_node.id;
    delete_node(image, node, Some(new_id));
}

/// Whether a node's record reads back as the node: it is not removed, a link node holds no
/// locations, the lengths fit a word, and no link is the all-ones word.
pub open spec fn record_reads_back(n: Node) -> bool {
    &&& n.node_type != NodeType::Deleted
    &&& n.node_type == NodeType::Linker ==> n.value@.len() == 0
    &&& n.value@.len() * 8 <= u64::MAX
    &&& encode_utf8(n.key@).len() <= u64::MAX
    &&& pointer_of(pointer_word(n.next_node)) == n.next_node
    &&& pointer_of(pointer_word(n.prev_node)) == n.prev_node
    &&& pointer_of(pointer_word(n.top_node)) == n.top_node
    &&& pointer_of(pointer_word(n.down_node)) == n.down_node
}

/// The view of a node as read.
pub open spec fn found_view(n: Node) -> NodeView {
    NodeView::Found(n.node_type, n.key@, n.next_node, n.prev_node, n.top_node, n.down_node, n.value@)
}

/// A node appended to the data file reads back at its id.
pub proof fn lemma_new_node_reads_back(image: Seq<u8>, n: Node)
    requires
        n.id == image.len(),
        record_reads_back(n),
    ensures
        node_at(image + record_bytes(n), n.id as int) == Ok::<(int, NodeView), RecordError>(
            (n.id as int, found_view(n)),
        ),
        chain_whole_words(image + record_bytes(n), n.id as int),
{
    let g = image + record_bytes(n);
    lemma_record_roundtrip(n);
    assert(g.subrange(n.id as int, g.len() as int) =~= record_bytes(n));
}

/// The record of a removed node names where it moved.
proof fn lemma_deleted_header_reads(gone: Node, rest: Seq<u8>, l: usize)
    requires
        gone.node_type == NodeType::Deleted,
        gone.next_node == Some(l),
        (l as u64) != NULL_NODE_ID,
    ensures
        read_record(header_bytes(gone) + rest) == Ok::<NodeView, RecordError>(NodeView::MovedTo(l)),
{
    reveal(read_record);
    let h = header_bytes(gone);
    lemma_header_words(gone);
    lemma_be_word_prefix(h, rest, 1);
    assert((h + rest)[0] == h[0]);
}

/// After a node is moved to a new record, reading it at its old id follows the old record
/// to the new one, which holds the node with its locations and links (for an old record
/// that lies within the file).
pub proof fn lemma_moved_node_reads_back(image: Seq<u8>, node: Node)
    requires
        node.id + NODE_HEADER_SIZE <= image.len(),
        image.len() < usize::MAX,
        record_reads_back(Node { node_type: NodeType::Data, ..node }),
    ensures
        ({
            let l = image.len() as usize;
            let moved = Node { id: l, node_type: NodeType::Data, ..node };
            let gone = Node { node_type: NodeType::Deleted, next_node: Some(l), ..node };
            let g = patched(image + record_bytes(moved), node.id as int, header_bytes(gone));
            &&& node_at(g, node.id as int) == Ok::<(int, NodeView), RecordError>(
                (l as int, found_view(moved)),
            )
            &&& chain_whole_words(g, node.id as int)
        }),
{
    let l = image.len() as usize;
    let moved = Node { id: l, node_type: NodeType::Data, ..node };
    let gone = Node { node_type: NodeType::Deleted, next_node: Some(l), ..node };
    let h = header_bytes(gone);
    let f = image + record_bytes(moved);
    let g = patched(f, node.id as int, h);
    lemma_header_words(gone);
    lemma_record_roundtrip(moved);
    assert(g.len() == f.len());
    let b = g.subrange(node.id as int, g.len() as int);
    let rest = b.subrange(NODE_HEADER_SIZE as int, b.len() as int);
    assert(b =~= h + rest);
    lemma_deleted_header_reads(gone, rest, l);
    assert(g.subrange(l as int, g.len() as int) =~= record_bytes(moved));
    assert(node_at(g, l as int) == Ok::<(int, NodeView), RecordError>((l as int, found_view(moved))));
    assert(chain_whole_words(g, l as int));
    assert(whole_words(b)) by {
        assert(b[0] == h[0]);
    }
}

/// Writing a node's header over a record that holds the node's key and locations makes the
/// record read as the node.
pub proof fn lemma_header_update_reads_back(image: Seq<u8>, n: Node)
    requires
        record_reads_back(n),
        n.id + record_bytes(n).len() <= image.len(),
        image.subrange(n.id + NODE_HEADER_SIZE, n.id + record_bytes(n).len()) == encode_utf8(n.key@)
            + value_bytes(n.value@),
    ensures
        node_at(patched(image, n.id as int, header_bytes(n)), n.id as int) == Ok::<
            (int, NodeView),
            RecordError,
        >((n.id as int, found_view(n))),
        chain_whole_words(patched(image, n.id as int, header_bytes(n)), n.id as int),
{
    let g = patched(image, n.id as int, header_bytes(n));
    let end = n.id + record_bytes(n).len();
    lemma_header_words(n);
    assert(g.len() == image.len());
    let rest = image.subrange(end, image.len() as int);
    let kv = encode_utf8(n.key@) + value_bytes(n.value@);
    let want = record_bytes(n) + rest;
    assert(record_bytes(n) =~= header_bytes(n) + kv);
    assert forall|i: int| 0 <= i < want.len() implies #[trigger] g.subrange(
        n.id as int,
        g.len() as int,
    )[i] == want[i] by {
        if i >= NODE_HEADER_SIZE && i < record_bytes(n).len() {
            assert(image.subrange(n.id + NODE_HEADER_SIZE, end)[i - NODE_HEADER_SIZE] == image[n.id + i]);
        }
    }
    assert(g.subrange(n.id as int, g.len() as int) =~= want);
    lemma_record_reads_before(n, rest);
}


// ------------------------------------------------------------------------------------------
// Walking the list.
// ------------------------------------------------------------------------------------------

/// What reading a node's link gives where the records on the way may hold partial words:
/// the record found, or `Truncated` for a partial word (where reading would panic).
pub open spec fn read_at(image: Seq<u8>, id: int) -> Result<(int, NodeView), RecordError> {
    if chain_whole_words(image, id) {
        node_at(image, id)
    } else {
        Err(RecordError::Truncated)
    }
}

/// A node met on a walk: where it is, its key, its links right and down, its locations (a
/// removed node with no other record reads as a node with none of these).
pub struct Step {
    pub id: int,
    pub kind: NodeType,
    pub key: Seq<char>,
    pub next: Option<usize>,
    pub down: Option<usize>,
    pub top: Option<usize>,
    pub prev: Option<usize>,
    pub values: Seq<usize>,
}

/// The node met for a record read at `id`.
pub open spec fn step_of(r: (int, NodeView)) -> Step {
    match r.1 {
        NodeView::Found(t, k, nx, pv, tp, dn, v) => Step {
            id: r.0,
            kind: t,
            key: k,
            next: nx,
            down: dn,
            top: tp,
            prev: pv,
            values: v,
        },
        _ => Step {
            id: usize::MAX as int,
            kind: NodeType::Deleted,
            key: Seq::empty(),
            next: None,
            down: None,
            top: None,
            prev: None,
            values: Seq::empty(),
        },
    }
}

/// Walking right along a row from `cur`: on to the next node while its key is not past
/// `key`; each read costs one of `fuel` steps, and running out is refused as a walk that
/// would not end. The node reached and the steps left.
pub open spec fn walk_right(image: Seq<u8>, cur: Step, key: Seq<char>, fuel: nat) -> Result<
    (Step, nat),
    RecordError,
>
    decreases fuel,
{
    match cur.next {
        None => Ok((cur, fuel)),
        Some(nx) => if fuel == 0 {
            Err(RecordError::LinkBack)
        } else {
            match read_at(image, nx as int) {
                Err(e) => Err(e),
                Ok(r) => if seq_lt(key, step_of(r).key) {
                    Ok((cur, fuel))
                } else {
                    walk_right(image, step_of(r), key, (fuel - 1) as nat)
                },
            }
        },
    }
}

/// Walking down from `cur`: while the node a row was entered at has a link down, the row is
/// walked and the walk goes on from that link; on the bottom row the row is walked. The
/// node reached, and the ids of the nodes each row above it was left at, top row first.
pub open spec fn descend(image: Seq<u8>, cur: Step, key: Seq<char>, fuel: nat) -> Result<
    (Step, Seq<usize>),
    RecordError,
>
    decreases fuel,
{
    match walk_right(image, cur, key, fuel) {
        Err(e) => Err(e),
        Ok((end, left)) => match cur.down {
            None => Ok((end, Seq::empty())),
            Some(d) => if left == 0 || left > fuel {
                Err(RecordError::LinkBack)
            } else {
                match read_at(image, d as int) {
                    Err(e) => Err(e),
                    Ok(r) => match descend(image, step_of(r), key, (left - 1) as nat) {
                        Err(e) => Err(e),
                        Ok((n, h)) => Ok((n, seq![end.id as usize] + h)),
                    },
                }
            },
        },
    }
}

/// The node a search for `key` stops at, from the head of the top row: each read costs one
/// of as many steps as the list file has bytes.
pub open spec fn search_stop(image: Seq<u8>, rows: Seq<usize>, key: Seq<char>) -> Result<
    Option<Step>,
    RecordError,
> {
    if rows.len() == 0 {
        Ok(None)
    } else {
        match read_at(image, rows.last() as int) {
            Err(e) => Err(e),
            Ok(r) => match descend(image, step_of(r), key, image.len()) {
                Err(e) => Err(e),
                Ok((n, h)) => Ok(Some(n)),
            },
        }
    }
}

/// What a search for `key` finds: the locations of the node it stops at when that node
/// holds the key.
pub open spec fn search_result(image: Seq<u8>, rows: Seq<usize>, key: Seq<char>) -> Result<
    Option<Seq<usize>>,
    RecordError,
> {
    match search_stop(image, rows, key) {
        Err(e) => Err(e),
        Ok(None) => Ok(None),
        Ok(Some(n)) => if n.key == key {
            Ok(Some(n.values))
        } else {
            Ok(None)
        },
    }
}

/// Whether a node met on a walk is one read from some place of the list file.
pub open spec fn read_somewhere(image: Seq<u8>, s: Step) -> bool {
    exists|id: int, r: (int, NodeView)| #![trigger read_at(image, id), step_of(r)] read_at(image, id) == Ok::<(int, NodeView), RecordError>(r) && step_of(r) == s
}

/// Walking a row ends at the node it started from or at a node read from the file.
proof fn lemma_walk_right_reads(image: Seq<u8>, cur: Step, key: Seq<char>, fuel: nat)
    ensures
        walk_right(image, cur, key, fuel) matches Ok((end, left)) ==> end == cur || read_somewhere(image, end),
    decreases fuel,
{
    match cur.next {
        None => {},
        Some(nx) => if fuel > 0 {
            match read_at(image, nx as int) {
                Err(e) => {},
                Ok(r) => if !seq_lt(key, step_of(r).key) {
                    lemma_walk_right_reads(image, step_of(r), key, (fuel - 1) as nat);
                    assert(read_at(image, nx as int) == Ok::<(int, NodeView), RecordError>(r));
                },
            }
        },
    }
}

/// Walking down from a node read from the file ends at a node read from the file.
proof fn lemma_descend_reads(image: Seq<u8>, cur: Step, key: Seq<char>, fuel: nat)
    requires
        read_somewhere(image, cur),
    ensures
        descend(image, cur, key, fuel) matches Ok((n, h)) ==> read_somewhere(image, n),
    decreases fuel,
{
    lemma_walk_right_reads(image, cur, key, fuel);
    match walk_right(image, cur, key, fuel) {
        Err(e) => {},
        Ok((end, left)) => match cur.down {
            None => {},
            Some(d) => if left != 0 && left <= fuel {
                match read_at(image, d as int) {
                    Err(e) => {},
                    Ok(r) => {
                        assert(read_at(image, d as int) == Ok::<(int, NodeView), RecordError>(r));
                        lemma_descend_reads(image, step_of(r), key, (left - 1) as nat);
                    },
                }
            },
        },
    }
}

/// A search finds only what the list holds under exactly the key searched for: when it
/// gives locations, some record of the list file holds a node with that very key and those
/// locations.
pub proof fn lemma_search_finds_exact_key(image: Seq<u8>, rows: Seq<usize>, key: Seq<char>)
    ensures
        search_result(image, rows, key) matches Ok(Some(v)) ==> exists|id: int, r: (int, NodeView)|
            #![trigger read_at(image, id), step_of(r)]
            read_at(image, id) == Ok::<(int, NodeView), RecordError>(r) && step_of(r).key == key
                && step_of(r).values == v,
{
    if rows.len() > 0 {
        match read_at(image, rows.last() as int) {
            Err(e) => {},
            Ok(r) => {
                assert(read_at(image, rows.last() as int) == Ok::<(int, NodeView), RecordError>(r));
                lemma_descend_reads(image, step_of(r), key, image.len());
                match descend(image, step_of(r), key, image.len()) {
                    Err(e) => {},
                    Ok((n, h)) => {
                        if n.key == key {
                            let (id, r2) = choose|id: int, r2: (int, NodeView)|
                                #![trigger read_at(image, id), step_of(r2)]
                                read_at(image, id) == Ok::<(int, NodeView), RecordError>(r2) && step_of(r2) == n;
                            assert(read_at(image, id) == Ok::<(int, NodeView), RecordError>(r2));
                        }
                    },
                }
            },
        }
    }
}

/// Whether the bytes from a record on hold whole words of locations.
fn whole_words_at(b: &[u8]) -> (r: bool)
    ensures
        r == whole_words(b@),
{
    if b.len() < NODE_HEADER_SIZE {
        return true;
    }
    match NodeType::from_u8(b[0]) {
        NodeType::Data => read_word(b, 41) % 8 == 0,
        _ => true,
    }
}

/// Whether the records on the way from `id` hold whole words of locations.
fn chain_whole(image: &[u8], id: usize) -> (r: bool)
    ensures
        r == chain_whole_words(image@, id as int),
{
    let mut cur = id;
    loop
        invariant
            chain_whole_words(image@, cur as int) == chain_whole_words(image@, id as int),
        decreases image.len() - cur,
    {
        if cur > image.len() {
            return true;
        }
        let (_, tail) = image.split_at(cur);
        assert(tail@ == image@.subrange(cur as int, image@.len() as int));
        if !whole_words_at(tail) {
            return false;
        }
        match read_node_record(cur, tail) {
            Ok(NodeRecord::MovedTo(x)) => {
                if cur < x && x <= image.len() {
                    cur = x;
                } else {
                    return true;
                }
            },
            _ => {
                return true;
            },
        }
    }
}

/// Reads the node at `id`, refusing records on the way that hold partial words.
fn read_step(image: &[u8], id: usize) -> (r: Result<Node, RecordError>)
    ensures
        match read_at(image@, id as int) {
            Ok(x) => r matches Ok(n) && step_of(x) == node_step(n),
            Err(e) => r == Err::<Node, RecordError>(e),
        },
{
    if !chain_whole(image, id) {
        return Err(RecordError::Truncated);
    }
    let r = read_node(image, id);
    proof {
        match node_at(image@, id as int) {
            Ok((at, NodeView::Gone)) => {},
            Ok((at, v)) => {
                lemma_node_at_not_moved(image@, id as int);
            },
            Err(e) => {},
        }
    }
    r
}

/// A node read is never a moved record, and a live one is not of the removed kind.
proof fn lemma_node_at_not_moved(image: Seq<u8>, id: int)
    ensures
        node_at(image, id) matches Ok((at, v)) ==> v !is MovedTo,
        node_at(image, id) matches Ok((at, NodeView::Found(t, k, nx, pv, tp, dn, vs))) ==> t
            != NodeType::Deleted,
    decreases image.len() - id,
{
    reveal(read_record);
    if 0 <= id <= image.len() {
        match read_record(image.subrange(id, image.len() as int)) {
            Ok(NodeView::MovedTo(x)) => {
                if id < x as int && x <= image.len() {
                    lemma_node_at_not_moved(image, x as int);
                }
            },
            _ => {},
        }
    }
}

/// The node met for a node read.
pub open spec fn node_step(n: Node) -> Step {
    Step {
        id: n.id as int,
        kind: n.node_type,
        key: n.key@,
        next: n.next_node,
        down: n.down_node,
        top: n.top_node,
        prev: n.prev_node,
        values: n.value@,
    }
}

/// Whether a node's key comes after `key`.
fn key_after(n: &Node, key: &Vec<char>) -> (r: bool)
    ensures
        r == seq_lt(key@, n.key@),
{
    let k = chars_of(n.key.as_str());
    chars_lt(key.as_slice(), k.as_slice())
}

/// Walks right along a row (see [`walk_right`]).
fn walk_row(image: &[u8], start: Node, key: &Vec<char>, fuel: usize) -> (r: Result<(Node, usize), RecordError>)
    ensures
        match walk_right(image@, node_step(start), key@, fuel as nat) {
            Ok((end, left)) => r matches Ok((n, l)) && node_step(n) == end && l == left,
            Err(e) => r == Err::<(Node, usize), RecordError>(e),
        },
    decreases fuel,
{
    match start.next_node {
        None => Ok((start, fuel)),
        Some(nx) => {
            if fuel == 0 {
                return Err(RecordError::LinkBack);
            }
            let next = read_step(image, nx)?;
            if key_after(&next, key) {
                Ok((start, fuel))
            } else {
                walk_row(image, next, key, fuel - 1)
            }
        },
    }
}

/// Walks down (see [`descend`]).
fn walk_down(image: &[u8], start: Node, key: &Vec<char>, fuel: usize) -> (r: Result<(Node, Vec<usize>), RecordError>)
    ensures
        match descend(image@, node_step(start), key@, fuel as nat) {
            Ok((end, h)) => r matches Ok((n, hs)) && node_step(n) == end && hs@ == h,
            Err(e) => r == Err::<(Node, Vec<usize>), RecordError>(e),
        },
    decreases fuel,
{
    let down = start.down_node;
    let (end, left) = walk_row(image, start, key, fuel)?;
    match down {
        None => Ok((end, Vec::new())),
        Some(d) => {
            if left == 0 || left > fuel {
                return Err(RecordError::LinkBack);
            }
            let ghost end_id = node_step(end).id;
            let next = read_step(image, d)?;
            let (n, rest) = walk_down(image, next, key, left - 1)?;
            let mut h: Vec<usize> = Vec::new();
            h.push(end.id);
            let mut i: usize = 0;
            while i < rest.len()
                invariant
                    i <= rest.len(),
                    h@ == seq![end.id] + rest@.take(i as int),
                decreases rest.len() - i,
            {
                h.push(rest[i]);
                assert(rest@.take(i + 1) =~= rest@.take(i as int).push(rest@[i as int]));
                i += 1;
            }
            assert(rest@.take(rest.len() as int) =~= rest@);
            Ok((n, h))
        },
    }
}

/// Searches the list for `key`, from the head of the top row (`rows` holds the heads of the
/// rows, bottom first): the locations kept under the key, or `None`. A walk that takes more
/// reads than the list file has bytes is refused as one that would not end.
pub fn search(image: &[u8], rows: &[usize], key: &String) -> (r: Result<Option<Vec<usize>>, RecordError>)
    ensures
        match search_result(image@, rows@, key@) {
            Ok(Some(v)) => r matches Ok(Some(w)) && w@ == v,
            Ok(None) => r matches Ok(None),
            Err(e) => r == Err::<Option<Vec<usize>>, RecordError>(e),
        },
{
    if rows.len() == 0 {
        return Ok(None);
    }
    let head = read_step(image, rows[rows.len() - 1])?;
    let k = chars_of(key.as_str());
    let (n, _) = walk_down(image, head, &k, image.len())?;
    let nk = chars_of(n.key.as_str());
    if chars_eq(nk.as_slice(), k.as_slice()) {
        Ok(Some(n.value))
    } else {
        Ok(None)
    }
}

// ------------------------------------------------------------------------------------------
// Inserting into the list.
// ------------------------------------------------------------------------------------------

/// The header of a node met on a walk, as its record holds it.
pub open spec fn step_header(s: Step) -> Seq<u8> {
    seq![type_code(s.kind)] + be8(pointer_word(s.next)) + be8(pointer_word(s.prev)) + be8(
        pointer_word(s.top),
    ) + be8(pointer_word(s.down)) + be8(encode_utf8(s.key).len() as u64) + be8(
        (s.values.len() * 8) as u64,
    )
}

/// The record of a node: its header, its key, its locations.
pub open spec fn step_record(s: Step) -> Seq<u8> {
    step_header(s) + encode_utf8(s.key) + value_bytes(s.values)
}

/// What writing a node's header over its record gives: refused as `Truncated` where the
/// header would not fit at its id or its locations' length not in a word.
pub open spec fn write_header(image: Seq<u8>, s: Step) -> Result<Seq<u8>, RecordError> {
    if 0 <= s.id && s.id + NODE_HEADER_SIZE <= usize::MAX && s.values.len() * 8 <= u64::MAX {
        Ok(patched(image, s.id, step_header(s)))
    } else {
        Err(RecordError::Truncated)
    }
}

/// A node appended to the list file: at its end, with no links.
pub open spec fn appended(image: Seq<u8>, kind: NodeType, key: Seq<char>, values: Seq<usize>) -> Step {
    Step { id: image.len() as int, kind, key, next: None, down: None, top: None, prev: None, values }
}

/// Putting `new` right after `node` in a row, its link left naming `prev`: the node after
/// `node` (if any) gets `new` as its link left, written at once. The file then, `node` and
/// `new` with their links (their headers not yet written).
pub open spec fn link_after(image: Seq<u8>, node: Step, new: Step, prev: usize) -> Result<
    (Seq<u8>, Step, Step),
    RecordError,
> {
    let new2 = Step { next: node.next, prev: Some(prev), ..new };
    let node2 = Step { next: Some(new.id as usize), ..node };
    match new2.next {
        None => Ok((image, node2, new2)),
        Some(nx) => match read_at(image, nx as int) {
            Err(e) => Err(e),
            Ok(r) => match write_header(image, Step { prev: Some(new.id as usize), ..step_of(r) }) {
                Err(e) => Err(e),
                Ok(g) => Ok((g, node2, new2)),
            },
        },
    }
}

/// Adding a row on top whose head links right to `first` and down to the head of the top
/// row: the file, the rows' heads, and the new head's id.
pub open spec fn add_row(image: Seq<u8>, rows: Seq<usize>, first: usize) -> Result<
    (Seq<u8>, Seq<usize>, usize),
    RecordError,
> {
    let head = appended(image, NodeType::Linker, Seq::empty(), Seq::empty());
    let g = image + step_record(head);
    let head2 = Step {
        next: Some(first),
        down: if rows.len() > 0 {
            Some(rows.last())
        } else {
            None
        },
        ..head
    };
    match write_header(g, head2) {
        Err(e) => Err(e),
        Ok(g2) => Ok((g2, rows.push(head.id as usize), head.id as usize)),
    }
}

/// Raising a new key's tower by `h` levels above `former`: on each level a link node is
/// put after the node its row was left at on the way down (the last of `history`), with
/// that node's key, or, when no row is left, a new row is added for it, with the key of
/// `last`.
pub open spec fn raise(
    image: Seq<u8>,
    rows: Seq<usize>,
    history: Seq<usize>,
    former: Step,
    last: Step,
    h: nat,
) -> Result<(Seq<u8>, Seq<usize>), RecordError>
    decreases h,
{
    if h == 0 {
        Ok((image, rows))
    } else if history.len() > 0 {
        let nid = history.last();
        match read_at(image, nid as int) {
            Err(e) => Err(e),
            Ok(r) => {
                let node = step_of(r);
                let new = appended(image, NodeType::Linker, node.key, Seq::empty());
                let g1 = image + step_record(new);
                let new_a = Step { down: Some(former.id as usize), ..new };
                let former2 = Step { top: Some(new.id as usize), ..former };
                match link_after(g1, node, new_a, nid) {
                    Err(e) => Err(e),
                    Ok((g2, node2, new2)) => match write_header(g2, node2) {
                        Err(e) => Err(e),
                        Ok(g3) => match write_header(g3, new2) {
                            Err(e) => Err(e),
                            Ok(g4) => match write_header(g4, former2) {
                                Err(e) => Err(e),
                                Ok(g5) => raise(g5, rows, history.drop_last(), new2, node2, (h - 1) as nat),
                            },
                        },
                    },
                }
            },
        }
    } else {
        let new = appended(image, NodeType::Linker, last.key, Seq::empty());
        let g1 = image + step_record(new);
        let new_a = Step { down: Some(former.id as usize), ..new };
        let former2 = Step { top: Some(new.id as usize), ..former };
        match add_row(g1, rows, new.id as usize) {
            Err(e) => Err(e),
            Ok((g2, rows2, hid)) => {
                let new2 = Step { prev: Some(hid), ..new_a };
                match write_header(g2, new2) {
                    Err(e) => Err(e),
                    Ok(g3) => match write_header(g3, former2) {
                        Err(e) => Err(e),
                        Ok(g4) => raise(g4, rows2, history, new2, last, (h - 1) as nat),
                    },
                }
            },
        }
    }
}

/// Stacking `h` link nodes above `node`, each with its key and in a new row of its own.
pub open spec fn stack(image: Seq<u8>, rows: Seq<usize>, node: Step, h: nat) -> Result<
    (Seq<u8>, Seq<usize>),
    RecordError,
>
    decreases h,
{
    if h == 0 {
        Ok((image, rows))
    } else {
        let new = appended(image, NodeType::Linker, node.key, Seq::empty());
        let g1 = image + step_record(new);
        let node_b = Step { top: Some(new.id as usize), ..node };
        let new_a = Step { down: Some(node.id as usize), ..new };
        match add_row(g1, rows, new.id as usize) {
            Err(e) => Err(e),
            Ok((g2, rows2, hid)) => {
                let new_b = Step { prev: Some(hid), ..new_a };
                match write_header(g2, new_b) {
                    Err(e) => Err(e),
                    Ok(g3) => match write_header(g3, node_b) {
                        Err(e) => Err(e),
                        Ok(g4) => stack(g4, rows2, new_b, (h - 1) as nat),
                    },
                }
            },
        }
    }
}

/// What inserting `key` with `values` and a tower `h` levels high does to the list file and
/// the rows' heads. An empty list gets the key's node in a first row, then `h` rows above
/// it. Otherwise the walk of a search finds where the key goes: a node with the key gets
/// the values added (its record moves to the end of the file); else a data node is put
/// after the node found, and its tower raised (see [`raise`]).
pub open spec fn insert_result(
    image: Seq<u8>,
    rows: Seq<usize>,
    key: Seq<char>,
    values: Seq<usize>,
    h: nat,
) -> Result<(Seq<u8>, Seq<usize>), RecordError> {
    if rows.len() == 0 {
        insert_first(image, rows, key, values, h)
    } else {
        match read_at(image, rows.last() as int) {
            Err(e) => Err(e),
            Ok(r) => match descend(image, step_of(r), key, image.len()) {
                Err(e) => Err(e),
                Ok((node, history)) => if node.key == key {
                    match extend_at(image, node, values) {
                        Err(e) => Err(e),
                        Ok(g) => Ok((g, rows)),
                    }
                } else {
                    insert_new(image, rows, node, history, key, values, h)
                },
            },
        }
    }
}

/// Inserting into an empty list: the key's node in a first row, `h` rows above it.
pub open spec fn insert_first(
    image: Seq<u8>,
    rows: Seq<usize>,
    key: Seq<char>,
    values: Seq<usize>,
    h: nat,
) -> Result<(Seq<u8>, Seq<usize>), RecordError> {
    if values.len() * 8 > u64::MAX {
        Err(RecordError::Truncated)
    } else {
        let node = appended(image, NodeType::Data, key, values);
        let g1 = image + step_record(node);
        match add_row(g1, rows, node.id as usize) {
            Err(e) => Err(e),
            Ok((g2, rows2, hid)) => {
                let node2 = Step { prev: Some(hid), ..node };
                match write_header(g2, node2) {
                    Err(e) => Err(e),
                    Ok(g3) => stack(g3, rows2, node2, h),
                }
            },
        }
    }
}

/// Adding `values` to the node found with the key: its record moves to the end of the file
/// with the locations added, and the old record names the new one.
pub open spec fn extend_at(image: Seq<u8>, node: Step, values: Seq<usize>) -> Result<Seq<u8>, RecordError> {
    let ext = node.values + values;
    if !(0 <= node.id && node.id + NODE_HEADER_SIZE <= usize::MAX) || ext.len() * 8 > u64::MAX
        || image.len() + NODE_HEADER_SIZE > usize::MAX {
        Err(RecordError::Truncated)
    } else {
        let moved = Step { id: image.len() as int, kind: NodeType::Data, values: ext, ..node };
        let gone = Step { kind: NodeType::Deleted, next: Some(image.len() as usize), values: ext, ..node };
        Ok(patched(image + step_record(moved), node.id, step_header(gone)))
    }
}

/// Putting a new data node after the node found, and raising its tower.
pub open spec fn insert_new(
    image: Seq<u8>,
    rows: Seq<usize>,
    node: Step,
    history: Seq<usize>,
    key: Seq<char>,
    values: Seq<usize>,
    h: nat,
) -> Result<(Seq<u8>, Seq<usize>), RecordError> {
    if values.len() * 8 > u64::MAX {
        Err(RecordError::Truncated)
    } else {
        let new = appended(image, NodeType::Data, key, values);
        let g1 = image + step_record(new);
        match link_after(g1, node, new, node.id as usize) {
            Err(e) => Err(e),
            Ok((g2, node2, new2)) => match write_header(g2, node2) {
                Err(e) => Err(e),
                Ok(g3) => match write_header(g3, new2) {
                    Err(e) => Err(e),
                    Ok(g4) => raise(g4, rows, history, new2, node2, h),
                },
            },
        }
    }
}

/// A node's header is the header of the node met.
proof fn lemma_header_step(n: Node)
    ensures
        header_bytes(n) == step_header(node_step(n)),
        record_bytes(n) == step_record(node_step(n)),
{
}

/// Writes a node's header (see [`write_header`]).
fn put_header(image: &mut Vec<u8>, node: &Node) -> (r: Result<(), RecordError>)
    ensures
        match write_header(old(image)@, node_step(*node)) {
            Ok(g) => r is Ok && final(image)@ == g,
            Err(e) => r == Err::<(), RecordError>(e) && final(image)@ == old(image)@,
        },
{
    if node.id > usize::MAX - NODE_HEADER_SIZE || (node.value.len() as u128) * 8 > u64::MAX as u128 {
        return Err(RecordError::Truncated);
    }
    proof {
        lemma_header_step(*node);
    }
    update_node_header(image, node);
    Ok(())
}

/// Appends a node (see [`appended`]), refusing locations whose length does not fit a word.
fn append_node(image: &mut Vec<u8>, key: String, value: Option<Vec<usize>>) -> (r: Result<Node, RecordError>)
    ensures
        match value {
            Some(v) => if v@.len() * 8 > u64::MAX {
                r == Err::<Node, RecordError>(RecordError::Truncated) && final(image)@ == old(image)@
            } else {
                r matches Ok(n) && node_step(n) == appended(old(image)@, NodeType::Data, key@, v@)
                    && final(image)@ == old(image)@ + step_record(node_step(n))
            },
            None => r matches Ok(n) && node_step(n) == appended(
                old(image)@,
                NodeType::Linker,
                key@,
                Seq::empty(),
            ) && final(image)@ == old(image)@ + step_record(node_step(n)),
        },
{
    match &value {
        Some(v) => {
            if (v.len() as u128) * 8 > u64::MAX as u128 {
                return Err(RecordError::Truncated);
            }
        },
        None => {},
    }
    let n = new_node(image, key, value);
    proof {
        lemma_header_step(n);
    }
    Ok(n)
}


/// Puts `new` right after `node` in a row (see [`link_after`]).
fn link_in(image: &mut Vec<u8>, node: &mut Node, new: &mut Node, prev: usize) -> (r: Result<(), RecordError>)
    ensures
        match link_after(old(image)@, node_step(*old(node)), node_step(*old(new)), prev) {
            Ok((g, n2, w2)) => r is Ok && final(image)@ == g && node_step(*final(node)) == n2
                && node_step(*final(new)) == w2,
            Err(e) => r == Err::<(), RecordError>(e),
        },
{
    new.next_node = node.next_node;
    new.prev_node = Some(prev);
    node.next_node = Some(new.id);
    match new.next_node {
        None => Ok(()),
        Some(nx) => {
            let mut after = read_step(image, nx)?;
            after.prev_node = Some(new.id);
            put_header(image, &after)
        },
    }
}

/// Adds a row on top (see [`add_row`]); the new head's id.
fn add_row_in(image: &mut Vec<u8>, rows: &mut Vec<usize>, first: usize) -> (r: Result<usize, RecordError>)
    ensures
        match add_row(old(image)@, old(rows)@, first) {
            Ok((g, rs, hid)) => r == Ok::<usize, RecordError>(hid) && final(image)@ == g && final(rows)@ == rs,
            Err(e) => r == Err::<usize, RecordError>(e),
        },
{
    let mut head = append_node(image, String::new(), None)?;
    head.next_node = Some(first);
    head.down_node = if rows.len() > 0 {
        Some(rows[rows.len() - 1])
    } else {
        None
    };
    put_header(image, &head)?;
    rows.push(head.id);
    Ok(head.id)
}

/// Raises a tower (see [`raise`]).
fn raise_tower(
    image: &mut Vec<u8>,
    rows: &mut Vec<usize>,
    history: &mut Vec<usize>,
    former: Node,
    last: Node,
    h: usize,
) -> (r: Result<(), RecordError>)
    ensures
        match raise(old(image)@, old(rows)@, old(history)@, node_step(former), node_step(last), h as nat) {
            Ok((g, rs)) => r is Ok && final(image)@ == g && final(rows)@ == rs,
            Err(e) => r == Err::<(), RecordError>(e),
        },
    decreases h,
{
    if h == 0 {
        return Ok(());
    }
    let mut former = former;
    if history.len() > 0 {
        let nid = history.pop().unwrap();
        let mut node = read_step(image, nid)?;
        let mut new = append_node(image, node.key.clone(), None)?;
        new.down_node = Some(former.id);
        former.top_node = Some(new.id);
        link_in(image, &mut node, &mut new, nid)?;
        put_header(image, &node)?;
        put_header(image, &new)?;
        put_header(image, &former)?;
        raise_tower(image, rows, history, new, node, h - 1)
    } else {
        let mut new = append_node(image, last.key.clone(), None)?;
        new.down_node = Some(former.id);
        former.top_node = Some(new.id);
        let hid = add_row_in(image, rows, new.id)?;
        new.prev_node = Some(hid);
        put_header(image, &new)?;
        put_header(image, &former)?;
        raise_tower(image, rows, history, new, last, h - 1)
    }
}

/// Stacks link nodes in new rows (see [`stack`]).
fn stack_tower(image: &mut Vec<u8>, rows: &mut Vec<usize>, node: Node, h: usize) -> (r: Result<(), RecordError>)
    ensures
        match stack(old(image)@, old(rows)@, node_step(node), h as nat) {
            Ok((g, rs)) => r is Ok && final(image)@ == g && final(rows)@ == rs,
            Err(e) => r == Err::<(), RecordError>(e),
        },
    decreases h,
{
    if h == 0 {
        return Ok(());
    }
    let mut node = node;
    let mut new = append_node(image, node.key.clone(), None)?;
    node.top_node = Some(new.id);
    new.down_node = Some(node.id);
    let hid = add_row_in(image, rows, new.id)?;
    new.prev_node = Some(hid);
    put_header(image, &new)?;
    put_header(image, &node)?;
    stack_tower(image, rows, new, h - 1)
}

/// Inserts into an empty list (see [`insert_first`]).
fn insert_first_in(
    image: &mut Vec<u8>,
    rows: &mut Vec<usize>,
    key: String,
    values: Vec<usize>,
    height: usize,
) -> (r: Result<(), RecordError>)
    ensures
        match insert_first(old(image)@, old(rows)@, key@, values@, height as nat) {
            Ok((g, rs)) => r is Ok && final(image)@ == g && final(rows)@ == rs,
            Err(e) => r == Err::<(), RecordError>(e),
        },
{
    let mut node = append_node(image, key, Some(values))?;
    let hid = add_row_in(image, rows, node.id)?;
    node.prev_node = Some(hid);
    put_header(image, &node)?;
    stack_tower(image, rows, node, height)
}

/// Adds locations to the node found with the key (see [`extend_at`]).
fn extend_in(image: &mut Vec<u8>, node: Node, values: Vec<usize>) -> (r: Result<(), RecordError>)
    ensures
        match extend_at(old(image)@, node_step(node), values@) {
            Ok(g) => r is Ok && final(image)@ == g,
            Err(e) => r == Err::<(), RecordError>(e),
        },
{
    let mut node = node;
    if node.id > usize::MAX - NODE_HEADER_SIZE || ((node.value.len() as u128) + (values.len() as u128)) * 8
        > u64::MAX as u128 || image.len() > usize::MAX - NODE_HEADER_SIZE {
        return Err(RecordError::Truncated);
    }
    let ghost before = node.value@;
    let ghost old_start = node;
    let mut i: usize = 0;
    while i < values.len()
        invariant
            i <= values.len(),
            node.value@ == before + values@.take(i as int),
            (before.len() + values@.len()) * 8 <= u64::MAX,
            node.id + NODE_HEADER_SIZE <= usize::MAX,
            image@.len() + NODE_HEADER_SIZE <= usize::MAX,
            node.id == old_start.id,
            node.node_type == old_start.node_type,
            node.key@ == old_start.key@,
            node.next_node == old_start.next_node,
            node.prev_node == old_start.prev_node,
            node.top_node == old_start.top_node,
            node.down_node == old_start.down_node,
            before == old_start.value@,
        decreases values.len() - i,
    {
        node.value.push(values[i]);
        assert(values@.take(i + 1) =~= values@.take(i as int).push(values@[i as int]));
        i += 1;
    }
    assert(values@.take(values.len() as int) =~= values@);
    let ghost old_node = node;
    let ghost old_image = image@;
    update_node_value(image, &mut node);
    proof {
        lemma_header_step(Node { id: old_image.len() as usize, node_type: NodeType::Data, ..old_node });
        lemma_header_step(node);
    }
    Ok(())
}

/// Puts a new data node after the node found and raises its tower (see [`insert_new`]).
fn insert_new_in(
    image: &mut Vec<u8>,
    rows: &mut Vec<usize>,
    node: Node,
    history: Vec<usize>,
    key: String,
    values: Vec<usize>,
    height: usize,
) -> (r: Result<(), RecordError>)
    ensures
        match insert_new(old(image)@, old(rows)@, node_step(node), history@, key@, values@, height as nat) {
            Ok((g, rs)) => r is Ok && final(image)@ == g && final(rows)@ == rs,
            Err(e) => r == Err::<(), RecordError>(e),
        },
{
    let mut node = node;
    let mut history = history;
    let node_id = node.id;
    let mut new = append_node(image, key, Some(values))?;
    link_in(image, &mut node, &mut new, node_id)?;
    put_header(image, &node)?;
    put_header(image, &new)?;
    raise_tower(image, rows, &mut history, new, node, height)
}

/// Inserts `key` with the record locations `values` into the list held in the file
/// `image`, whose rows start at `rows` (bottom first), with a tower `height` levels high
/// (see [`insert_result`]).
pub fn insert_with_height(
    image: &mut Vec<u8>,
    rows: &mut Vec<usize>,
    key: String,
    values: Vec<usize>,
    height: usize,
) -> (r: Result<(), RecordError>)
    ensures
        match insert_result(old(image)@, old(rows)@, key@, values@, height as nat) {
            Ok((g, rs)) => r is Ok && final(image)@ == g && final(rows)@ == rs,
            Err(e) => r == Err::<(), RecordError>(e),
        },
{
    if rows.len() == 0 {
        return insert_first_in(image, rows, key, values, height);
    }
    let head = read_step(image, rows[rows.len() - 1])?;
    let k = chars_of(key.as_str());
    let (node, history) = walk_down(image, head, &k, image.len())?;
    let nk = chars_of(node.key.as_str());
    if chars_eq(nk.as_slice(), k.as_slice()) {
        return extend_in(image, node, values);
    }
    insert_new_in(image, rows, node, history, key, values, height)
}

/// Inserts `key` with the record locations `values`, its tower raised one level for each
/// head in a row of coin flips (see [`tower_height`]): what [`insert_with_height`] does for
/// some height.
pub fn insert(image: &mut Vec<u8>, rows: &mut Vec<usize>, key: String, values: Vec<usize>) -> (r: Result<
    (),
    RecordError,
>)
    ensures
        exists|h: nat| match #[trigger] insert_result(old(image)@, old(rows)@, key@, values@, h) {
            Ok((g, rs)) => r is Ok && final(image)@ == g && final(rows)@ == rs,
            Err(e) => r == Err::<(), RecordError>(e),
        },
{
    let height = tower_height(usize::MAX);
    insert_with_height(image, rows, key, values, height)
}

// ------------------------------------------------------------------------------------------
// Deleting from the list.
// ------------------------------------------------------------------------------------------

/// Taking a node out of its row: the node on its left (if any) gets its link right, the
/// node on its right (if any) its link left, and its record is marked removed.
pub open spec fn unlink(image: Seq<u8>, node: Step) -> Result<Seq<u8>, RecordError> {
    let g1 = match node.prev {
        None => Ok(image),
        Some(p) => match read_at(image, p as int) {
            Err(e) => Err(e),
            Ok(r) => write_header(image, Step { next: node.next, ..step_of(r) }),
        },
    };
    match g1 {
        Err(e) => Err(e),
        Ok(g) => {
            let g2 = match node.next {
                None => Ok(g),
                Some(n) => match read_at(g, n as int) {
                    Err(e) => Err(e),
                    Ok(r) => write_header(g, Step { prev: node.prev, ..step_of(r) }),
                },
            };
            match g2 {
                Err(e) => Err(e),
                Ok(g3) => write_header(g3, Step { kind: NodeType::Deleted, next: None, ..node }),
            }
        },
    }
}

/// Taking the tower above `node` out, level by level; each read costs one of `fuel` steps,
/// and running out is refused as a climb that would not end.
pub open spec fn remove_tower(image: Seq<u8>, node: Step, fuel: nat) -> Result<Seq<u8>, RecordError>
    decreases fuel,
{
    match node.top {
        None => Ok(image),
        Some(t) => if fuel == 0 {
            Err(RecordError::LinkBack)
        } else {
            match read_at(image, t as int) {
                Err(e) => Err(e),
                Ok(r) => match unlink(image, step_of(r)) {
                    Err(e) => Err(e),
                    Ok(g) => remove_tower(g, step_of(r), (fuel - 1) as nat),
                },
            }
        },
    }
}

/// What deleting `key` does to the list file: the walk of a search finds the node it
/// stops at; when that node holds the key, it and its tower are taken out.
pub open spec fn delete_result(image: Seq<u8>, rows: Seq<usize>, key: Seq<char>) -> Result<Seq<u8>, RecordError> {
    if rows.len() == 0 {
        Ok(image)
    } else {
        match read_at(image, rows.last() as int) {
            Err(e) => Err(e),
            Ok(r) => match descend(image, step_of(r), key, image.len()) {
                Err(e) => Err(e),
                Ok((node, history)) => if node.key == key {
                    match unlink(image, node) {
                        Err(e) => Err(e),
                        Ok(g) => remove_tower(g, node, image.len()),
                    }
                } else {
                    Ok(image)
                },
            },
        }
    }
}

/// Takes a node out of its row (see [`unlink`]).
fn unlink_in(image: &mut Vec<u8>, node: &Node) -> (r: Result<(), RecordError>)
    ensures
        match unlink(old(image)@, node_step(*node)) {
            Ok(g) => r is Ok && final(image)@ == g,
            Err(e) => r == Err::<(), RecordError>(e),
        },
{
    if let Some(p) = node.prev_node {
        let mut before = read_step(image, p)?;
        before.next_node = node.next_node;
        put_header(image, &before)?;
    }
    if let Some(n) = node.next_node {
        let mut after = read_step(image, n)?;
        after.prev_node = node.prev_node;
        put_header(image, &after)?;
    }
    let gone = Node {
        id: node.id,
        node_type: NodeType::Deleted,
        key: node.key.clone(),
        top_node: node.top_node,
        down_node: node.down_node,
        prev_node: node.prev_node,
        next_node: None,
        value: copy_locations(&node.value),
    };
    put_header(image, &gone)
}

/// Takes the tower above a node out (see [`remove_tower`]).
fn remove_tower_in(image: &mut Vec<u8>, node: Node, fuel: usize) -> (r: Result<(), RecordError>)
    ensures
        match remove_tower(old(image)@, node_step(node), fuel as nat) {
            Ok(g) => r is Ok && final(image)@ == g,
            Err(e) => r == Err::<(), RecordError>(e),
        },
    decreases fuel,
{
    match node.top_node {
        None => Ok(()),
        Some(t) => {
            if fuel == 0 {
                return Err(RecordError::LinkBack);
            }
            let up = read_step(image, t)?;
            unlink_in(image, &up)?;
            remove_tower_in(image, up, fuel - 1)
        },
    }
}

/// Deletes `key` from the list held in the file `image`, whose rows start at `rows`
/// (see [`delete_result`]).
pub fn delete(image: &mut Vec<u8>, rows: &[usize], key: &String) -> (r: Result<(), RecordError>)
    ensures
        match delete_result(old(image)@, rows@, key@) {
            Ok(g) => r is Ok && final(image)@ == g,
            Err(e) => r == Err::<(), RecordError>(e),
        },
{
    if rows.len() == 0 {
        return Ok(());
    }
    let head = read_step(image, rows[rows.len() - 1])?;
    let k = chars_of(key.as_str());
    let fuel = image.len();
    let (node, _) = walk_down(image, head, &k, fuel)?;
    let nk = chars_of(node.key.as_str());
    if chars_eq(nk.as_slice(), k.as_slice()) {
        unlink_in(image, &node)?;
        remove_tower_in(image, node, fuel)
    } else {
        Ok(())
    }
}
} // verus!
