use crate::bytes::{be8, be_word, lemma_be8_between, lemma_be8_word, push_word, read_word};
use crate::error::Error;
use crate::node::{keys_view, Node};
use crate::skip_list::{lemma_words_of_value_bytes, value_bytes};
use crate::text::{chars_of, string_from_utf8, string_of_range};
use vstd::prelude::*;
use vstd::utf8::{
    decode_utf8, encode_scalar, encode_utf8, encode_utf8_decode_utf8, encode_utf8_valid_utf8, valid_utf8,
};

verus! {

broadcast use vstd::string::group_string_axioms;

/// The size of a page of the nodes file.
pub const PAGE_SIZE: usize = 4096;

/// Where a page says whether its node is a leaf.
pub const NODE_TYPE_OFFSET: usize = 0;

/// Where a page holds its node's parent page.
pub const NODE_PARENT_OFFSET: usize = 1;

/// Where a page holds how many keys its node has.
pub const NODE_KEY_COUNT_OFFSET: usize = 9;

/// Where the keys of a page start.
pub const HEADER_SIZE: usize = 17;

/// The room a key has in a page, in bytes.
pub const MAX_KEY_SIZE: usize = 50;

/// `n` zero bytes.
pub open spec fn zeros(n: nat) -> Seq<u8> {
    Seq::new(n, |i: int| 0u8)
}

/// A key in its slot: its bytes, then zeros to the slot's size.
pub open spec fn key_slot(k: Seq<char>) -> Seq<u8> {
    encode_utf8(k) + zeros((MAX_KEY_SIZE - encode_utf8(k).len()) as nat)
}

/// The slots of the keys, one after another.
pub open spec fn key_slots(keys: Seq<Seq<char>>) -> Seq<u8>
    decreases keys.len(),
{
    if keys.len() == 0 {
        Seq::empty()
    } else {
        key_slots(keys.drop_last()) + key_slot(keys.last())
    }
}

/// The written part of a node's page: leaf flag, parent page, key count, key slots, values.
pub open spec fn node_bytes(n: Node) -> Seq<u8> {
    seq![
        if n.is_leaf {
            1u8
        } else {
            0u8
        },
    ] + be8(n.parent_page_id as u64) + be8(n.keys@.len() as u64) + key_slots(keys_view(n.keys@))
        + value_bytes(n.values@)
}

/// A node's page: its written part, then zeros to the page's size.
pub open spec fn page_of(n: Node) -> Seq<u8> {
    node_bytes(n) + zeros((PAGE_SIZE - node_bytes(n).len()) as nat)
}

/// Whether a node fits a page: each key fits its slot, and the slots and values fit the page.
pub open spec fn node_fits(n: Node) -> bool {
    &&& forall|i: int| 0 <= i < n.keys@.len() ==> encode_utf8(#[trigger] n.keys@[i]@).len() <= MAX_KEY_SIZE
    &&& HEADER_SIZE + MAX_KEY_SIZE * n.keys@.len() + 8 * n.values@.len() <= PAGE_SIZE
}

/// Slots of keys that fit take the slot size each.
proof fn lemma_key_slots_len(keys: Seq<Seq<char>>)
    requires
        forall|i: int| 0 <= i < keys.len() ==> encode_utf8(#[trigger] keys[i]).len() <= MAX_KEY_SIZE,
    ensures
        key_slots(keys).len() == MAX_KEY_SIZE * keys.len(),
    decreases keys.len(),
{
    if keys.len() > 0 {
        lemma_key_slots_len(keys.drop_last());
    }
}

/// Appends `n` zero bytes.
fn push_zeros(out: &mut Vec<u8>, n: usize)
    ensures
        final(out)@ == old(out)@ + zeros(n as nat),
{
    let mut i: usize = 0;
    while i < n
        invariant
            i <= n,
            out@ == old(out)@ + zeros(i as nat),
        decreases n - i,
    {
        out.push(0u8);
        assert(old(out)@ + zeros((i + 1) as nat) =~= (old(out)@ + zeros(i as nat)).push(0u8));
        i += 1;
    }
}

/// Appends bytes.
fn push_bytes(out: &mut Vec<u8>, b: &[u8])
    ensures
        final(out)@ == old(out)@ + b@,
{
    let mut i: usize = 0;
    while i < b.len()
        invariant
            i <= b.len(),
            out@ == old(out)@ + b@.take(i as int),
        decreases b.len() - i,
    {
        out.push(b[i]);
        assert(b@.take(i + 1) =~= b@.take(i as int).push(b@[i as int]));
        i += 1;
    }
    assert(b@.take(b.len() as int) =~= b@);
}

/// The page a node is written as.
pub fn transfer_node_to_bytes(node: &Node) -> (page: Vec<u8>)
    requires
        node_fits(*node),
    ensures
        page@ == page_of(*node),
        page@.len() == PAGE_SIZE,
{
    let mut out: Vec<u8> = Vec::new();
    out.push(if node.is_leaf { 1u8 } else { 0u8 });
    push_word(&mut out, node.parent_page_id as u64);
    push_word(&mut out, node.keys.len() as u64);
    let ghost head = out@;
    let ghost ks = keys_view(node.keys@);
    let mut i: usize = 0;
    while i < node.keys.len()
        invariant
            i <= node.keys.len(),
            ks == keys_view(node.keys@),
            node_fits(*node),
            out@ == head + key_slots(ks.take(i as int)),
        decreases node.keys.len() - i,
    {
        let kb = node.keys[i].as_str().as_bytes();
        assert(kb@ == encode_utf8(ks[i as int]));
        assert(kb.len() <= MAX_KEY_SIZE) by {
            assert(encode_utf8(node.keys@[i as int]@).len() <= MAX_KEY_SIZE);
        }
        push_bytes(&mut out, kb);
        push_zeros(&mut out, MAX_KEY_SIZE - kb.len());
        assert(ks.take(i + 1).drop_last() =~= ks.take(i as int));
        assert(out@ =~= head + key_slots(ks.take(i + 1)));
        i += 1;
    }
    assert(ks.take(node.keys.len() as int) =~= ks);
    let ghost mid = out@;
    let mut j: usize = 0;
    while j < node.values.len()
        invariant
            j <= node.values.len(),
            out@ == mid + value_bytes(node.values@.take(j as int)),
        decreases node.values.len() - j,
    {
        push_word(&mut out, node.values[j] as u64);
        assert(node.values@.take(j + 1).drop_last() =~= node.values@.take(j as int));
        assert(out@ =~= mid + value_bytes(node.values@.take(j + 1)));
        j += 1;
    }
    assert(node.values@.take(node.values.len() as int) =~= node.values@);
    assert(out@ =~= node_bytes(*node));
    proof {
        lemma_key_slots_len(ks);
        lemma_words_of_value_bytes(node.values@);
    }
    let used = out.len();
    push_zeros(&mut out, PAGE_SIZE - used);
    out
}

/// The chars left when the trailing NUL chars are taken off.
pub open spec fn trim_nul(cs: Seq<char>) -> Seq<char>
    decreases cs.len(),
{
    if cs.len() > 0 && cs.last() == '\0' {
        trim_nul(cs.drop_last())
    } else {
        cs
    }
}

/// The key count a page holds.
pub open spec fn page_key_count(page: Seq<u8>) -> int {
    be_word(page, NODE_KEY_COUNT_OFFSET as int) as usize as int
}

/// How many values a page holds: one per key, and one more for an inner node.
pub open spec fn page_value_count(page: Seq<u8>) -> int {
    page_key_count(page) + if page[0] == 1 {
        0int
    } else {
        1int
    }
}

/// The slot of the `i`th key of a page.
pub open spec fn page_slot(page: Seq<u8>, i: int) -> Seq<u8> {
    page.subrange(
        HEADER_SIZE + MAX_KEY_SIZE * i,
        HEADER_SIZE + MAX_KEY_SIZE * i + MAX_KEY_SIZE,
    )
}

/// The `i`th value of a page.
pub open spec fn page_value(page: Seq<u8>, i: int) -> usize {
    be_word(page, HEADER_SIZE + MAX_KEY_SIZE * page_key_count(page) + 8 * i) as usize
}

/// Whether a page can be read without running past its end: a page whose leaf flag is
/// neither 0 nor 1 is refused before anything else; otherwise its key slots and values
/// lie within it. (Reading a page whose count runs past its end panics, unless a key before
/// the end fails first; the tree never writes such a page.)
pub open spec fn page_readable(page: Seq<u8>) -> bool {
    &&& page.len() == PAGE_SIZE
    &&& (page[0] == 0 || page[0] == 1) ==> HEADER_SIZE + MAX_KEY_SIZE * page_key_count(page) + 8
        * page_value_count(page) <= PAGE_SIZE
}

/// A node read from a page, as values.
pub struct PageNode {
    pub parent: usize,
    pub keys: Seq<Seq<char>>,
    pub values: Seq<usize>,
    pub is_leaf: bool,
}

/// How a page reads: a leaf flag other than 0 or 1, or a key slot that is not UTF-8, fails;
/// otherwise the keys are the slots without their trailing NULs, and the values follow.
pub open spec fn read_page(page: Seq<u8>) -> Option<PageNode> {
    if page[0] != 0 && page[0] != 1 {
        None
    } else if exists|i: int| 0 <= i < page_key_count(page) && !valid_utf8(#[trigger] page_slot(page, i)) {
        None
    } else {
        Some(
            PageNode {
                parent: be_word(page, NODE_PARENT_OFFSET as int) as usize,
                keys: Seq::new(
                    page_key_count(page) as nat,
                    |i: int| trim_nul(decode_utf8(page_slot(page, i))),
                ),
                values: Seq::new(page_value_count(page) as nat, |i: int| page_value(page, i)),
                is_leaf: page[0] == 1,
            },
        )
    }
}

/// Whether a node is what a page read as, at `page_id`.
pub open spec fn node_is(n: Node, page_id: usize, v: PageNode) -> bool {
    &&& n.page_id == page_id
    &&& n.parent_page_id == v.parent
    &&& keys_view(n.keys@) == v.keys
    &&& n.values@ == v.values
    &&& n.is_leaf == v.is_leaf
}

/// A key without its trailing NUL chars.
fn trim_nul_string(s: &String) -> (r: String)
    ensures
        r@ == trim_nul(s@),
{
    let v = chars_of(s.as_str());
    let mut end = v.len();
    assert(v@.take(v.len() as int) =~= v@);
    while end > 0 && v[end - 1] == '\0'
        invariant
            end <= v.len(),
            trim_nul(v@.take(end as int)) == trim_nul(v@),
        decreases end,
    {
        assert(v@.take(end as int).drop_last() =~= v@.take(end - 1));
        end -= 1;
    }
    assert(v@.take(end as int) =~= v@.subrange(0, end as int));
    assert(v@.take(v.len() as int) =~= v@);
    string_of_range(v.as_slice(), 0, end)
}

/// The bytes of a page from `start` for `len` bytes.
fn copy_range(page: &[u8], start: usize, len: usize) -> (r: Vec<u8>)
    requires
        start + len <= page.len(),
    ensures
        r@ == page@.subrange(start as int, start + len),
{
    let mut r: Vec<u8> = Vec::new();
    let mut k: usize = 0;
    while k < len
        invariant
            k <= len,
            start + len <= page.len(),
            r@ == page@.subrange(start as int, start + k),
        decreases len - k,
    {
        r.push(page[start + k]);
        assert(page@.subrange(start as int, start + k + 1) =~= page@.subrange(start as int, start + k).push(
            page@[start + k],
        ));
        k += 1;
    }
    r
}

/// The node a page holds, at `page_id`.
pub fn read_node(page_id: usize, page: &[u8]) -> (r: Result<Node, Error>)
    requires
        page_readable(page@),
    ensures
        match read_page(page@) {
            Some(v) => r matches Ok(n) && node_is(n, page_id, v),
            None => r == Err::<Node, Error>(Error::CantReadNode(page_id)),
        },
{
    let t = page[NODE_TYPE_OFFSET];
    if t != 1 && t != 0 {
        return Err(Error::CantReadNode(page_id));
    }
    let is_leaf = t == 1;
    let parent = read_word(page, NODE_PARENT_OFFSET) as usize;
    let count = read_word(page, NODE_KEY_COUNT_OFFSET) as usize;
    let vcount = if is_leaf { count } else { count + 1 };
    let ghost p = page@;
    assert(count == page_key_count(p));
    assert(vcount == page_value_count(p));
    let values_start = HEADER_SIZE + MAX_KEY_SIZE * count;
    let mut keys: Vec<String> = Vec::new();
    let mut values: Vec<usize> = Vec::new();
    let mut i: usize = 0;
    while i < count
        invariant
            p == page@,
            page_readable(p),
            p[0] == 0 || p[0] == 1,
            count == page_key_count(p),
            vcount == page_value_count(p),
            values_start == HEADER_SIZE + MAX_KEY_SIZE * count,
            i <= count,
            forall|j: int| 0 <= j < i ==> valid_utf8(#[trigger] page_slot(p, j)),
            keys_view(keys@) =~= Seq::new(i as nat, |j: int| trim_nul(decode_utf8(page_slot(p, j)))),
            values@ =~= Seq::new(i as nat, |j: int| page_value(p, j)),
        decreases count - i,
    {
        let start = HEADER_SIZE + MAX_KEY_SIZE * i;
        let slot = copy_range(page, start, MAX_KEY_SIZE);
        assert(slot@ == page_slot(p, i as int));
        let s = match string_from_utf8(slot) {
            Some(s) => s,
            None => {
                assert(!valid_utf8(page_slot(p, i as int)));
                return Err(Error::CantReadNode(page_id));
            },
        };
        let key = trim_nul_string(&s);
        let value = read_word(page, values_start + 8 * i) as usize;
        assert(value == page_value(p, i as int));
        let ghost before = keys@;
        keys.push(key);
        assert(keys_view(keys@) =~= keys_view(before).push(key@));
        values.push(value);
        i += 1;
    }
    if !is_leaf {
        let value = read_word(page, values_start + 8 * count) as usize;
        assert(value == page_value(p, count as int));
        values.push(value);
    }
    assert(values@ =~= Seq::new(page_value_count(p) as nat, |j: int| page_value(p, j)));
    assert(parent == be_word(p, NODE_PARENT_OFFSET as int) as usize);
    proof {
        assert(!(exists|j: int| 0 <= j < page_key_count(p) && !valid_utf8(#[trigger] page_slot(p, j))));
    }
    Ok(Node { parent_page_id: parent, page_id, keys, values, is_leaf })
}

/// What the original reads as a node's largest key: the slot just after its keys, which
/// is where its values start, taken as text without trailing NULs; an error where that slot
/// is not UTF-8.
pub fn get_node_max_key(page_id: usize, page: &[u8]) -> (r: Result<String, Error>)
    requires
        page.len() == PAGE_SIZE,
        HEADER_SIZE + MAX_KEY_SIZE * page_key_count(page@) + MAX_KEY_SIZE <= PAGE_SIZE,
    ensures
        ({
            let slot = page_slot(page@, page_key_count(page@));
            if valid_utf8(slot) {
                r matches Ok(s) && s@ == trim_nul(decode_utf8(slot))
            } else {
                r == Err::<String, Error>(Error::CantReadNode(page_id))
            }
        }),
{
    let count = read_word(page, NODE_KEY_COUNT_OFFSET) as usize;
    let start = HEADER_SIZE + MAX_KEY_SIZE * count;
    let slot = copy_range(page, start, MAX_KEY_SIZE);
    match string_from_utf8(slot) {
        Some(s) => Ok(trim_nul_string(&s)),
        None => Err(Error::CantReadNode(page_id)),
    }
}

/// `m` NUL chars.
pub open spec fn nuls(m: nat) -> Seq<char> {
    Seq::new(m, |i: int| '\0')
}

/// The encoding of two runs of chars is the encoding of the first, then of the second.
proof fn lemma_encode_concat(a: Seq<char>, b: Seq<char>)
    ensures
        encode_utf8(a + b) == encode_utf8(a) + encode_utf8(b),
    decreases a.len(),
{
    if a.len() == 0 {
        assert(a + b =~= b);
    } else {
        assert((a + b).drop_first() =~= a.drop_first() + b);
        assert((a + b)[0] == a[0]);
        lemma_encode_concat(a.drop_first(), b);
    }
}

/// Zero bytes are the encoding of NUL chars.
proof fn lemma_zeros_encode(m: nat)
    ensures
        zeros(m) == encode_utf8(nuls(m)),
    decreases m,
{
    if m > 0 {
        lemma_zeros_encode((m - 1) as nat);
        assert(nuls(m).drop_first() =~= nuls((m - 1) as nat));
        assert(('\0' as u32) == 0u32);
        assert((0u32 & 0x7F) as u8 == 0u8) by (bit_vector);
        assert(encode_scalar(nuls(m)[0] as u32) =~= seq![0u8]);
        assert(zeros(m) =~= seq![0u8] + zeros((m - 1) as nat));
    }
}

/// Taking the trailing NULs off a key followed by NULs gives the key back, where the key
/// does not itself end with a NUL.
proof fn lemma_trim_nuls(k: Seq<char>, m: nat)
    requires
        k.len() == 0 || k.last() != '\0',
    ensures
        trim_nul(k + nuls(m)) == k,
    decreases m,
{
    if m == 0 {
        assert(k + nuls(0) =~= k);
    } else {
        assert((k + nuls(m)).drop_last() =~= k + nuls((m - 1) as nat));
        lemma_trim_nuls(k, (m - 1) as nat);
    }
}

/// A key that fits its slot reads back from it.
proof fn lemma_key_slot_reads(k: Seq<char>)
    requires
        encode_utf8(k).len() <= MAX_KEY_SIZE,
        k.len() == 0 || k.last() != '\0',
    ensures
        valid_utf8(key_slot(k)),
        trim_nul(decode_utf8(key_slot(k))) == k,
        key_slot(k).len() == MAX_KEY_SIZE,
{
    let m = (MAX_KEY_SIZE - encode_utf8(k).len()) as nat;
    lemma_zeros_encode(m);
    lemma_encode_concat(k, nuls(m));
    encode_utf8_valid_utf8(k + nuls(m));
    encode_utf8_decode_utf8(k + nuls(m));
    lemma_trim_nuls(k, m);
}

/// The `i`th slot of the key slots is the slot of the `i`th key.
proof fn lemma_key_slots_at(keys: Seq<Seq<char>>, i: int)
    requires
        0 <= i < keys.len(),
        forall|j: int| 0 <= j < keys.len() ==> encode_utf8(#[trigger] keys[j]).len() <= MAX_KEY_SIZE,
    ensures
        key_slots(keys).subrange(MAX_KEY_SIZE * i, MAX_KEY_SIZE * i + MAX_KEY_SIZE) == key_slot(keys[i]),
    decreases keys.len(),
{
    let init = keys.drop_last();
    lemma_key_slots_len(init);
    if i == keys.len() - 1 {
        assert(key_slots(keys).subrange(MAX_KEY_SIZE * i, MAX_KEY_SIZE * i + MAX_KEY_SIZE) =~= key_slot(
            keys[i],
        ));
    } else {
        lemma_key_slots_at(init, i);
        assert(key_slots(keys).subrange(MAX_KEY_SIZE * i, MAX_KEY_SIZE * i + MAX_KEY_SIZE)
            =~= key_slots(init).subrange(MAX_KEY_SIZE * i, MAX_KEY_SIZE * i + MAX_KEY_SIZE));
    }
}

/// The `j`th word of the value bytes is the `j`th value.
proof fn lemma_value_bytes_at(v: Seq<usize>, j: int)
    requires
        0 <= j < v.len(),
    ensures
        value_bytes(v).subrange(8 * j, 8 * j + 8) == be8(v[j] as u64),
    decreases v.len(),
{
    let init = v.drop_last();
    lemma_words_of_value_bytes(init);
    lemma_be8_word(v.last() as u64);
    if j == v.len() - 1 {
        assert(value_bytes(v).subrange(8 * j, 8 * j + 8) =~= be8(v[j] as u64));
    } else {
        lemma_value_bytes_at(init, j);
        assert(value_bytes(v).subrange(8 * j, 8 * j + 8) =~= value_bytes(init).subrange(8 * j, 8 * j + 8));
    }
}

/// A word whose bytes stand at `q` is read there.
proof fn lemma_be_word_at(s: Seq<u8>, q: int, x: u64)
    requires
        0 <= q,
        q + 8 <= s.len(),
        s.subrange(q, q + 8) == be8(x),
    ensures
        be_word(s, q) == x,
{
    lemma_be8_between(s.subrange(0, q), x, s.subrange(q + 8, s.len() as int));
    assert(s.subrange(0, q) + be8(x) + s.subrange(q + 8, s.len() as int) =~= s);
}

/// A node that fits a page, with keys that do not end in NUL and one value per key (one
/// more for an inner node), reads back from its page as it was written.
pub proof fn lemma_page_roundtrip(n: Node)
    requires
        node_fits(n),
        forall|i: int| 0 <= i < n.keys@.len() ==> (#[trigger] n.keys@[i]@).len() == 0 || n.keys@[i]@.last() != '\0',
        n.values@.len() == n.keys@.len() + if n.is_leaf {
            0int
        } else {
            1int
        },
    ensures
        page_readable(page_of(n)),
        read_page(page_of(n)) == Some(
            PageNode {
                parent: n.parent_page_id,
                keys: keys_view(n.keys@),
                values: n.values@,
                is_leaf: n.is_leaf,
            },
        ),
{
    let ks = keys_view(n.keys@);
    let vs = n.values@;
    let k = ks.len();
    let t: u8 = if n.is_leaf {
        1u8
    } else {
        0u8
    };
    assert forall|j: int| 0 <= j < k implies encode_utf8(#[trigger] ks[j]).len() <= MAX_KEY_SIZE by {
        assert(ks[j] == n.keys@[j]@);
    }
    lemma_key_slots_len(ks);
    lemma_words_of_value_bytes(vs);
    let head = seq![t] + be8(n.parent_page_id as u64) + be8(k as u64);
    lemma_be8_word(n.parent_page_id as u64);
    lemma_be8_word(k as u64);
    let nb = node_bytes(n);
    let p = page_of(n);
    assert(nb =~= head + key_slots(ks) + value_bytes(vs));
    assert(p.len() == PAGE_SIZE);
    assert(p[0] == t);
    assert(p.subrange(1, 9) =~= be8(n.parent_page_id as u64));
    lemma_be_word_at(p, 1, n.parent_page_id as u64);
    assert(p.subrange(9, 17) =~= be8(k as u64));
    lemma_be_word_at(p, 9, k as u64);
    assert(page_key_count(p) == k);
    assert(page_value_count(p) == vs.len());
    let vstart = HEADER_SIZE + MAX_KEY_SIZE * k;
    assert forall|i: int| 0 <= i < k implies #[trigger] page_slot(p, i) == key_slot(ks[i]) by {
        lemma_key_slots_at(ks, i);
        assert(page_slot(p, i) =~= key_slots(ks).subrange(MAX_KEY_SIZE * i, MAX_KEY_SIZE * i + MAX_KEY_SIZE));
    }
    assert forall|i: int| 0 <= i < k implies valid_utf8(#[trigger] page_slot(p, i)) && trim_nul(
        decode_utf8(page_slot(p, i)),
    ) == ks[i] by {
        assert(page_slot(p, i) == key_slot(ks[i]));
        assert(ks[i] == n.keys@[i]@);
        lemma_key_slot_reads(ks[i]);
    }
    assert forall|j: int| 0 <= j < vs.len() implies #[trigger] page_value(p, j) == vs[j] by {
        lemma_value_bytes_at(vs, j);
        assert(p.subrange(vstart + 8 * j, vstart + 8 * j + 8) =~= value_bytes(vs).subrange(8 * j, 8 * j + 8));
        lemma_be_word_at(p, vstart + 8 * j, vs[j] as u64);
    }
    assert(Seq::new(k as nat, |i: int| trim_nul(decode_utf8(page_slot(p, i)))) =~= ks);
    assert(Seq::new(vs.len(), |j: int| page_value(p, j)) =~= vs);
}

} // verus!
