use crate::json::{chars_eq, chars_lt, seq_lt};
use crate::text::chars_of;
use vstd::prelude::*;

verus! {

/// A node of a tree of keys: its page, its parent's page, its keys in order, and the values
/// (record locations in a leaf, child pages otherwise).
#[derive(Debug, PartialEq, Eq, PartialOrd, Ord)]
pub struct Node {
    pub parent_page_id: usize,
    pub page_id: usize,
    pub keys: Vec<String>,
    pub values: Vec<usize>,
    pub is_leaf: bool,
}

/// The keys as character sequences.
pub open spec fn keys_view(keys: Seq<String>) -> Seq<Seq<char>> {
    keys.map_values(|k: String| k@)
}

/// The number of keys before the first one that is not less than `key`.
pub open spec fn slot_from(keys: Seq<Seq<char>>, key: Seq<char>, i: int) -> int
    decreases keys.len() - i,
{
    if 0 <= i < keys.len() && seq_lt(keys[i], key) {
        slot_from(keys, key, i + 1)
    } else {
        i
    }
}

/// Where `key` goes among the keys: after those before the first that is not less than it.
pub open spec fn slot(keys: Seq<Seq<char>>, key: Seq<char>) -> int {
    slot_from(keys, key, 0)
}

pub proof fn lemma_slot_from(keys: Seq<Seq<char>>, key: Seq<char>, i: int)
    requires
        0 <= i <= keys.len(),
    ensures
        i <= slot_from(keys, key, i) <= keys.len(),
        forall|j: int| i <= j < slot_from(keys, key, i) ==> seq_lt(#[trigger] keys[j], key),
        slot_from(keys, key, i) < keys.len() ==> !seq_lt(keys[slot_from(keys, key, i)], key),
    decreases keys.len() - i,
{
    if i < keys.len() && seq_lt(keys[i], key) {
        lemma_slot_from(keys, key, i + 1);
    }
}

/// What `get` finds for a key: in a leaf, the value at the key's slot when the key stands
/// there and nothing otherwise; in an inner node, the value at the slot, if there is one.
pub open spec fn lookup_value(n: Node, key: Seq<char>) -> Option<usize> {
    let p = slot(keys_view(n.keys@), key);
    if n.is_leaf {
        if p < n.keys@.len() && keys_view(n.keys@)[p] == key {
            Some(n.values@[p])
        } else {
            None
        }
    } else if 0 <= p < n.values@.len() {
        Some(n.values@[p])
    } else {
        None
    }
}

/// Whether a key comes before `k`.
fn key_before(a: &String, k: &[char]) -> (r: bool)
    ensures
        r == seq_lt(a@, k@),
{
    let other = chars_of(a.as_str());
    chars_lt(other.as_slice(), k)
}

/// Whether two keys are the same.
fn key_is(a: &String, b: &String) -> (r: bool)
    ensures
        r == (a@ == b@),
{
    let x = chars_of(a.as_str());
    let y = chars_of(b.as_str());
    chars_eq(x.as_slice(), y.as_slice())
}

impl Node {
    /// The slot of a key.
    fn find_slot(&self, key: &String) -> (i: usize)
        ensures
            i == slot(keys_view(self.keys@), key@),
    {
        let ghost ks = keys_view(self.keys@);
        let k = chars_of(key.as_str());
        let mut i: usize = 0;
        while i < self.keys.len() && key_before(&self.keys[i], k.as_slice())
            invariant
                i <= self.keys.len(),
                ks == keys_view(self.keys@),
                k@ == key@,
                slot_from(ks, key@, i as int) == slot(ks, key@),
            decreases self.keys.len() - i,
        {
            i += 1;
        }
        i
    }

    /// Inserts a key and its value at the key's slot.
    pub fn insert(&mut self, key: String, value: usize)
        requires
            old(self).keys.len() <= old(self).values.len(),
        ensures
            keys_view(final(self).keys@) == keys_view(old(self).keys@).insert(
                slot(keys_view(old(self).keys@), key@),
                key@,
            ),
            final(self).values@ == old(self).values@.insert(
                slot(keys_view(old(self).keys@), key@),
                value,
            ),
            final(self).is_leaf == old(self).is_leaf,
            final(self).page_id == old(self).page_id,
            final(self).parent_page_id == old(self).parent_page_id,
    {
        let i = self.find_slot(&key);
        proof {
            lemma_slot_from(keys_view(self.keys@), key@, 0);
        }
        let ghost k = key@;
        let ghost before = self.keys@;
        self.values.insert(i, value);
        self.keys.insert(i, key);
        assert(keys_view(self.keys@) =~= keys_view(before).insert(i as int, k));
    }

    /// The value a key leads to (see [`lookup_value`]): in a leaf, the key's own value,
    /// `None` when the leaf does not hold the key.
    pub fn get(&self, key: String) -> (r: Option<&usize>)
        requires
            self.is_leaf ==> self.keys.len() <= self.values.len(),
        ensures
            match r {
                Some(v) => lookup_value(*self, key@) == Some(*v),
                None => lookup_value(*self, key@) is None,
            },
    {
        let i = self.find_slot(&key);
        proof {
            lemma_slot_from(keys_view(self.keys@), key@, 0);
        }
        if self.is_leaf {
            if i < self.keys.len() && key_is(&self.keys[i], &key) {
                return Some(&self.values[i]);
            }
            return None;
        }
        if i < self.values.len() {
            Some(&self.values[i])
        } else {
            None
        }
    }
}

/// A value inserted under a key is what the key then leads to.
pub proof fn lemma_insert_then_get(before: Node, after: Node, key: Seq<char>, value: usize)
    requires
        before.keys.len() <= before.values.len(),
        keys_view(after.keys@) == keys_view(before.keys@).insert(
            slot(keys_view(before.keys@), key),
            key,
        ),
        after.values@ == before.values@.insert(slot(keys_view(before.keys@), key), value),
        after.is_leaf == before.is_leaf,
    ensures
        lookup_value(after, key) == Some(value),
{
    let ks = keys_view(before.keys@);
    let ka = keys_view(after.keys@);
    let p = slot(ks, key);
    lemma_slot_from(ks, key, 0);
    lemma_seq_lt_self(key);
    assert(ka[p] == key);
    assert forall|j: int| 0 <= j < p implies seq_lt(#[trigger] ka[j], key) by {
        assert(ka[j] == ks[j]);
    }
    lemma_slot_prefix(ka, key, 0, p);
    assert(after.values@[p] == value);
}

/// No text comes before itself.
proof fn lemma_seq_lt_self(a: Seq<char>)
    ensures
        !seq_lt(a, a),
{
    crate::json::lemma_seq_lt_irreflexive(a);
}

/// Scanning keys that are all less than `key` up to `p`, where a key that is not less
/// stands, stops at `p`.
proof fn lemma_slot_prefix(ks: Seq<Seq<char>>, key: Seq<char>, i: int, p: int)
    requires
        0 <= i <= p < ks.len(),
        forall|j: int| 0 <= j < p ==> seq_lt(#[trigger] ks[j], key),
        !seq_lt(ks[p], key),
    ensures
        slot_from(ks, key, i) == p,
    decreases p - i,
{
    if i < p {
        lemma_slot_prefix(ks, key, i + 1, p);
    }
}

} // verus!
