use crate::json::{chars_eq, copy_range};
use crate::text::{chars_of, find_char_from, find_char_in, lemma_find_char_from_bounds, string_of};
use vstd::prelude::*;

verus! {

/// A node of a route tree: a key (one piece of a path, or a `{name}` that stands for any
/// piece), an optional handler, and child nodes.
#[derive(Debug)]
pub struct Node<F> {
    pub nodes: Vec<Node<F>>,
    pub key: String,
    pub handler: Option<F>,
    pub is_wild_card: bool,
}

/// A route tree is its root node.
pub type RadixTree<F> = Node<F>;

/// Whether a key stands for any piece: it starts with `{` and ends with `}`.
pub open spec fn wild_key(k: Seq<char>) -> bool {
    k.len() > 0 && k[0] == '{' && k.last() == '}'
}

/// The first child from position `i` on whose key is `k` or stands for any piece.
pub open spec fn first_match_from<F>(children: Seq<Node<F>>, k: Seq<char>, i: int) -> Option<int>
    decreases children.len() - i,
{
    if i < 0 || i >= children.len() {
        None
    } else if children[i].key@ == k || children[i].is_wild_card {
        Some(i)
    } else {
        first_match_from(children, k, i + 1)
    }
}

/// The first child whose key is `k` or stands for any piece.
pub open spec fn first_match<F>(children: Seq<Node<F>>, k: Seq<char>) -> Option<int> {
    first_match_from(children, k, 0)
}

pub proof fn lemma_first_match_from<F>(children: Seq<Node<F>>, k: Seq<char>, i: int)
    requires
        0 <= i,
    ensures
        match first_match_from(children, k, i) {
            Some(j) => i <= j < children.len() && (children[j].key@ == k
                || children[j].is_wild_card) && forall|l: int|
                i <= l < j ==> (#[trigger] children[l]).key@ != k && !children[l].is_wild_card,
            None => forall|l: int|
                i <= l < children.len() ==> (#[trigger] children[l]).key@ != k
                    && !children[l].is_wild_card,
        },
    decreases children.len() - i,
{
    if i < children.len() && !(children[i].key@ == k || children[i].is_wild_card) {
        lemma_first_match_from(children, k, i + 1);
    }
}

/// The handler a path leads to from a node: the path is split at its first `/`; a piece
/// before a final `/` is this node's own key, an empty piece before more path is passed
/// over, another piece selects the first matching child; a path with no `/` selects the
/// first matching child's handler.
pub open spec fn route_of<F>(n: Node<F>, p: Seq<char>) -> Option<F>
    decreases p.len(),
{
    match find_char_from(p, '/', 0) {
        Some(i) => {
            proof {
                lemma_find_char_from_bounds(p, '/', 0);
            }
            let root = p.subrange(0, i);
            let rest = p.subrange(i + 1, p.len() as int);
            if rest.len() == 0 {
                if n.key@ == root || n.is_wild_card {
                    n.handler
                } else {
                    None
                }
            } else if root.len() == 0 {
                route_of(n, rest)
            } else {
                match first_match(n.nodes@, root) {
                    None => None,
                    Some(j) => route_of(n.nodes@[j], rest),
                }
            }
        },
        None => match first_match(n.nodes@, p) {
            None => None,
            Some(j) => n.nodes@[j].handler,
        },
    }
}

/// A new leaf for the key `k` with the handler `h`.
pub open spec fn is_leaf<F>(c: Node<F>, k: Seq<char>, h: F) -> bool {
    c.nodes@.len() == 0 && c.key@ == k && c.handler == Some(h) && c.is_wild_card == wild_key(k)
}

/// `n` is `o` with one more child, a new leaf for `k` with `h`, at the end.
pub open spec fn with_leaf<F>(o: Node<F>, n: Node<F>, k: Seq<char>, h: F) -> bool {
    &&& n.key@ == o.key@
    &&& n.handler == o.handler
    &&& n.is_wild_card == o.is_wild_card
    &&& n.nodes@.len() == o.nodes@.len() + 1
    &&& n.nodes@.subrange(0, o.nodes@.len() as int) == o.nodes@
    &&& is_leaf(n.nodes@.last(), k, h)
}

/// `n` is `o` after inserting the handler `h` at the path `p`: split at its first `/`, a
/// piece before a final `/` becomes this node's key, with `h` as its handler; an empty piece
/// before more path is passed over; another piece goes down to the first matching child,
/// or adds a leaf keyed by the rest of the path; a path with no `/` adds a leaf for it.
pub open spec fn inserted<F>(o: Node<F>, n: Node<F>, p: Seq<char>, h: F) -> bool
    decreases p.len(),
{
    match find_char_from(p, '/', 0) {
        Some(i) => {
            proof {
                lemma_find_char_from_bounds(p, '/', 0);
            }
            let root = p.subrange(0, i);
            let rest = p.subrange(i + 1, p.len() as int);
            if rest.len() == 0 {
                &&& n.handler == Some(h)
                &&& n.key@ == root
                &&& n.nodes@ == o.nodes@
                &&& n.is_wild_card == o.is_wild_card
            } else if root.len() == 0 {
                inserted(o, n, rest, h)
            } else {
                match first_match(o.nodes@, root) {
                    None => with_leaf(o, n, rest, h),
                    Some(j) => {
                        &&& n.key@ == o.key@
                        &&& n.handler == o.handler
                        &&& n.is_wild_card == o.is_wild_card
                        &&& n.nodes@.len() == o.nodes@.len()
                        &&& forall|k: int|
                            0 <= k < o.nodes@.len() && k != j ==> n.nodes@[k] == o.nodes@[k]
                        &&& inserted(o.nodes@[j], n.nodes@[j], rest, h)
                    },
                }
            }
        },
        None => with_leaf(o, n, p, h),
    }
}

/// Whether `v` starts with `{` and ends with `}`.
fn is_wild(v: &[char]) -> (b: bool)
    ensures
        b == wild_key(v@),
{
    v.len() > 0 && v[0] == '{' && v[v.len() - 1] == '}'
}

impl<F> Node<F> {
    /// A node with the key and no handler or child.
    pub fn new(key: &str) -> (r: Self)
        ensures
            r.key@ == key@,
            r.handler is None,
            r.nodes@.len() == 0,
            r.is_wild_card == wild_key(key@),
    {
        let k = chars_of(key);
        Node {
            nodes: Vec::new(),
            key: key.to_owned(),
            handler: None,
            is_wild_card: is_wild(k.as_slice()),
        }
    }

    /// A leaf for the key `k` with the handler `h`.
    fn leaf(k: &[char], handler: F) -> (r: Self)
        ensures
            is_leaf(r, k@, handler),
    {
        Node {
            nodes: Vec::new(),
            key: string_of(k),
            handler: Some(handler),
            is_wild_card: is_wild(k),
        }
    }

    /// The first child whose key is `k` or stands for any piece.
    fn find_child(&self, k: &[char]) -> (r: Option<usize>)
        ensures
            match r {
                Some(j) => first_match(self.nodes@, k@) == Some(j as int),
                None => first_match(self.nodes@, k@) is None,
            },
    {
        proof {
            lemma_first_match_from(self.nodes@, k@, 0);
        }
        let mut i: usize = 0;
        while i < self.nodes.len()
            invariant
                i <= self.nodes.len(),
                forall|l: int|
                    0 <= l < i ==> (#[trigger] self.nodes@[l]).key@ != k@
                        && !self.nodes@[l].is_wild_card,
                match first_match(self.nodes@, k@) {
                    Some(j) => 0 <= j < self.nodes@.len() && (self.nodes@[j].key@ == k@
                        || self.nodes@[j].is_wild_card) && forall|l: int|
                        0 <= l < j ==> (#[trigger] self.nodes@[l]).key@ != k@
                            && !self.nodes@[l].is_wild_card,
                    None => forall|l: int|
                        0 <= l < self.nodes@.len() ==> (#[trigger] self.nodes@[l]).key@ != k@
                            && !self.nodes@[l].is_wild_card,
                },
            decreases self.nodes.len() - i,
        {
            let key = chars_of(self.nodes[i].key.as_str());
            if chars_eq(key.as_slice(), k) || self.nodes[i].is_wild_card {
                return Some(i);
            }
            i += 1;
        }
        None
    }

    /// Inserts a handler at a path.
    pub fn insert(&mut self, path: &str, handler: F)
        ensures
            inserted(*old(self), *final(self), path@, handler),
    {
        let p = chars_of(path);
        self.insert_chars(p.as_slice(), handler)
    }

    fn insert_chars(&mut self, p: &[char], handler: F)
        ensures
            inserted(*old(self), *final(self), p@, handler),
        decreases p.len(),
    {
        assert(p@.subrange(0, p.len() as int) =~= p@);
        proof {
            lemma_find_char_from_bounds(p@, '/', 0);
        }
        match find_char_in(p, '/', 0, p.len()) {
            Some(i) => {
                let root = copy_range(p, 0, i);
                let rest = copy_range(p, i + 1, p.len());
                if rest.len() == 0 {
                    self.handler = Some(handler);
                    self.key = string_of(root.as_slice());
                } else if root.len() == 0 {
                    self.insert_chars(rest.as_slice(), handler);
                } else {
                    match self.find_child(root.as_slice()) {
                        None => {
                            let ghost before = self.nodes@;
                            self.nodes.push(Self::leaf(rest.as_slice(), handler));
                            assert(self.nodes@.subrange(0, before.len() as int) =~= before);
                        },
                        Some(j) => {
                            proof {
                                lemma_first_match_from(self.nodes@, root@, 0);
                            }
                            let ghost before = self.nodes@;
                            let mut child = self.nodes.remove(j);
                            assert(child == before[j as int]);
                            child.insert_chars(rest.as_slice(), handler);
                            self.nodes.insert(j, child);
                            assert forall|k: int|
                                0 <= k < before.len() && k != j implies self.nodes@[k]
                                == before[k] by {}
                        },
                    }
                }
            },
            None => {
                let ghost before = self.nodes@;
                self.nodes.push(Self::leaf(p, handler));
                assert(self.nodes@.subrange(0, before.len() as int) =~= before);
            },
        }
    }

    /// The handler a path leads to.
    pub fn get(&self, path: &str) -> (r: Option<&F>)
        ensures
            match r {
                Some(h) => route_of(*self, path@) == Some(*h),
                None => route_of(*self, path@) is None,
            },
    {
        let p = chars_of(path);
        self.get_chars(p.as_slice())
    }

    fn get_chars(&self, p: &[char]) -> (r: Option<&F>)
        ensures
            match r {
                Some(h) => route_of(*self, p@) == Some(*h),
                None => route_of(*self, p@) is None,
            },
        decreases p.len(),
    {
        assert(p@.subrange(0, p.len() as int) =~= p@);
        proof {
            lemma_find_char_from_bounds(p@, '/', 0);
        }
        match find_char_in(p, '/', 0, p.len()) {
            Some(i) => {
                let root = copy_range(p, 0, i);
                let rest = copy_range(p, i + 1, p.len());
                if rest.len() == 0 {
                    let key = chars_of(self.key.as_str());
                    if chars_eq(key.as_slice(), root.as_slice()) || self.is_wild_card {
                        match &self.handler {
                            Some(h) => Some(h),
                            None => None,
                        }
                    } else {
                        None
                    }
                } else if root.len() == 0 {
                    self.get_chars(rest.as_slice())
                } else {
                    match self.find_child(root.as_slice()) {
                        None => None,
                        Some(j) => {
                            proof {
                                lemma_first_match_from(self.nodes@, root@, 0);
                            }
                            self.nodes[j].get_chars(rest.as_slice())
                        },
                    }
                }
            },
            None => match self.find_child(p) {
                None => None,
                Some(j) => {
                    proof {
                        lemma_first_match_from(self.nodes@, p@, 0);
                    }
                    match &self.nodes[j].handler {
                        Some(h) => Some(h),
                        None => None,
                    }
                },
            },
        }
    }
}


/// A route of one piece, inserted where no child matches that piece, is found again:
/// after inserting `h` at `/k`, the path `/k` leads to `h`.
pub proof fn lemma_insert_then_route<F>(o: Node<F>, n: Node<F>, k: Seq<char>, h: F)
    requires
        k.len() > 0,
        !k.contains('/'),
        first_match(o.nodes@, k) is None,
        inserted(o, n, seq!['/'] + k, h),
    ensures
        route_of(n, seq!['/'] + k) == Some(h),
{
    reveal_with_fuel(inserted, 2);
    reveal_with_fuel(route_of, 2);
    let p = seq!['/'] + k;
    assert(p[0] == '/');
    assert(find_char_from(p, '/', 0) == Some(0int));
    assert(p.subrange(0, 0) =~= Seq::<char>::empty());
    assert(p.subrange(1, p.len() as int) =~= k);
    lemma_find_char_from_bounds(k, '/', 0);
    assert(find_char_from(k, '/', 0) is None) by {
        if find_char_from(k, '/', 0) is Some {
            let j = find_char_from(k, '/', 0)->0;
            assert(k[j] == '/');
        }
    }
    assert(with_leaf(o, n, k, h));
    lemma_first_match_from(o.nodes@, k, 0);
    let m = o.nodes@.len() as int;
    assert forall|l: int| 0 <= l < m implies (#[trigger] n.nodes@[l]).key@ != k
        && !n.nodes@[l].is_wild_card by {
        assert(n.nodes@[l] == n.nodes@.subrange(0, m)[l]);
    }
    assert(n.nodes@[m] == n.nodes@.last());
    lemma_first_match_from(n.nodes@, k, 0);
}

} // verus!
