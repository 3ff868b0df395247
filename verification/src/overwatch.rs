use crate::json::chars_eq;
use crate::text::chars_of;
use vstd::prelude::*;

verus! {

/// The first position from `i` on of the key `k` among keyed callbacks.
pub open spec fn callback_position_from<C>(m: Seq<(Seq<char>, C)>, k: Seq<char>, i: int) -> Option<
    int,
>
    decreases m.len() - i,
{
    if i < 0 || i >= m.len() {
        None
    } else if m[i].0 == k {
        Some(i)
    } else {
        callback_position_from(m, k, i + 1)
    }
}

/// The position of the key `k` among keyed callbacks.
pub open spec fn callback_position<C>(m: Seq<(Seq<char>, C)>, k: Seq<char>) -> Option<int> {
    callback_position_from(m, k, 0)
}

pub proof fn lemma_callback_position_from<C>(m: Seq<(Seq<char>, C)>, k: Seq<char>, i: int)
    requires
        0 <= i,
    ensures
        match callback_position_from(m, k, i) {
            Some(j) => i <= j < m.len() && m[j].0 == k && forall|l: int|
                i <= l < j ==> (#[trigger] m[l]).0 != k,
            None => forall|l: int| i <= l < m.len() ==> (#[trigger] m[l]).0 != k,
        },
    decreases m.len() - i,
{
    if i < m.len() && m[i].0 != k {
        lemma_callback_position_from(m, k, i + 1);
    }
}

/// The callbacks with `f` bound to `k`: in place of the callback bound before, or added.
pub open spec fn bind<C>(m: Seq<(Seq<char>, C)>, k: Seq<char>, f: C) -> Seq<(Seq<char>, C)> {
    match callback_position(m, k) {
        Some(j) => m.update(j, (k, f)),
        None => m.push((k, f)),
    }
}

/// The callbacks without the one bound to `k`.
pub open spec fn unbind<C>(m: Seq<(Seq<char>, C)>, k: Seq<char>) -> Seq<(Seq<char>, C)> {
    match callback_position(m, k) {
        Some(j) => m.remove(j),
        None => m,
    }
}

/// The keys of keyed callbacks.
pub open spec fn callback_keys<C>(m: Seq<(Seq<char>, C)>) -> Seq<Seq<char>> {
    m.map_values(|e: (Seq<char>, C)| e.0)
}

/// Each key is bound at most once.
pub open spec fn bound_once<C>(m: Seq<(Seq<char>, C)>) -> bool {
    forall|a: int, b: int| 0 <= a < b < m.len() ==> (#[trigger] m[a]).0 != (#[trigger] m[b]).0
}

/// Callbacks bound to keys: one run when a key's value is updated, one when it is deleted.
pub struct Overwatch<C> {
    update_map: Vec<(String, C)>,
    delete_map: Vec<(String, C)>,
}

/// The keys and callbacks of a list.
pub open spec fn keyed<C>(v: Seq<(String, C)>) -> Seq<(Seq<char>, C)> {
    v.map_values(|e: (String, C)| (e.0@, e.1))
}

/// The position of the key `k` in a list of keyed callbacks.
fn position_of<C>(m: &Vec<(String, C)>, key: &String) -> (r: Option<usize>)
    ensures
        match r {
            Some(i) => callback_position(keyed(m@), key@) == Some(i as int),
            None => callback_position(keyed(m@), key@) is None,
        },
{
    let ghost km = keyed(m@);
    proof {
        lemma_callback_position_from(km, key@, 0);
    }
    let k = chars_of(key.as_str());
    let mut i: usize = 0;
    while i < m.len()
        invariant
            i <= m.len(),
            km == keyed(m@),
            k@ == key@,
            forall|l: int| 0 <= l < i ==> (#[trigger] km[l]).0 != key@,
            match callback_position(km, key@) {
                Some(j) => 0 <= j < km.len() && km[j].0 == key@ && forall|l: int|
                    0 <= l < j ==> (#[trigger] km[l]).0 != key@,
                None => forall|l: int| 0 <= l < km.len() ==> (#[trigger] km[l]).0 != key@,
            },
        decreases m.len() - i,
    {
        let name = chars_of(m[i].0.as_str());
        assert(km[i as int].0 == m@[i as int].0@);
        if chars_eq(name.as_slice(), k.as_slice()) {
            return Some(i);
        }
        i += 1;
    }
    None
}

/// Binds `f` to `key` in a list of keyed callbacks.
fn bind_in<C>(m: &mut Vec<(String, C)>, key: &String, f: C)
    ensures
        keyed(final(m)@) == bind(keyed(old(m)@), key@, f),
{
    match position_of(m, key) {
        Some(j) => {
            proof {
                lemma_callback_position_from(keyed(m@), key@, 0);
            }
            let ghost before = m@;
            let _ = m.remove(j);
            m.insert(j, (key.clone(), f));
            assert(keyed(m@) =~= keyed(before).update(j as int, (key@, f)));
        },
        None => {
            let ghost before = m@;
            m.push((key.clone(), f));
            assert(keyed(m@) =~= keyed(before).push((key@, f)));
        },
    }
}

/// Removes the callback bound to `key` from a list of keyed callbacks.
fn unbind_in<C>(m: &mut Vec<(String, C)>, key: &String)
    ensures
        keyed(final(m)@) == unbind(keyed(old(m)@), key@),
{
    match position_of(m, key) {
        Some(j) => {
            proof {
                lemma_callback_position_from(keyed(m@), key@, 0);
            }
            let ghost before = m@;
            let _ = m.remove(j);
            assert(keyed(m@) =~= keyed(before).remove(j as int));
        },
        None => {},
    }
}

impl<C> Overwatch<C> {
    /// Each key has one update callback and one delete callback at most.
    #[verifier::type_invariant]
    spec fn keys_once(self) -> bool {
        bound_once(keyed(self.update_map@)) && bound_once(keyed(self.delete_map@))
    }

    /// The callbacks run on updates, by key.
    pub closed spec fn updates(&self) -> Seq<(Seq<char>, C)> {
        keyed(self.update_map@)
    }

    /// The callbacks run on deletions, by key.
    pub closed spec fn deletes(&self) -> Seq<(Seq<char>, C)> {
        keyed(self.delete_map@)
    }

    /// No callback.
    pub fn new() -> (r: Self)
        ensures
            r.updates().len() == 0,
            r.deletes().len() == 0,
            bound_once(r.updates()),
            bound_once(r.deletes()),
    {
        Self { update_map: Vec::new(), delete_map: Vec::new() }
    }

    /// Binds a callback to run when the key is updated (it takes the new value), in place of
    /// the one bound before.
    pub fn insert_update(&mut self, key: &String, f: C)
        ensures
            final(self).updates() == bind(old(self).updates(), key@, f),
            final(self).deletes() == old(self).deletes(),
            bound_once(final(self).updates()),
            bound_once(final(self).deletes()),
    {
        proof {
            use_type_invariant(&*self);
            lemma_bind_once(keyed(self.update_map@), key@, f);
        }
        let mut m: Vec<(String, C)> = Vec::new();
        std::mem::swap(&mut m, &mut self.update_map);
        bind_in(&mut m, key, f);
        self.update_map = m;
    }

    /// Binds a callback to run when the key is deleted (it takes the last value), in place
    /// of the one bound before.
    pub fn insert_delete(&mut self, key: &String, f: C)
        ensures
            final(self).deletes() == bind(old(self).deletes(), key@, f),
            final(self).updates() == old(self).updates(),
            bound_once(final(self).deletes()),
            bound_once(final(self).updates()),
    {
        proof {
            use_type_invariant(&*self);
            lemma_bind_once(keyed(self.delete_map@), key@, f);
        }
        let mut m: Vec<(String, C)> = Vec::new();
        std::mem::swap(&mut m, &mut self.delete_map);
        bind_in(&mut m, key, f);
        self.delete_map = m;
    }

    /// Removes the update callback of the key, if any.
    pub fn remove_update(&mut self, key: &String)
        ensures
            final(self).updates() == unbind(old(self).updates(), key@),
            final(self).deletes() == old(self).deletes(),
            callback_position(final(self).updates(), key@) is None,
            bound_once(final(self).updates()),
            bound_once(final(self).deletes()),
    {
        proof {
            use_type_invariant(&*self);
            lemma_unbind_once(keyed(self.update_map@), key@);
            lemma_unbind_then_none(keyed(self.update_map@), key@);
        }
        let mut m: Vec<(String, C)> = Vec::new();
        std::mem::swap(&mut m, &mut self.update_map);
        unbind_in(&mut m, key);
        self.update_map = m;
    }

    /// Removes the delete callback of the key, if any.
    pub fn remove_delete(&mut self, key: &String)
        ensures
            final(self).deletes() == unbind(old(self).deletes(), key@),
            final(self).updates() == old(self).updates(),
            callback_position(final(self).deletes(), key@) is None,
            bound_once(final(self).deletes()),
            bound_once(final(self).updates()),
    {
        proof {
            use_type_invariant(&*self);
            lemma_unbind_once(keyed(self.delete_map@), key@);
            lemma_unbind_then_none(keyed(self.delete_map@), key@);
        }
        let mut m: Vec<(String, C)> = Vec::new();
        std::mem::swap(&mut m, &mut self.delete_map);
        unbind_in(&mut m, key);
        self.delete_map = m;
    }

    /// Runs the update callback of the key, if any, with the new value (what the callback
    /// ensures of that call then holds); the keys stay.
    pub fn get_update<T>(&mut self, key: &String, new_value: T)
        where C: FnMut(T),
        requires
            callback_position(old(self).updates(), key@) matches Some(i) ==> call_requires(
                old(self).updates()[i].1,
                (new_value,),
            ),
        ensures
            callback_keys(final(self).updates()) == callback_keys(old(self).updates()),
            final(self).deletes() == old(self).deletes(),
            bound_once(final(self).updates()),
            bound_once(final(self).deletes()),
            callback_position(old(self).updates(), key@) matches Some(i) ==> call_ensures(
                old(self).updates()[i].1,
                (new_value,),
                (),
            ),
    {
        proof {
            use_type_invariant(&*self);
        }
        match position_of(&self.update_map, key) {
            Some(i) => {
                proof {
                    lemma_callback_position_from(keyed(self.update_map@), key@, 0);
                }
                let ghost before = self.update_map@;
                let mut m: Vec<(String, C)> = Vec::new();
                std::mem::swap(&mut m, &mut self.update_map);
                let (k, mut f) = m.remove(i);
                assert((k, f) == before[i as int]);
                f(new_value);
                m.insert(i, (k, f));
                assert(callback_keys(keyed(m@)) =~= callback_keys(keyed(before)));
                assert forall|x: int, y: int| 0 <= x < y < keyed(m@).len() implies (#[trigger] keyed(
                    m@,
                )[x]).0 != (#[trigger] keyed(m@)[y]).0 by {
                    assert(callback_keys(keyed(m@))[x] == callback_keys(keyed(before))[x]);
                    assert(callback_keys(keyed(m@))[y] == callback_keys(keyed(before))[y]);
                }
                self.update_map = m;
            },
            None => {},
        }
    }

    /// Runs the delete callback of the key, if any, with the last value (what the callback
    /// ensures of that call then holds); the keys stay.
    pub fn get_delete<T>(&mut self, key: &String, last_value: T)
        where C: FnMut(T),
        requires
            callback_position(old(self).deletes(), key@) matches Some(i) ==> call_requires(
                old(self).deletes()[i].1,
                (last_value,),
            ),
        ensures
            callback_keys(final(self).deletes()) == callback_keys(old(self).deletes()),
            final(self).updates() == old(self).updates(),
            bound_once(final(self).deletes()),
            bound_once(final(self).updates()),
            callback_position(old(self).deletes(), key@) matches Some(i) ==> call_ensures(
                old(self).deletes()[i].1,
                (last_value,),
                (),
            ),
    {
        proof {
            use_type_invariant(&*self);
        }
        match position_of(&self.delete_map, key) {
            Some(i) => {
                proof {
                    lemma_callback_position_from(keyed(self.delete_map@), key@, 0);
                }
                let ghost before = self.delete_map@;
                let mut m: Vec<(String, C)> = Vec::new();
                std::mem::swap(&mut m, &mut self.delete_map);
                let (k, mut f) = m.remove(i);
                assert((k, f) == before[i as int]);
                f(last_value);
                m.insert(i, (k, f));
                assert(callback_keys(keyed(m@)) =~= callback_keys(keyed(before)));
                assert forall|x: int, y: int| 0 <= x < y < keyed(m@).len() implies (#[trigger] keyed(
                    m@,
                )[x]).0 != (#[trigger] keyed(m@)[y]).0 by {
                    assert(callback_keys(keyed(m@))[x] == callback_keys(keyed(before))[x]);
                    assert(callback_keys(keyed(m@))[y] == callback_keys(keyed(before))[y]);
                }
                self.delete_map = m;
            },
            None => {},
        }
    }
}


/// A callback bound to a key is the one found for the key.
pub proof fn lemma_bind_then_find<C>(m: Seq<(Seq<char>, C)>, k: Seq<char>, f: C)
    ensures
        callback_position(bind(m, k, f), k) matches Some(j) && bind(m, k, f)[j].1 == f,
{
    lemma_callback_position_from(m, k, 0);
    let b = bind(m, k, f);
    lemma_callback_position_from(b, k, 0);
    match callback_position(m, k) {
        Some(j) => {
            assert(b[j] == (k, f));
            assert forall|l: int| 0 <= l < j implies (#[trigger] b[l]).0 != k by {
                assert(b[l] == m[l]);
            }
            lemma_position_is(b, k, 0, j);
        },
        None => {
            let j = m.len() as int;
            assert(b[j] == (k, f));
            assert forall|l: int| 0 <= l < j implies (#[trigger] b[l]).0 != k by {
                assert(b[l] == m[l]);
            }
            lemma_position_is(b, k, 0, j);
        },
    }
}

proof fn lemma_position_is<C>(m: Seq<(Seq<char>, C)>, k: Seq<char>, i: int, j: int)
    requires
        0 <= i <= j < m.len(),
        m[j].0 == k,
        forall|l: int| 0 <= l < j ==> (#[trigger] m[l]).0 != k,
    ensures
        callback_position_from(m, k, i) == Some(j),
    decreases j - i,
{
    if i < j {
        lemma_position_is(m, k, i + 1, j);
    }
}

/// Binding a callback keeps each key bound once at most.
pub proof fn lemma_bind_once<C>(m: Seq<(Seq<char>, C)>, k: Seq<char>, f: C)
    requires
        bound_once(m),
    ensures
        bound_once(bind(m, k, f)),
{
    lemma_callback_position_from(m, k, 0);
    let b = bind(m, k, f);
    assert forall|x: int, y: int| 0 <= x < y < b.len() implies (#[trigger] b[x]).0 != (
    #[trigger] b[y]).0 by {
        match callback_position(m, k) {
            Some(j) => {
                if x != j && y != j {
                    assert(b[x] == m[x] && b[y] == m[y]);
                } else if x == j {
                    assert(b[y] == m[y]);
                    assert(m[x].0 != m[y].0);
                } else {
                    assert(b[x] == m[x]);
                    assert(m[x].0 != m[y].0);
                }
            },
            None => {
                if y < m.len() {
                    assert(b[x] == m[x] && b[y] == m[y]);
                } else {
                    assert(b[x] == m[x]);
                }
            },
        }
    }
}

/// Removing a callback keeps each key bound once at most.
pub proof fn lemma_unbind_once<C>(m: Seq<(Seq<char>, C)>, k: Seq<char>)
    requires
        bound_once(m),
    ensures
        bound_once(unbind(m, k)),
{
    let u = unbind(m, k);
    match callback_position(m, k) {
        Some(j) => {
            lemma_callback_position_from(m, k, 0);
            assert forall|x: int, y: int| 0 <= x < y < u.len() implies (#[trigger] u[x]).0 != (
            #[trigger] u[y]).0 by {
                let xx = if x < j { x } else { x + 1 };
                let yy = if y < j { y } else { y + 1 };
                assert(u[x] == m[xx] && u[y] == m[yy]);
                assert(m[xx].0 != m[yy].0);
            }
        },
        None => {},
    }
}

/// A key whose callback was removed, and that was bound once at most, has none.
pub proof fn lemma_unbind_then_none<C>(m: Seq<(Seq<char>, C)>, k: Seq<char>)
    requires
        forall|a: int, b: int| 0 <= a < b < m.len() ==> (#[trigger] m[a]).0 != k || (
        #[trigger] m[b]).0 != k,
    ensures
        callback_position(unbind(m, k), k) is None,
{
    lemma_callback_position_from(m, k, 0);
    let u = unbind(m, k);
    lemma_callback_position_from(u, k, 0);
    match callback_position(m, k) {
        Some(j) => {
            assert forall|l: int| 0 <= l < u.len() implies (#[trigger] u[l]).0 != k by {
                if l < j {
                    assert(u[l] == m[l]);
                } else {
                    assert(u[l] == m[l + 1]);
                }
            }
        },
        None => {},
    }
}

} // verus!
