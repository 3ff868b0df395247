use crate::json::JsonError;
use crate::key_value_store::KeyValueError;
use crate::skip_list::SkipListError;
use crate::validation_json::{JsonValidationError, ValidationJson};
use vstd::prelude::*;
use vstd::string::StringExecFns;

verus! {

broadcast use vstd::string::group_string_axioms;

/// What can go wrong in a collection.
#[derive(Debug)]
pub enum CollectionError {
    InvalidData(JsonValidationError),
    KeyValueError(KeyValueError),
    IndexError(SkipListError),
    InvalidJson(JsonError),
    InternalError,
}

/// A named collection of documents, with a template its documents must meet, or none.
pub struct Collection {
    pub name: String,
    pub structure: Option<ValidationJson>,
}

/// The key under which an index keeps where documents with a field's value are.
pub open spec fn index_key(collection: Seq<char>, field: Seq<char>, value: Seq<char>) -> Seq<char> {
    collection + seq!['_'] + field + seq!['_'] + value
}

/// The locations in `prev` and then those of `added` not seen before, each once.
pub open spec fn merged(prev: Seq<usize>, added: Seq<usize>) -> Set<usize> {
    prev.to_set().union(added.to_set())
}

impl Collection {
    /// A collection with a name and, optionally, a template.
    pub fn new(structure: Option<ValidationJson>, name: String) -> (r: Self)
        ensures
            r.name@ == name@,
            r.structure == structure,
    {
        Self { name, structure }
    }

    /// A collection with a template.
    pub fn new_structured(structure: ValidationJson, name: String) -> (r: Self)
        ensures
            r.name@ == name@,
            r.structure == Some(structure),
    {
        Self { name, structure: Some(structure) }
    }

    /// A collection without a template.
    pub fn new_unstructured(name: String) -> (r: Self)
        ensures
            r.name@ == name@,
            r.structure is None,
    {
        Self { name, structure: None }
    }

    /// The index key of a field's value in this collection.
    pub fn index_key(&self, field: &String, value: &String) -> (r: String)
        ensures
            r@ == index_key(self.name@, field@, value@),
    {
        let mut r = self.name.clone();
        r.append("_");
        r.append(field.as_str());
        r.append("_");
        r.append(value.as_str());
        proof {
            reveal_strlit("_");
        }
        assert(r@ =~= index_key(self.name@, field@, value@));
        r
    }
}

/// Whether `x` is in `v`.
fn holds_location(v: &Vec<usize>, x: usize) -> (b: bool)
    ensures
        b == v@.contains(x),
{
    let mut i: usize = 0;
    while i < v.len()
        invariant
            i <= v.len(),
            forall|k: int| 0 <= k < i ==> v@[k] != x,
        decreases v.len() - i,
    {
        if v[i] == x {
            return true;
        }
        i += 1;
    }
    false
}

/// The locations of an index entry with new ones added: every location of either, each
/// once.
pub fn merge_locations(prev: Vec<usize>, added: Vec<usize>) -> (r: Vec<usize>)
    ensures
        r@.to_set() == merged(prev@, added@),
        r@.no_duplicates(),
{
    let mut r: Vec<usize> = Vec::new();
    let mut i: usize = 0;
    while i < prev.len()
        invariant
            i <= prev.len(),
            r@.to_set() == prev@.take(i as int).to_set(),
            r@.no_duplicates(),
        decreases prev.len() - i,
    {
        let x = prev[i];
        assert(prev@.take(i + 1) =~= prev@.take(i as int).push(x));
        if !holds_location(&r, x) {
            let ghost before = r@;
            r.push(x);
            proof {
                before.lemma_push_to_set_commute(x);
                prev@.take(i as int).lemma_push_to_set_commute(x);
            }
        } else {
            proof {
                prev@.take(i as int).lemma_push_to_set_commute(x);
                assert(prev@.take(i as int).to_set().contains(x));
                assert(prev@.take(i + 1).to_set() =~= prev@.take(i as int).to_set());
            }
        }
        i += 1;
    }
    assert(prev@.take(prev.len() as int) =~= prev@);
    let mut j: usize = 0;
    while j < added.len()
        invariant
            j <= added.len(),
            r@.to_set() == prev@.to_set().union(added@.take(j as int).to_set()),
            r@.no_duplicates(),
        decreases added.len() - j,
    {
        let x = added[j];
        assert(added@.take(j + 1) =~= added@.take(j as int).push(x));
        proof {
            added@.take(j as int).lemma_push_to_set_commute(x);
        }
        if !holds_location(&r, x) {
            let ghost before = r@;
            r.push(x);
            proof {
                before.lemma_push_to_set_commute(x);
            }
            assert(r@.to_set() =~= prev@.to_set().union(added@.take(j + 1).to_set()));
        } else {
            assert(r@.to_set().contains(x));
            assert(r@.to_set() =~= prev@.to_set().union(added@.take(j + 1).to_set()));
        }
        j += 1;
    }
    assert(added@.take(added.len() as int) =~= added@);
    r
}

/// The locations of an index entry without the removed ones, in order.
pub fn remaining_locations(prev: Vec<usize>, removed: &Vec<usize>) -> (r: Vec<usize>)
    ensures
        r@ == prev@.filter(|x: usize| !removed@.contains(x)),
{
    let mut r: Vec<usize> = Vec::new();
    let mut i: usize = 0;
    while i < prev.len()
        invariant
            i <= prev.len(),
            r@ == prev@.take(i as int).filter(|x: usize| !removed@.contains(x)),
        decreases prev.len() - i,
    {
        let x = prev[i];
        proof {
            prev@.take(i as int).lemma_filter_push(x, |x: usize| !removed@.contains(x));
        }
        assert(prev@.take(i + 1) =~= prev@.take(i as int).push(x));
        if !holds_location(removed, x) {
            r.push(x);
        }
        i += 1;
    }
    assert(prev@.take(prev.len() as int) =~= prev@);
    r
}

} // verus!
