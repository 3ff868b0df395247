use crate::encryption::{encrypt, encrypted_text};
use crate::json::{
    array_text, bool_of, byte_texts, bytes_of, chars_eq, chars_eq_str, insert_entry, keys_sorted,
    lemma_insert_entry, lemma_lookup_at, lemma_lookup_insert_entry, lemma_plain_object_roundtrip,
    plain_entries, plain_key, plain_value, lemma_scalar_entries_render, lookup, object_data, parse_array,
    parse_object, quoted, render_entries, without_quotes, JsonData, JsonError, JsonObject, JsonType,
    Outcome,
};
use crate::text::{chars_of, find_char_in, find_seq, find_seq_in, lemma_find_char_from_bounds};
use vstd::utf8::encode_utf8;
use vstd::prelude::*;

verus! {

/// The text whose encryption under a user's password is kept as the password's hash.
pub const PASS_HASH_VALUE: &'static str = "validator";

/// What can go wrong in the user system.
#[derive(Debug, Clone, Copy, PartialEq, Eq, Structural)]
pub enum UserSystemError {
    PermissionError,
    ImproperJsonStructure,
    UserAlreadyExists,
    UserDoesNotExist,
    UserAlreadyLoggedIn,
    IncorrectPassword,
    UserNotLoggedIn,
}

/// What a user may do with the documents of a collection.
#[derive(Debug, Clone, Copy, PartialEq, Eq, Structural, Hash)]
pub enum CollectionPermission {
    Read,
    Insert,
    Update,
    Delete,
}

/// What a user may do with the database as a whole.
#[derive(Debug, Clone, Copy, PartialEq, Eq, Structural, Hash)]
pub enum DataBasePermission {
    Create,
    Drop,
    Listen,
}

/// The predefined kinds of user.
#[derive(Debug, Clone, Copy, PartialEq, Eq, Structural)]
pub enum UserType {
    Admin,
    User,
    Guest,
}

/// The name a collection permission is written with.
pub open spec fn collection_permission_name(p: CollectionPermission) -> Seq<char> {
    match p {
        CollectionPermission::Read => "read"@,
        CollectionPermission::Insert => "insert"@,
        CollectionPermission::Update => "update"@,
        CollectionPermission::Delete => "delete"@,
    }
}

/// The collection permission a name stands for.
pub open spec fn collection_permission_named(s: Seq<char>) -> Option<CollectionPermission> {
    if s == "read"@ {
        Some(CollectionPermission::Read)
    } else if s == "insert"@ {
        Some(CollectionPermission::Insert)
    } else if s == "update"@ {
        Some(CollectionPermission::Update)
    } else if s == "delete"@ {
        Some(CollectionPermission::Delete)
    } else {
        None
    }
}

/// The name a database permission is written with.
pub open spec fn db_permission_name(p: DataBasePermission) -> Seq<char> {
    match p {
        DataBasePermission::Create => "create"@,
        DataBasePermission::Drop => "drop"@,
        DataBasePermission::Listen => "listen"@,
    }
}

/// The database permission a name stands for.
pub open spec fn db_permission_named(s: Seq<char>) -> Option<DataBasePermission> {
    if s == "create"@ {
        Some(DataBasePermission::Create)
    } else if s == "drop"@ {
        Some(DataBasePermission::Drop)
    } else if s == "listen"@ {
        Some(DataBasePermission::Listen)
    } else {
        None
    }
}

impl CollectionPermission {
    /// The name the permission is written with.
    pub fn name(&self) -> (s: String)
        ensures
            s@ == collection_permission_name(*self),
    {
        match self {
            CollectionPermission::Read => "read".to_owned(),
            CollectionPermission::Insert => "insert".to_owned(),
            CollectionPermission::Update => "update".to_owned(),
            CollectionPermission::Delete => "delete".to_owned(),
        }
    }

    /// The permission a name stands for; a permission error for any other name.
    pub fn from_name(value: &str) -> (r: Result<CollectionPermission, UserSystemError>)
        ensures
            match collection_permission_named(value@) {
                Some(p) => r == Ok::<CollectionPermission, UserSystemError>(p),
                None => r == Err::<CollectionPermission, UserSystemError>(
                    UserSystemError::PermissionError,
                ),
            },
    {
        let v = chars_of(value);
        let v = v.as_slice();
        if chars_eq_str(v, "read") {
            Ok(CollectionPermission::Read)
        } else if chars_eq_str(v, "insert") {
            Ok(CollectionPermission::Insert)
        } else if chars_eq_str(v, "update") {
            Ok(CollectionPermission::Update)
        } else if chars_eq_str(v, "delete") {
            Ok(CollectionPermission::Delete)
        } else {
            Err(UserSystemError::PermissionError)
        }
    }
}

impl DataBasePermission {
    /// The name the permission is written with.
    pub fn name(&self) -> (s: String)
        ensures
            s@ == db_permission_name(*self),
    {
        match self {
            DataBasePermission::Create => "create".to_owned(),
            DataBasePermission::Drop => "drop".to_owned(),
            DataBasePermission::Listen => "listen".to_owned(),
        }
    }

    /// The permission a name stands for; a permission error for any other name.
    pub fn from_name(value: &str) -> (r: Result<DataBasePermission, UserSystemError>)
        ensures
            match db_permission_named(value@) {
                Some(p) => r == Ok::<DataBasePermission, UserSystemError>(p),
                None => r == Err::<DataBasePermission, UserSystemError>(
                    UserSystemError::PermissionError,
                ),
            },
    {
        let v = chars_of(value);
        let v = v.as_slice();
        if chars_eq_str(v, "create") {
            Ok(DataBasePermission::Create)
        } else if chars_eq_str(v, "drop") {
            Ok(DataBasePermission::Drop)
        } else if chars_eq_str(v, "listen") {
            Ok(DataBasePermission::Listen)
        } else {
            Err(DataBasePermission::permission_error())
        }
    }

    fn permission_error() -> (e: UserSystemError)
        ensures
            e == UserSystemError::PermissionError,
    {
        UserSystemError::PermissionError
    }
}

impl UserSystemError {
    /// The error a malformed JSON document turns into.
    pub fn from_json_error(value: JsonError) -> (e: UserSystemError)
        ensures
            e == UserSystemError::ImproperJsonStructure,
    {
        UserSystemError::ImproperJsonStructure
    }
}

/// A user's permissions as values: for the database, for every collection, and for named
/// collections; `None` stands for all permissions.
pub struct PermissionsModel {
    pub db: Option<Seq<DataBasePermission>>,
    pub specific: Seq<(Seq<char>, Option<Seq<CollectionPermission>>)>,
    pub all: Option<Seq<CollectionPermission>>,
}

/// `l` with `x` added at the end unless it is there already.
pub open spec fn with_item<T>(l: Seq<T>, x: T) -> Seq<T> {
    if l.contains(x) {
        l
    } else {
        l.push(x)
    }
}

/// The first position from `i` on of the collection named `n`.
pub open spec fn name_position_from(
    s: Seq<(Seq<char>, Option<Seq<CollectionPermission>>)>,
    n: Seq<char>,
    i: int,
) -> Option<int>
    decreases s.len() - i,
{
    if i < 0 || i >= s.len() {
        None
    } else if s[i].0 == n {
        Some(i)
    } else {
        name_position_from(s, n, i + 1)
    }
}

/// The position of the collection named `n`.
pub open spec fn name_position(
    s: Seq<(Seq<char>, Option<Seq<CollectionPermission>>)>,
    n: Seq<char>,
) -> Option<int> {
    name_position_from(s, n, 0)
}

pub proof fn lemma_name_position_from(
    s: Seq<(Seq<char>, Option<Seq<CollectionPermission>>)>,
    n: Seq<char>,
    i: int,
)
    requires
        0 <= i,
    ensures
        match name_position_from(s, n, i) {
            Some(j) => i <= j < s.len() && s[j].0 == n && forall|k: int|
                i <= k < j ==> (#[trigger] s[k]).0 != n,
            None => forall|k: int| i <= k < s.len() ==> (#[trigger] s[k]).0 != n,
        },
    decreases s.len() - i,
{
    if i < s.len() && s[i].0 != n {
        lemma_name_position_from(s, n, i + 1);
    }
}

/// The permissions with a database permission added (nothing changes when all are given).
pub open spec fn add_db(m: PermissionsModel, p: DataBasePermission) -> PermissionsModel {
    PermissionsModel {
        db: match m.db {
            Some(l) => Some(with_item(l, p)),
            None => None,
        },
        specific: m.specific,
        all: m.all,
    }
}

/// The permissions with a collection permission added, for the named collection or, for
/// `None`, for every collection; a collection not named before is added with just it.
pub open spec fn add_collection(
    m: PermissionsModel,
    name: Option<Seq<char>>,
    p: CollectionPermission,
) -> PermissionsModel {
    match name {
        None => PermissionsModel {
            db: m.db,
            specific: m.specific,
            all: match m.all {
                Some(l) => Some(with_item(l, p)),
                None => None,
            },
        },
        Some(n) => PermissionsModel {
            db: m.db,
            specific: match name_position(m.specific, n) {
                Some(j) => match m.specific[j].1 {
                    Some(l) => m.specific.update(j, (n, Some(with_item(l, p)))),
                    None => m.specific,
                },
                None => m.specific.push((n, Some(seq![p]))),
            },
            all: m.all,
        },
    }
}

/// The permissions with every permission given for the named collection.
pub open spec fn set_collection_all(m: PermissionsModel, n: Seq<char>) -> PermissionsModel {
    PermissionsModel {
        db: m.db,
        specific: match name_position(m.specific, n) {
            Some(j) => m.specific.update(j, (n, None)),
            None => m.specific.push((n, None)),
        },
        all: m.all,
    }
}

/// No permission is listed twice and no collection is named twice.
pub open spec fn permissions_wf(m: PermissionsModel) -> bool {
    &&& (m.db matches Some(l) ==> l.no_duplicates())
    &&& (m.all matches Some(l) ==> l.no_duplicates())
    &&& forall|i: int, j: int|
        0 <= i < j < m.specific.len() ==> (#[trigger] m.specific[i]).0 != (#[trigger] m.specific[j]).0
    &&& forall|i: int|
        0 <= i < m.specific.len() ==> ((#[trigger] m.specific[i]).1 matches Some(l)
            ==> l.no_duplicates())
}

/// The values of an optional list.
pub open spec fn opt_seq<T>(o: Option<Vec<T>>) -> Option<Seq<T>> {
    match o {
        Some(v) => Some(v@),
        None => None,
    }
}

/// A user's permissions.
#[derive(Debug, PartialEq, Clone)]
pub struct UserPermissions {
    pub database_permissions: Option<Vec<DataBasePermission>>,
    pub specific_collections: Vec<(String, Option<Vec<CollectionPermission>>)>,
    pub all_collections: Option<Vec<CollectionPermission>>,
}

impl View for UserPermissions {
    type V = PermissionsModel;

    open spec fn view(&self) -> PermissionsModel {
        PermissionsModel {
            db: opt_seq(self.database_permissions),
            specific: self.specific_collections@.map_values(
                |e: (String, Option<Vec<CollectionPermission>>)| (e.0@, opt_seq(e.1)),
            ),
            all: opt_seq(self.all_collections),
        }
    }
}

/// Whether `p` is in `l`.
fn has_db_permission(l: &Vec<DataBasePermission>, p: DataBasePermission) -> (b: bool)
    ensures
        b == l@.contains(p),
{
    let mut i: usize = 0;
    while i < l.len()
        invariant
            i <= l.len(),
            forall|k: int| 0 <= k < i ==> l@[k] != p,
        decreases l.len() - i,
    {
        if l[i] == p {
            return true;
        }
        i += 1;
    }
    false
}

/// Whether `p` is in `l`.
fn has_collection_permission(l: &Vec<CollectionPermission>, p: CollectionPermission) -> (b: bool)
    ensures
        b == l@.contains(p),
{
    let mut i: usize = 0;
    while i < l.len()
        invariant
            i <= l.len(),
            forall|k: int| 0 <= k < i ==> l@[k] != p,
        decreases l.len() - i,
    {
        if l[i] == p {
            return true;
        }
        i += 1;
    }
    false
}

/// Adds `p` to `l` unless it is there.
fn add_collection_item(l: &mut Vec<CollectionPermission>, p: CollectionPermission)
    ensures
        final(l)@ == with_item(old(l)@, p),
{
    if !has_collection_permission(l, p) {
        l.push(p);
    }
}

/// A copy of a list of collection permissions.
fn copy_collection_list(l: &Vec<CollectionPermission>) -> (r: Vec<CollectionPermission>)
    ensures
        r@ == l@,
{
    let mut r: Vec<CollectionPermission> = Vec::new();
    let mut i: usize = 0;
    while i < l.len()
        invariant
            i <= l.len(),
            r@ == l@.take(i as int),
        decreases l.len() - i,
    {
        r.push(l[i]);
        assert(l@.take(i + 1) == l@.take(i as int).push(l@[i as int]));
        i += 1;
    }
    assert(l@.take(l.len() as int) == l@);
    r
}

/// A copy of a list of database permissions.
fn copy_db_list(l: &Vec<DataBasePermission>) -> (r: Vec<DataBasePermission>)
    ensures
        r@ == l@,
{
    let mut r: Vec<DataBasePermission> = Vec::new();
    let mut i: usize = 0;
    while i < l.len()
        invariant
            i <= l.len(),
            r@ == l@.take(i as int),
        decreases l.len() - i,
    {
        r.push(l[i]);
        assert(l@.take(i + 1) == l@.take(i as int).push(l@[i as int]));
        i += 1;
    }
    assert(l@.take(l.len() as int) == l@);
    r
}

/// A copy of an optional list of collection permissions.
fn copy_collection_option(o: &Option<Vec<CollectionPermission>>) -> (r: Option<
    Vec<CollectionPermission>,
>)
    ensures
        opt_seq(r) == opt_seq(*o),
{
    match o {
        Some(l) => Some(copy_collection_list(l)),
        None => None,
    }
}

impl UserPermissions {
    /// The well-formedness of the permissions.
    pub open spec fn wf(&self) -> bool {
        permissions_wf(self@)
    }

    /// No permission at all.
    pub fn new() -> (r: Self)
        ensures
            r.wf(),
            r@ == (PermissionsModel { db: Some(Seq::empty()), specific: Seq::empty(), all: Some(Seq::empty()) }),
    {
        let r = Self {
            database_permissions: Some(Vec::new()),
            specific_collections: Vec::new(),
            all_collections: Some(Vec::new()),
        };
        assert(r@.specific =~= Seq::<(Seq<char>, Option<Seq<CollectionPermission>>)>::empty());
        r
    }

    /// The same permissions.
    pub fn copy(&self) -> (r: Self)
        ensures
            r@ == self@,
    {
        let db = match &self.database_permissions {
            Some(l) => Some(copy_db_list(l)),
            None => None,
        };
        let all = copy_collection_option(&self.all_collections);
        let mut specific: Vec<(String, Option<Vec<CollectionPermission>>)> = Vec::new();
        let mut i: usize = 0;
        while i < self.specific_collections.len()
            invariant
                i <= self.specific_collections.len(),
                specific@.map_values(
                    |e: (String, Option<Vec<CollectionPermission>>)| (e.0@, opt_seq(e.1)),
                ) == self@.specific.take(i as int),
            decreases self.specific_collections.len() - i,
        {
            let e = &self.specific_collections[i];
            let ghost before = specific@;
            let name = e.0.clone();
            let perms = copy_collection_option(&e.1);
            assert(name@ == e.0@);
            specific.push((name, perms));
            assert(self@.specific[i as int] == (e.0@, opt_seq(e.1)));
            assert(self@.specific.take(i + 1) =~= self@.specific.take(i as int).push(
                self@.specific[i as int],
            ));
            assert(specific@.map_values(
                |e: (String, Option<Vec<CollectionPermission>>)| (e.0@, opt_seq(e.1)),
            ) =~= self@.specific.take(i + 1));
            i += 1;
        }
        assert(self@.specific.take(self.specific_collections.len() as int) =~= self@.specific);
        Self { database_permissions: db, specific_collections: specific, all_collections: all }
    }
}


/// Adding an item that is not there keeps a list free of duplicates.
pub proof fn lemma_with_item_no_duplicates<T>(l: Seq<T>, x: T)
    requires
        l.no_duplicates(),
    ensures
        with_item(l, x).no_duplicates(),
        with_item(l, x).contains(x),
{
    if !l.contains(x) {
        let r = l.push(x);
        assert forall|i: int, j: int| 0 <= i < r.len() && 0 <= j < r.len() && i != j implies r[i]
            != r[j] by {
            if i == l.len() as int {
                assert(l[j] == r[j]);
            } else if j == l.len() as int {
                assert(l[i] == r[i]);
            }
        }
        assert(r[l.len() as int] == x);
    }
}

impl UserPermissions {
    /// Adds a database permission (nothing changes when all are given).
    pub fn add_db_permission(&mut self, permission: DataBasePermission) -> (r: &mut Self)
        requires
            old(self).wf(),
        ensures
            r@ == add_db(old(self)@, permission),
            r.wf(),
            *final(self) == *final(r),
    {
        if self.database_permissions.is_some() {
            let mut l = self.database_permissions.take().unwrap();
            proof {
                lemma_with_item_no_duplicates(l@, permission);
            }
            if !has_db_permission(&l, permission) {
                l.push(permission);
            }
            self.database_permissions = Some(l);
        }
        self
    }
}

/// The name of an optional collection name.
pub open spec fn opt_name(n: Option<String>) -> Option<Seq<char>> {
    match n {
        Some(s) => Some(s@),
        None => None,
    }
}

impl UserPermissions {
    /// Where the collection named `name` stands among the named collections.
    fn find_collection(&self, name: &String) -> (r: Option<usize>)
        ensures
            match r {
                Some(i) => name_position(self@.specific, name@) == Some(i as int),
                None => name_position(self@.specific, name@) is None,
            },
    {
        let key = chars_of(name.as_str());
        let mut i: usize = 0;
        proof {
            lemma_name_position_from(self@.specific, name@, 0);
        }
        while i < self.specific_collections.len()
            invariant
                i <= self.specific_collections.len(),
                key@ == name@,
                forall|k: int| 0 <= k < i ==> (#[trigger] self@.specific[k]).0 != name@,
            decreases self.specific_collections.len() - i,
        {
            let other = chars_of(self.specific_collections[i].0.as_str());
            if chars_eq(other.as_slice(), key.as_slice()) {
                proof {
                    lemma_name_position_from(self@.specific, name@, 0);
                    assert(self@.specific[i as int].0 == name@);
                }
                return Some(i);
            }
            assert(self@.specific[i as int].0 != name@);
            i += 1;
        }
        None
    }

    /// Adds a collection permission, for the named collection or, for `None`, for every
    /// collection; a collection not named before gets just this permission.
    pub fn add_collection_permission(
        &mut self,
        collection_name: Option<String>,
        permission: CollectionPermission,
    ) -> (r: Result<&mut Self, UserSystemError>)
        requires
            old(self).wf(),
        ensures
            match r {
                Ok(s) => s@ == add_collection(old(self)@, opt_name(collection_name), permission)
                    && s.wf() && *final(self) == *final(s),
                Err(_) => false,
            },
    {
        let ghost target = add_collection(old(self)@, opt_name(collection_name), permission);
        match collection_name {
            Some(name) => {
                match self.find_collection(&name) {
                    Some(j) => {
                        proof {
                            lemma_name_position_from(old(self)@.specific, name@, 0);
                            assert(old(self)@.specific[j as int].0 == name@);
                        }
                        let ghost before = self.specific_collections@;
                        let (n, perms) = self.specific_collections.remove(j);
                        assert((n, perms) == before[j as int]);
                        assert(old(self)@.specific[j as int] == (n@, opt_seq(perms)));
                        let ghost old_perms = perms;
                        let perms = match perms {
                            Some(mut l) => {
                                proof {
                                    lemma_with_item_no_duplicates(l@, permission);
                                }
                                add_collection_item(&mut l, permission);
                                Some(l)
                            },
                            None => None,
                        };
                        assert(n@ == name@);
                        self.specific_collections.insert(j, (n, perms));
                        assert(self.specific_collections@ =~= before.update(j as int, (n, perms)));
                        assert forall|k: int| 0 <= k < before.len() implies #[trigger] self@.specific[k]
                            == old(self)@.specific.update(j as int, (name@, opt_seq(perms)))[k] by {
                            if k != j {
                                assert(self.specific_collections@[k] == before[k]);
                            }
                        }
                        assert(self@.specific =~= old(self)@.specific.update(
                            j as int,
                            (name@, opt_seq(perms)),
                        ));
                        proof {
                            if old_perms is None {
                                assert(old(self)@.specific.update(j as int, (name@, None))
                                    =~= old(self)@.specific);
                            }
                        }
                        assert(self@.specific =~= target.specific);
                    },
                    None => {
                        let mut l: Vec<CollectionPermission> = Vec::new();
                        l.push(permission);
                        let ghost nm = name@;
                        self.specific_collections.push((name, Some(l)));
                        assert(l@ =~= seq![permission]);
                        assert(self@.specific =~= old(self)@.specific.push((nm, Some(seq![permission]))));
                        proof {
                            lemma_name_position_from(old(self)@.specific, nm, 0);
                        }
                    },
                }
            },
            None => {
                if self.all_collections.is_some() {
                    let mut l = self.all_collections.take().unwrap();
                    proof {
                        lemma_with_item_no_duplicates(l@, permission);
                    }
                    add_collection_item(&mut l, permission);
                    self.all_collections = Some(l);
                }
            },
        }
        Ok(self)
    }
}

impl UserPermissions {
    /// Gives every database permission.
    pub fn set_db_permissions_to_all(&mut self) -> (r: &mut Self)
        requires
            old(self).wf(),
        ensures
            r@ == (PermissionsModel { db: None, specific: old(self)@.specific, all: old(self)@.all }),
            r.wf(),
            *final(self) == *final(r),
    {
        self.database_permissions = None;
        self
    }

    /// Gives every permission on every collection not named on its own.
    pub fn set_collections_permissions_to_all(&mut self) -> (r: &mut Self)
        requires
            old(self).wf(),
        ensures
            r@ == (PermissionsModel { db: old(self)@.db, specific: old(self)@.specific, all: None }),
            r.wf(),
            *final(self) == *final(r),
    {
        self.all_collections = None;
        self
    }

    /// Gives every permission on the named collection.
    pub fn set_collection_permissions_to_all(&mut self, collection_name: String) -> (r: &mut Self)
        requires
            old(self).wf(),
        ensures
            r@ == set_collection_all(old(self)@, collection_name@),
            r.wf(),
            *final(self) == *final(r),
    {
        let ghost target = set_collection_all(old(self)@, collection_name@);
        proof {
            lemma_name_position_from(old(self)@.specific, collection_name@, 0);
        }
        match self.find_collection(&collection_name) {
            Some(j) => {
                let ghost before = self.specific_collections@;
                let (n, perms) = self.specific_collections.remove(j);
                assert((n, perms) == before[j as int]);
                assert(old(self)@.specific[j as int].0 == collection_name@);
                assert(n@ == collection_name@);
                self.specific_collections.insert(j, (n, None));
                assert(self.specific_collections@ =~= before.update(j as int, (n, None)));
                assert forall|k: int| 0 <= k < before.len() implies #[trigger] self@.specific[k]
                    == target.specific[k] by {
                    if k != j {
                        assert(self.specific_collections@[k] == before[k]);
                    }
                }
                assert(self@.specific =~= target.specific);
            },
            None => {
                let ghost nm = collection_name@;
                self.specific_collections.push((collection_name, None));
                assert(self@.specific =~= old(self)@.specific.push((nm, None)));
            },
        }
        self
    }
}

/// The permissions a predefined kind of user has.
pub open spec fn user_type_permissions(t: UserType) -> PermissionsModel {
    match t {
        UserType::Admin => PermissionsModel { db: None, specific: Seq::empty(), all: None },
        UserType::User => PermissionsModel {
            db: Some(seq![DataBasePermission::Listen]),
            specific: Seq::empty(),
            all: None,
        },
        UserType::Guest => PermissionsModel {
            db: Some(seq![DataBasePermission::Listen]),
            specific: Seq::empty(),
            all: Some(seq![CollectionPermission::Read]),
        },
    }
}

impl UserType {
    /// The permissions of the kind of user: all of them for an administrator; listening
    /// and everything on collections for a user; listening and reading for a guest.
    pub fn get_permissions(&self) -> (r: UserPermissions)
        ensures
            r@ == user_type_permissions(*self),
            r.wf(),
    {
        let mut user_permissions = UserPermissions::new();
        match self {
            UserType::Admin => {
                user_permissions.set_db_permissions_to_all();
                user_permissions.set_collections_permissions_to_all();
            },
            UserType::User => {
                user_permissions.add_db_permission(
                    DataBasePermission::Listen,
                ).set_collections_permissions_to_all();
                assert(seq![DataBasePermission::Listen] =~= Seq::<DataBasePermission>::empty().push(
                    DataBasePermission::Listen,
                ));
            },
            UserType::Guest => {
                match user_permissions.add_collection_permission(None, CollectionPermission::Read) {
                    Ok(p) => {
                        p.add_db_permission(DataBasePermission::Listen);
                    },
                    Err(_) => {},
                }
                assert(seq![DataBasePermission::Listen] =~= Seq::<DataBasePermission>::empty().push(
                    DataBasePermission::Listen,
                ));
                assert(seq![CollectionPermission::Read] =~= Seq::<CollectionPermission>::empty().push(
                    CollectionPermission::Read,
                ));
            },
        }
        user_permissions
    }
}

/// The hash kept for a password: the password's encryption of [`PASS_HASH_VALUE`].
pub open spec fn password_hash(password: Seq<char>) -> Seq<u8> {
    encrypted_text(password, "validator"@)
}

/// Whether permissions allow `p` on the named collection: what is given for that collection
/// when it is named on its own, else what is given for every collection.
pub open spec fn may_on_collection(m: PermissionsModel, n: Seq<char>, p: CollectionPermission) -> bool {
    match name_position(m.specific, n) {
        Some(j) => match m.specific[j].1 {
            Some(l) => l.contains(p),
            None => true,
        },
        None => match m.all {
            Some(l) => l.contains(p),
            None => true,
        },
    }
}

/// Whether permissions allow `p` on the database.
pub open spec fn may_on_db(m: PermissionsModel, p: DataBasePermission) -> bool {
    match m.db {
        Some(l) => l.contains(p),
        None => true,
    }
}

/// A user: a name, the hash of a password and permissions.
#[derive(Debug, PartialEq, Clone)]
pub struct User {
    pub username: String,
    pub password: Vec<u8>,
    pub user_permissions: UserPermissions,
}

impl User {
    /// The hash kept for a password.
    fn generate_password_hash(password: String) -> (h: Vec<u8>)
        ensures
            h@ == password_hash(password@),
    {
        let text = "validator".to_owned();
        proof {
            reveal_strlit("validator");
        }
        encrypt(&password, text)
    }

    /// A user with the given name, the hash of the password, and the permissions.
    pub fn new(username: String, password: String, user_permissions: UserPermissions) -> (r: User)
        ensures
            r.username@ == username@,
            r.password@ == password_hash(password@),
            r.user_permissions@ == user_permissions@,
    {
        User { username, password: Self::generate_password_hash(password), user_permissions }
    }

    /// A user with the permissions of a predefined kind.
    pub fn new_from_user_type(user_type: UserType, username: String, password: String) -> (r: User)
        ensures
            r.username@ == username@,
            r.password@ == password_hash(password@),
            r.user_permissions@ == user_type_permissions(user_type),
            r.user_permissions.wf(),
    {
        User::new(username, password, user_type.get_permissions())
    }

    /// The same user.
    pub fn copy(&self) -> (r: User)
        ensures
            r.username@ == self.username@,
            r.password@ == self.password@,
            r.user_permissions@ == self.user_permissions@,
    {
        let mut password: Vec<u8> = Vec::new();
        let mut i: usize = 0;
        while i < self.password.len()
            invariant
                i <= self.password.len(),
                password@ == self.password@.take(i as int),
            decreases self.password.len() - i,
        {
            password.push(self.password[i]);
            assert(self.password@.take(i + 1) == self.password@.take(i as int).push(
                self.password@[i as int],
            ));
            i += 1;
        }
        assert(self.password@.take(self.password.len() as int) == self.password@);
        User {
            username: self.username.clone(),
            password,
            user_permissions: self.user_permissions.copy(),
        }
    }

    /// Whether the permissions are limited lists for the database and for every collection
    /// and no collection is named on its own.
    pub fn is_admin(&self) -> (b: bool)
        ensures
            b == (self.user_permissions@.db is Some && self.user_permissions@.all is Some
                && self.user_permissions@.specific.len() == 0),
    {
        self.user_permissions.database_permissions.is_some()
            && self.user_permissions.all_collections.is_some()
            && self.user_permissions.specific_collections.len() == 0
    }

    fn can_do_for_collection(&self, collection_name: &String, prem: CollectionPermission) -> (b:
        bool)
        ensures
            b == may_on_collection(self.user_permissions@, collection_name@, prem),
    {
        proof {
            lemma_name_position_from(self.user_permissions@.specific, collection_name@, 0);
        }
        match self.user_permissions.find_collection(collection_name) {
            Some(j) => {
                assert(self.user_permissions@.specific[j as int].1 == opt_seq(
                    self.user_permissions.specific_collections@[j as int].1,
                ));
                match &self.user_permissions.specific_collections[j].1 {
                    Some(l) => has_collection_permission(l, prem),
                    None => true,
                }
            },
            None => match &self.user_permissions.all_collections {
                Some(l) => has_collection_permission(l, prem),
                None => true,
            },
        }
    }

    fn can_do_for_db(&self, prem: DataBasePermission) -> (b: bool)
        ensures
            b == may_on_db(self.user_permissions@, prem),
    {
        match &self.user_permissions.database_permissions {
            Some(l) => has_db_permission(l, prem),
            None => true,
        }
    }

    /// Whether the user may insert into the collection.
    pub fn can_insert(&self, collection_name: &String) -> (b: bool)
        ensures
            b == may_on_collection(
                self.user_permissions@,
                collection_name@,
                CollectionPermission::Insert,
            ),
    {
        self.can_do_for_collection(collection_name, CollectionPermission::Insert)
    }

    /// Whether the user may update the collection.
    pub fn can_update(&self, collection_name: &String) -> (b: bool)
        ensures
            b == may_on_collection(
                self.user_permissions@,
                collection_name@,
                CollectionPermission::Update,
            ),
    {
        self.can_do_for_collection(collection_name, CollectionPermission::Update)
    }

    /// Whether the user may delete from the collection.
    pub fn can_delete(&self, collection_name: &String) -> (b: bool)
        ensures
            b == may_on_collection(
                self.user_permissions@,
                collection_name@,
                CollectionPermission::Delete,
            ),
    {
        self.can_do_for_collection(collection_name, CollectionPermission::Delete)
    }

    /// Whether the user may read the collection.
    pub fn can_read(&self, collection_name: &String) -> (b: bool)
        ensures
            b == may_on_collection(
                self.user_permissions@,
                collection_name@,
                CollectionPermission::Read,
            ),
    {
        self.can_do_for_collection(collection_name, CollectionPermission::Read)
    }

    /// Whether the user may listen to the database.
    pub fn can_listen(&self) -> (b: bool)
        ensures
            b == may_on_db(self.user_permissions@, DataBasePermission::Listen),
    {
        self.can_do_for_db(DataBasePermission::Listen)
    }

    /// Whether the user may create collections.
    pub fn can_create(&self) -> (b: bool)
        ensures
            b == may_on_db(self.user_permissions@, DataBasePermission::Create),
    {
        self.can_do_for_db(DataBasePermission::Create)
    }

    /// Whether the user may drop collections.
    pub fn can_drop(&self) -> (b: bool)
        ensures
            b == may_on_db(self.user_permissions@, DataBasePermission::Drop),
    {
        self.can_do_for_db(DataBasePermission::Drop)
    }
}

/// What the predefined kinds of user may do, on any collection: an administrator
/// everything; a user everything on collections and only listening on the database; a guest
/// only reading collections and listening.
pub proof fn lemma_user_type_rights(n: Seq<char>, p: CollectionPermission, q: DataBasePermission)
    ensures
        may_on_collection(user_type_permissions(UserType::Admin), n, p),
        may_on_db(user_type_permissions(UserType::Admin), q),
        may_on_collection(user_type_permissions(UserType::User), n, p),
        may_on_db(user_type_permissions(UserType::User), q) == (q == DataBasePermission::Listen),
        may_on_collection(user_type_permissions(UserType::Guest), n, p) == (p
            == CollectionPermission::Read),
        may_on_db(user_type_permissions(UserType::Guest), q) == (q == DataBasePermission::Listen),
{
    let e: Seq<(Seq<char>, Option<Seq<CollectionPermission>>)> = Seq::empty();
    assert(name_position(e, n) is None);
    assert(seq![DataBasePermission::Listen].contains(q) ==> q == DataBasePermission::Listen);
    assert(q == DataBasePermission::Listen ==> seq![DataBasePermission::Listen][0] == q);
    assert(seq![CollectionPermission::Read].contains(p) ==> p == CollectionPermission::Read);
    assert(p == CollectionPermission::Read ==> seq![CollectionPermission::Read][0] == p);
}

/// Who is logged in.
pub struct UserSystem {
    logged_in_user: Option<User>,
}

impl UserSystem {
    /// Whether someone is logged in, and the name of who is.
    pub closed spec fn logged_in_name(&self) -> Option<Seq<char>> {
        match self.logged_in_user {
            Some(u) => Some(u.username@),
            None => None,
        }
    }

    /// No one logged in.
    pub fn new() -> (r: Self)
        ensures
            r.logged_in_name() is None,
    {
        Self { logged_in_user: None }
    }

    /// Logs the user out; an error when no one is logged in.
    pub fn logout(&mut self) -> (r: Result<(), UserSystemError>)
        ensures
            old(self).logged_in_name() is None ==> r == Err::<(), UserSystemError>(
                UserSystemError::UserNotLoggedIn,
            ),
            old(self).logged_in_name() is Some ==> r is Ok,
            final(self).logged_in_name() is None,
    {
        if self.logged_in_user.is_none() {
            return Err(UserSystemError::UserNotLoggedIn);
        }
        self.logged_in_user = None;
        Ok(())
    }

    /// The user logged in, if any.
    pub fn get_logged_in_user(&self) -> (r: Option<User>)
        ensures
            match r {
                Some(u) => self.logged_in_name() == Some(u.username@),
                None => self.logged_in_name() is None,
            },
    {
        match &self.logged_in_user {
            Some(u) => Some(u.copy()),
            None => None,
        }
    }

    /// Logs in a user whose stored record has been read; an error when someone is logged in
    /// already, when there is no record, or when the password's hash is not the one kept.
    pub fn login(&mut self, password: String, stored: Option<User>) -> (r: Result<
        (),
        UserSystemError,
    >)
        ensures
            old(self).logged_in_name() is Some ==> r == Err::<(), UserSystemError>(
                UserSystemError::UserAlreadyLoggedIn,
            ) && final(self).logged_in_name() == old(self).logged_in_name(),
            old(self).logged_in_name() is None ==> match stored {
                None => r == Err::<(), UserSystemError>(UserSystemError::UserDoesNotExist)
                    && final(self).logged_in_name() is None,
                Some(u) => if u.password@ == password_hash(password@) {
                    r is Ok && final(self).logged_in_name() == Some(u.username@)
                } else {
                    r == Err::<(), UserSystemError>(UserSystemError::IncorrectPassword)
                        && final(self).logged_in_name() is None
                },
            },
    {
        if self.logged_in_user.is_some() {
            return Err(UserSystemError::UserAlreadyLoggedIn);
        }
        let user = match stored {
            Some(u) => u,
            None => {
                return Err(UserSystemError::UserDoesNotExist);
            },
        };
        let hash = User::generate_password_hash(password);
        if !bytes_equal(&user.password, &hash) {
            return Err(UserSystemError::IncorrectPassword);
        }
        self.logged_in_user = Some(user);
        Ok(())
    }
}

/// Whether two byte lists are equal.
fn bytes_equal(a: &Vec<u8>, b: &Vec<u8>) -> (r: bool)
    ensures
        r == (a@ == b@),
{
    if a.len() != b.len() {
        return false;
    }
    let mut i: usize = 0;
    while i < a.len()
        invariant
            i <= a.len(),
            a.len() == b.len(),
            forall|k: int| 0 <= k < i ==> a@[k] == b@[k],
        decreases a.len() - i,
    {
        if a[i] != b[i] {
            return false;
        }
        i += 1;
    }
    assert(a@ =~= b@);
    true
}

/// Entries of a JSON document.
pub open spec fn no_entries() -> Seq<(Seq<char>, (Seq<char>, JsonType))> {
    Seq::empty()
}

/// The value `true`.
pub open spec fn true_data() -> (Seq<char>, JsonType) {
    ("true"@, JsonType::Boolean)
}

/// The names a list of database permissions is written with (`all` for all of them).
pub open spec fn db_flag_names(o: Option<Seq<DataBasePermission>>) -> Seq<Seq<char>> {
    match o {
        Some(l) => l.map_values(|p: DataBasePermission| db_permission_name(p)),
        None => seq!["all"@],
    }
}

/// The names a list of collection permissions is written with (`all` for all of them).
pub open spec fn collection_flag_names(o: Option<Seq<CollectionPermission>>) -> Seq<Seq<char>> {
    match o {
        Some(l) => l.map_values(|p: CollectionPermission| collection_permission_name(p)),
        None => seq!["all"@],
    }
}

/// An object that maps each name to `true`.
pub open spec fn flag_entries(names: Seq<Seq<char>>) -> Seq<(Seq<char>, (Seq<char>, JsonType))>
    decreases names.len(),
{
    if names.len() == 0 {
        no_entries()
    } else {
        insert_entry(flag_entries(names.drop_last()), names.last(), true_data())
    }
}

/// The object of the collections named on their own: each name maps to the object of its
/// permissions.
pub open spec fn specific_entries(s: Seq<(Seq<char>, Option<Seq<CollectionPermission>>)>) -> Seq<
    (Seq<char>, (Seq<char>, JsonType)),
>
    decreases s.len(),
{
    if s.len() == 0 {
        no_entries()
    } else {
        insert_entry(
            specific_entries(s.drop_last()),
            s.last().0,
            object_data(flag_entries(collection_flag_names(s.last().1))),
        )
    }
}

/// The JSON document of permissions.
pub open spec fn permissions_entries(m: PermissionsModel) -> Seq<(Seq<char>, (Seq<char>, JsonType))> {
    insert_entry(
        insert_entry(
            insert_entry(
                no_entries(),
                "db permissions"@,
                object_data(flag_entries(db_flag_names(m.db))),
            ),
            "all collection permissions"@,
            object_data(flag_entries(collection_flag_names(m.all))),
        ),
        "specific collection permissions"@,
        object_data(specific_entries(m.specific)),
    )
}

/// Whether the JSON document of the permissions can be written: the object of the
/// collections named on their own reads back.
pub open spec fn permissions_writable(m: PermissionsModel) -> bool {
    render_entries(specific_entries(m.specific), 0, true) is Some
}

/// The JSON document of a user.
pub open spec fn user_entries(name: Seq<char>, password: Seq<u8>, m: PermissionsModel) -> Seq<
    (Seq<char>, (Seq<char>, JsonType)),
> {
    insert_entry(
        insert_entry(
            insert_entry(no_entries(), "username"@, (quoted(name), JsonType::String)),
            "password"@,
            (array_text(byte_texts(password)), JsonType::Array),
        ),
        "permissions"@,
        object_data(permissions_entries(m)),
    )
}

/// An object of names mapped to `true` is ordered and holds booleans only.
pub proof fn lemma_flag_entries(names: Seq<Seq<char>>)
    ensures
        keys_sorted(flag_entries(names)),
        forall|j: int|
            0 <= j < flag_entries(names).len() ==> (#[trigger] flag_entries(names)[j]).1
                == true_data(),
        render_entries(flag_entries(names), 0, true) is Some,
    decreases names.len(),
{
    if names.len() > 0 {
        lemma_flag_entries(names.drop_last());
        lemma_insert_entry(flag_entries(names.drop_last()), names.last(), true_data());
        let e = flag_entries(names);
        assert forall|j: int| 0 <= j < e.len() implies (#[trigger] e[j]).1 == true_data() by {
            if e[j] != (names.last(), true_data()) {
                let m = choose|m: int|
                    0 <= m < flag_entries(names.drop_last()).len() && e[j] == #[trigger] flag_entries(
                        names.drop_last(),
                    )[m];
            }
        }
    }
    let e = flag_entries(names);
    assert forall|j: int| 0 <= j < e.len() implies (#[trigger] e[j]).1.1 != JsonType::Array
        && e[j].1.1 != JsonType::Object by {}
    lemma_scalar_entries_render(e, 0, true);
}

/// The object of the collections named on their own is ordered.
pub proof fn lemma_specific_entries_sorted(s: Seq<(Seq<char>, Option<Seq<CollectionPermission>>)>)
    ensures
        keys_sorted(specific_entries(s)),
    decreases s.len(),
{
    if s.len() > 0 {
        lemma_specific_entries_sorted(s.drop_last());
        lemma_insert_entry(
            specific_entries(s.drop_last()),
            s.last().0,
            object_data(flag_entries(collection_flag_names(s.last().1))),
        );
    }
}

/// The object of database permissions.
fn db_flags(o: &Option<Vec<DataBasePermission>>) -> (r: JsonObject)
    ensures
        r@ == flag_entries(db_flag_names(opt_seq(*o))),
        r.wf(),
{
    let mut obj = JsonObject::new();
    match o {
        Some(l) => {
            let mut i: usize = 0;
            while i < l.len()
                invariant
                    i <= l.len(),
                    obj.wf(),
                    obj@ == flag_entries(db_flag_names(Some(l@.take(i as int)))),
                decreases l.len() - i,
            {
                let ghost names = db_flag_names(Some(l@.take(i + 1)));
                assert(names.drop_last() =~= db_flag_names(Some(l@.take(i as int))));
                assert(names.last() == db_permission_name(l@[i as int]));
                obj.insert(l[i].name(), JsonData::from_boolean(true));
                i += 1;
            }
            assert(l@.take(l.len() as int) =~= l@);
            assert(opt_seq(*o) == Some(l@));
        },
        None => {
            proof {
                reveal_strlit("all");
                let names: Seq<Seq<char>> = seq!["all"@];
                assert(names.drop_last() =~= Seq::<Seq<char>>::empty());
            }
            let all = "all".to_owned();
            let t = JsonData::from_boolean(true);
            assert(t@ == true_data());
            assert(all@ == "all"@);
            obj.insert(all, t);
            proof {
                let names: Seq<Seq<char>> = seq!["all"@];
                let none: Seq<Seq<char>> = Seq::empty();
                assert(names.drop_last() =~= none);
                assert(names.last() == "all"@);
                assert(flag_entries(none) == no_entries());
                assert(obj@ == insert_entry(no_entries(), "all"@, true_data()));
                assert(obj@ == flag_entries(names));
            }
        },
    }
    obj
}

/// The object of collection permissions.
fn collection_flags(o: &Option<Vec<CollectionPermission>>) -> (r: JsonObject)
    ensures
        r@ == flag_entries(collection_flag_names(opt_seq(*o))),
        r.wf(),
{
    let mut obj = JsonObject::new();
    match o {
        Some(l) => {
            let mut i: usize = 0;
            while i < l.len()
                invariant
                    i <= l.len(),
                    obj.wf(),
                    obj@ == flag_entries(collection_flag_names(Some(l@.take(i as int)))),
                decreases l.len() - i,
            {
                let ghost names = collection_flag_names(Some(l@.take(i + 1)));
                assert(names.drop_last() =~= collection_flag_names(Some(l@.take(i as int))));
                assert(names.last() == collection_permission_name(l@[i as int]));
                obj.insert(l[i].name(), JsonData::from_boolean(true));
                i += 1;
            }
            assert(l@.take(l.len() as int) =~= l@);
            assert(opt_seq(*o) == Some(l@));
        },
        None => {
            proof {
                let names: Seq<Seq<char>> = seq!["all"@];
                assert(names.drop_last() =~= Seq::<Seq<char>>::empty());
            }
            let all = "all".to_owned();
            let t = JsonData::from_boolean(true);
            assert(t@ == true_data());
            assert(all@ == "all"@);
            obj.insert(all, t);
            proof {
                let names: Seq<Seq<char>> = seq!["all"@];
                let none: Seq<Seq<char>> = Seq::empty();
                assert(names.drop_last() =~= none);
                assert(names.last() == "all"@);
                assert(flag_entries(none) == no_entries());
                assert(obj@ == insert_entry(no_entries(), "all"@, true_data()));
                assert(obj@ == flag_entries(names));
            }
        },
    }
    obj
}

impl UserPermissions {
    /// The permissions as a JSON document: `db permissions`, `all collection permissions`
    /// and `specific collection permissions`, each an object of names mapped to `true`
    /// (`all` for all of them), the last one by collection name.
    pub fn to_json(&self) -> (r: JsonObject)
        requires
            permissions_writable(self@),
        ensures
            r@ == permissions_entries(self@),
            r.wf(),
    {
        let mut self_as_json = JsonObject::new();
        let db = db_flags(&self.database_permissions);
        let all = collection_flags(&self.all_collections);
        let mut specific = JsonObject::new();
        let mut i: usize = 0;
        while i < self.specific_collections.len()
            invariant
                i <= self.specific_collections.len(),
                specific.wf(),
                specific@ == specific_entries(self@.specific.take(i as int)),
            decreases self.specific_collections.len() - i,
        {
            let e = &self.specific_collections[i];
            let inner = collection_flags(&e.1);
            proof {
                lemma_flag_entries(collection_flag_names(opt_seq(e.1)));
                let s = self@.specific.take(i + 1);
                assert(s.drop_last() =~= self@.specific.take(i as int));
                assert(s.last() == (e.0@, opt_seq(e.1)));
            }
            let name = e.0.clone();
            specific.insert(name, JsonData::from_object(inner));
            i += 1;
        }
        assert(self@.specific.take(self.specific_collections.len() as int) =~= self@.specific);
        proof {
            lemma_flag_entries(db_flag_names(self@.db));
            lemma_flag_entries(collection_flag_names(self@.all));
        }
        self_as_json.insert("db permissions".to_owned(), JsonData::from_object(db));
        self_as_json.insert("all collection permissions".to_owned(), JsonData::from_object(all));
        self_as_json.insert(
            "specific collection permissions".to_owned(),
            JsonData::from_object(specific),
        );
        self_as_json
    }
}

impl User {
    /// The user as a JSON document: `username` as a string, `password` as an array of
    /// bytes, `permissions` as the permissions' document.
    pub fn to_json(&self) -> (r: JsonObject)
        requires
            permissions_writable(self.user_permissions@),
            render_entries(permissions_entries(self.user_permissions@), 0, true) is Some,
        ensures
            r@ == user_entries(self.username@, self.password@, self.user_permissions@),
            r.wf(),
    {
        let mut self_as_json = JsonObject::new();
        let mut password: Vec<u8> = Vec::new();
        let mut i: usize = 0;
        while i < self.password.len()
            invariant
                i <= self.password.len(),
                password@ == self.password@.take(i as int),
            decreases self.password.len() - i,
        {
            password.push(self.password[i]);
            assert(self.password@.take(i + 1) == self.password@.take(i as int).push(
                self.password@[i as int],
            ));
            i += 1;
        }
        assert(self.password@.take(self.password.len() as int) == self.password@);
        self_as_json.insert("username".to_owned(), JsonData::from_string(self.username.clone()));
        self_as_json.insert("password".to_owned(), JsonData::from_u8_vec(password));
        let permissions = self.user_permissions.to_json();
        self_as_json.insert("permissions".to_owned(), JsonData::from_object(permissions));
        self_as_json
    }
}

/// Entries, or an error, or `None` where reading panics.
pub type EntriesRead = Option<Result<Seq<(Seq<char>, (Seq<char>, JsonType))>, UserSystemError>>;

/// Permissions, or an error, or `None` where reading panics.
pub type PermissionsRead = Option<Result<PermissionsModel, UserSystemError>>;

/// What reading a value as an object gives.
pub open spec fn object_of(d: (Seq<char>, JsonType)) -> EntriesRead {
    if d.1 != JsonType::Object {
        Some(Err(UserSystemError::ImproperJsonStructure))
    } else {
        match parse_object(d.0) {
            Outcome::Done(e) => Some(Ok(e)),
            Outcome::Failed => Some(Err(UserSystemError::ImproperJsonStructure)),
            Outcome::Panics => None,
        }
    }
}

/// What reading the value under `key` as an object gives.
pub open spec fn object_member(e: Seq<(Seq<char>, (Seq<char>, JsonType))>, key: Seq<char>) -> EntriesRead {
    match lookup(e, key) {
        None => Some(Err(UserSystemError::ImproperJsonStructure)),
        Some(d) => object_of(d),
    }
}

/// The permissions with the database permissions named `true` in an object added, in key
/// order; a permission error at a name of no permission, a panic at a value that is not a
/// boolean.
pub open spec fn db_from_flags(m: PermissionsModel, e: Seq<(Seq<char>, (Seq<char>, JsonType))>) -> PermissionsRead
    decreases e.len(),
{
    if e.len() == 0 {
        Some(Ok(m))
    } else {
        match db_from_flags(m, e.drop_last()) {
            Some(Ok(m2)) => match bool_of(e.last().1) {
                Err(_) => None,
                Ok(b) => if !b {
                    Some(Ok(m2))
                } else {
                    match db_permission_named(e.last().0) {
                        Some(p) => Some(Ok(add_db(m2, p))),
                        None => Some(Err(UserSystemError::PermissionError)),
                    }
                },
            },
            other => other,
        }
    }
}

/// The permissions with the collection permissions named in an object added, in key order,
/// for the named collection or for every collection; other names are passed over.
pub open spec fn collection_from_flags(
    m: PermissionsModel,
    name: Option<Seq<char>>,
    e: Seq<(Seq<char>, (Seq<char>, JsonType))>,
) -> PermissionsModel
    decreases e.len(),
{
    if e.len() == 0 {
        m
    } else {
        let m2 = collection_from_flags(m, name, e.drop_last());
        match collection_permission_named(e.last().0) {
            Some(p) => add_collection(m2, name, p),
            None => m2,
        }
    }
}

/// The permissions with those of each collection named in an object added, in key order.
pub open spec fn specific_from(m: PermissionsModel, e: Seq<(Seq<char>, (Seq<char>, JsonType))>) -> PermissionsRead
    decreases e.len(),
{
    if e.len() == 0 {
        Some(Ok(m))
    } else {
        match specific_from(m, e.drop_last()) {
            Some(Ok(m2)) => match object_of(e.last().1) {
                None => None,
                Some(Err(x)) => Some(Err(x)),
                Some(Ok(inner)) => Some(
                    Ok(
                        if lookup(inner, "all"@) is Some {
                            set_collection_all(m2, e.last().0)
                        } else {
                            collection_from_flags(m2, Some(e.last().0), inner)
                        },
                    ),
                ),
            },
            other => other,
        }
    }
}

/// No permission at all.
pub open spec fn no_permissions() -> PermissionsModel {
    PermissionsModel { db: Some(Seq::empty()), specific: Seq::empty(), all: Some(Seq::empty()) }
}

/// What reading permissions from their JSON document gives.
pub open spec fn permissions_from_entries(e: Seq<(Seq<char>, (Seq<char>, JsonType))>) -> PermissionsRead {
    match object_member(e, "db permissions"@) {
        None => None,
        Some(Err(x)) => Some(Err(x)),
        Some(Ok(dbe)) => match object_member(e, "all collection permissions"@) {
            None => None,
            Some(Err(x)) => Some(Err(x)),
            Some(Ok(alle)) => match object_member(e, "specific collection permissions"@) {
                None => None,
                Some(Err(x)) => Some(Err(x)),
                Some(Ok(se)) => {
                    let m0 = no_permissions();
                    let r1 = if lookup(dbe, "all"@) is Some {
                        Some(Ok(PermissionsModel { db: None, specific: m0.specific, all: m0.all }))
                    } else {
                        db_from_flags(m0, dbe)
                    };
                    match r1 {
                        Some(Ok(m1)) => {
                            let m2 = if lookup(alle, "all"@) is Some {
                                PermissionsModel { db: m1.db, specific: m1.specific, all: None }
                            } else {
                                collection_from_flags(m1, None, alle)
                            };
                            specific_from(m2, se)
                        },
                        other => other,
                    }
                },
            },
        },
    }
}

proof fn lemma_db_from_prefix(m: PermissionsModel, e: Seq<(Seq<char>, (Seq<char>, JsonType))>, i: int)
    requires
        0 <= i <= e.len(),
        !(db_from_flags(m, e.take(i)) matches Some(Ok(_))),
    ensures
        db_from_flags(m, e) == db_from_flags(m, e.take(i)),
    decreases e.len() - i,
{
    if i < e.len() {
        assert(e.take(i + 1).drop_last() =~= e.take(i));
        lemma_db_from_prefix(m, e, i + 1);
    } else {
        assert(e.take(i) =~= e);
    }
}

proof fn lemma_specific_from_prefix(
    m: PermissionsModel,
    e: Seq<(Seq<char>, (Seq<char>, JsonType))>,
    i: int,
)
    requires
        0 <= i <= e.len(),
        !(specific_from(m, e.take(i)) matches Some(Ok(_))),
    ensures
        specific_from(m, e) == specific_from(m, e.take(i)),
    decreases e.len() - i,
{
    if i < e.len() {
        assert(e.take(i + 1).drop_last() =~= e.take(i));
        lemma_specific_from_prefix(m, e, i + 1);
    } else {
        assert(e.take(i) =~= e);
    }
}

/// Reads the value under `key` as an object.
fn object_member_of(json: &JsonObject, key: &str) -> (r: Result<JsonObject, UserSystemError>)
    requires
        json.wf(),
        object_member(json@, key@) is Some,
    ensures
        match object_member(json@, key@).unwrap() {
            Ok(e) => r matches Ok(o) && o@ == e && o.wf(),
            Err(x) => r == Err::<JsonObject, UserSystemError>(x),
        },
{
    let k = key.to_owned();
    match json.get(&k) {
        None => Err(UserSystemError::ImproperJsonStructure),
        Some(d) => match d.as_object() {
            Ok(o) => Ok(o),
            Err(_) => Err(UserSystemError::ImproperJsonStructure),
        },
    }
}

impl UserPermissions {
    /// Adds, for the named collection or for every collection, the permissions named in an
    /// object; other names are passed over.
    fn add_named_collection_permissions(
        &mut self,
        name: &Option<String>,
        flags: &JsonObject,
    )
        requires
            old(self).wf(),
        ensures
            final(self).wf(),
            final(self)@ == collection_from_flags(old(self)@, opt_name(*name), flags@),
    {
        let entries = flags.entries();
        let ghost e = flags@;
        let mut i: usize = 0;
        assert(e.take(0) =~= Seq::<(Seq<char>, (Seq<char>, JsonType))>::empty());
        while i < entries.len()
            invariant
                i <= entries.len(),
                entries@.map_values(|x: (String, JsonData)| (x.0@, x.1@)) == e,
                self.wf(),
                self@ == collection_from_flags(old(self)@, opt_name(*name), e.take(i as int)),
            decreases entries.len() - i,
        {
            assert(e.take(i + 1).drop_last() =~= e.take(i as int));
            assert(e.take(i + 1).last() == e[i as int]);
            assert(e[i as int].0 == entries@[i as int].0@);
            match CollectionPermission::from_name(entries[i].0.as_str()) {
                Ok(p) => {
                    let n = match name {
                        Some(s) => Some(s.clone()),
                        None => None,
                    };
                    assert(opt_name(n) == opt_name(*name));
                    let _ = self.add_collection_permission(n, p);
                },
                Err(_) => {},
            }
            i += 1;
        }
        assert(e.take(entries.len() as int) =~= e);
    }

    /// Reads permissions from their JSON document: a database object of names mapped to
    /// booleans (or `all`), an object of names for every collection (or `all`), and an
    /// object of such objects by collection name; an improper-structure error where a member
    /// is missing or not an object, a permission error at a database permission set `true`
    /// that names none.
    pub fn from_json(json: JsonObject) -> (r: Result<UserPermissions, UserSystemError>)
        requires
            json.wf(),
            permissions_from_entries(json@) is Some,
        ensures
            match permissions_from_entries(json@).unwrap() {
                Ok(m) => r matches Ok(p) && p@ == m && p.wf(),
                Err(x) => r == Err::<UserPermissions, UserSystemError>(x),
            },
    {
        let mut user_permissions = UserPermissions::new();
        let db_permissions = object_member_of(&json, "db permissions")?;
        let all_collection_permissions = object_member_of(&json, "all collection permissions")?;
        let specific_permissions = object_member_of(&json, "specific collection permissions")?;
        let ghost dbe = db_permissions@;
        let ghost alle = all_collection_permissions@;
        let ghost se = specific_permissions@;
        let ghost m0 = no_permissions();
        let ghost r1 = if lookup(dbe, "all"@) is Some {
            Some(Ok::<PermissionsModel, UserSystemError>(
                PermissionsModel { db: None, specific: m0.specific, all: m0.all },
            ))
        } else {
            db_from_flags(m0, dbe)
        };
        assert(permissions_from_entries(json@) == match r1 {
            Some(Ok(m1)) => {
                let m2 = if lookup(alle, "all"@) is Some {
                    PermissionsModel { db: m1.db, specific: m1.specific, all: None }
                } else {
                    collection_from_flags(m1, None, alle)
                };
                specific_from(m2, se)
            },
            other => other,
        });
        let all_key = "all".to_owned();
        assert(all_key@ == "all"@);
        if db_permissions.get(&all_key).is_some() {
            user_permissions.set_db_permissions_to_all();
        } else {
            let entries = db_permissions.entries();
            let mut i: usize = 0;
            assert(dbe.take(0) =~= Seq::<(Seq<char>, (Seq<char>, JsonType))>::empty());
            while i < entries.len()
                invariant
                    i <= entries.len(),
                    entries@.map_values(|x: (String, JsonData)| (x.0@, x.1@)) == dbe,
                    user_permissions.wf(),
                    db_from_flags(m0, dbe.take(i as int)) == Some(
                        Ok::<PermissionsModel, UserSystemError>(user_permissions@),
                    ),
                    db_from_flags(m0, dbe) is Some,
                    r1 == db_from_flags(m0, dbe),
                    permissions_from_entries(json@) == match r1 {
                        Some(Ok(m1)) => {
                            let m2 = if lookup(alle, "all"@) is Some {
                                PermissionsModel { db: m1.db, specific: m1.specific, all: None }
                            } else {
                                collection_from_flags(m1, None, alle)
                            };
                            specific_from(m2, se)
                        },
                        other => other,
                    },
                decreases entries.len() - i,
            {
                assert(dbe.take(i + 1).drop_last() =~= dbe.take(i as int));
                assert(dbe.take(i + 1).last() == dbe[i as int]);
                assert(dbe[i as int] == (entries@[i as int].0@, entries@[i as int].1@));
                let b = match entries[i].1.as_bool() {
                    Ok(b) => b,
                    Err(_) => {
                        proof {
                            lemma_db_from_prefix(m0, dbe, i + 1);
                        }
                        assert(false);
                        return Err(UserSystemError::ImproperJsonStructure);
                    },
                };
                if b {
                    match DataBasePermission::from_name(entries[i].0.as_str()) {
                        Ok(p) => {
                            user_permissions.add_db_permission(p);
                        },
                        Err(x) => {
                            proof {
                                lemma_db_from_prefix(m0, dbe, i + 1);
                            }
                            return Err(x);
                        },
                    }
                }
                i += 1;
            }
            assert(dbe.take(entries.len() as int) =~= dbe);
        }
        assert(r1 == Some(Ok::<PermissionsModel, UserSystemError>(user_permissions@)));
        let ghost m1 = user_permissions@;
        if all_collection_permissions.get(&all_key).is_some() {
            user_permissions.set_collections_permissions_to_all();
        } else {
            user_permissions.add_named_collection_permissions(&None, &all_collection_permissions);
        }
        let ghost m2 = user_permissions@;
        assert(m2 == if lookup(alle, "all"@) is Some {
            PermissionsModel { db: m1.db, specific: m1.specific, all: None }
        } else {
            collection_from_flags(m1, None, alle)
        });
        assert(permissions_from_entries(json@) == specific_from(m2, se));
        let entries = specific_permissions.entries();
        let mut i: usize = 0;
        assert(se.take(0) =~= Seq::<(Seq<char>, (Seq<char>, JsonType))>::empty());
        while i < entries.len()
            invariant
                i <= entries.len(),
                entries@.map_values(|x: (String, JsonData)| (x.0@, x.1@)) == se,
                user_permissions.wf(),
                specific_from(m2, se.take(i as int)) == Some(
                    Ok::<PermissionsModel, UserSystemError>(user_permissions@),
                ),
                specific_from(m2, se) is Some,
                permissions_from_entries(json@) == specific_from(m2, se),
                all_key@ == "all"@,
            decreases entries.len() - i,
        {
            assert(se.take(i + 1).drop_last() =~= se.take(i as int));
            assert(se.take(i + 1).last() == se[i as int]);
            assert(se[i as int] == (entries@[i as int].0@, entries@[i as int].1@));
            let collection_permissions = if entries[i].1.get_type() != JsonType::Object {
                proof {
                    lemma_specific_from_prefix(m2, se, i + 1);
                }
                return Err(UserSystemError::ImproperJsonStructure);
            } else {
                proof {
                    if parse_object(se[i as int].1.0) is Panics {
                        lemma_specific_from_prefix(m2, se, i + 1);
                    }
                }
                match entries[i].1.as_object() {
                    Ok(o) => o,
                    Err(_) => {
                        proof {
                            lemma_specific_from_prefix(m2, se, i + 1);
                        }
                        return Err(UserSystemError::ImproperJsonStructure);
                    },
                }
            };
            let name = entries[i].0.clone();
            assert(name@ == se[i as int].0);
            assert(object_of(se[i as int].1) == Some(
                Ok::<Seq<(Seq<char>, (Seq<char>, JsonType))>, UserSystemError>(
                    collection_permissions@,
                ),
            ));
            if collection_permissions.get(&all_key).is_some() {
                user_permissions.set_collection_permissions_to_all(name);
            } else {
                user_permissions.add_named_collection_permissions(
                    &Some(name),
                    &collection_permissions,
                );
            }
            i += 1;
        }
        assert(se.take(entries.len() as int) =~= se);
        Ok(user_permissions)
    }
}

/// A user, or an error, or `None` where reading panics.
pub type UserRead = Option<Result<(Seq<char>, Seq<u8>, PermissionsModel), UserSystemError>>;

/// What reading a user from its JSON document gives: the name without its quotes, the
/// password hash as bytes, the permissions.
pub open spec fn user_from_entries(e: Seq<(Seq<char>, (Seq<char>, JsonType))>) -> UserRead {
    match lookup(e, "username"@) {
        None => Some(Err(UserSystemError::ImproperJsonStructure)),
        Some(u) => match lookup(e, "password"@) {
            None => Some(Err(UserSystemError::ImproperJsonStructure)),
            Some(pw) => if pw.1 == JsonType::Array && parse_array(pw.0) is Panics {
                None
            } else {
                match bytes_of(pw) {
                    Err(_) => Some(Err(UserSystemError::ImproperJsonStructure)),
                    Ok(bs) => match object_member(e, "permissions"@) {
                        None => None,
                        Some(Err(x)) => Some(Err(x)),
                        Some(Ok(pe)) => match permissions_from_entries(pe) {
                            None => None,
                            Some(Err(x)) => Some(Err(x)),
                            Some(Ok(m)) => Some(Ok((without_quotes(u.0), bs, m))),
                        },
                    },
                }
            },
        },
    }
}

impl User {
    /// Reads a user from its JSON document: `username` (quotes dropped), `password` as an
    /// array of bytes (none when it is not an array), `permissions` as the permissions'
    /// document; an improper-structure error where one is missing or does not read.
    pub fn from_json(json: JsonObject) -> (r: Result<User, UserSystemError>)
        requires
            json.wf(),
            user_from_entries(json@) is Some,
        ensures
            match user_from_entries(json@).unwrap() {
                Ok(u) => r matches Ok(user) && user.username@ == u.0 && user.password@ == u.1
                    && user.user_permissions@ == u.2 && user.user_permissions.wf(),
                Err(x) => r == Err::<User, UserSystemError>(x),
            },
    {
        let username = match json.get(&"username".to_owned()) {
            Some(d) => d.as_string(),
            None => {
                return Err(UserSystemError::ImproperJsonStructure);
            },
        };
        let password = match json.get(&"password".to_owned()) {
            Some(d) => match d.as_u8_vec() {
                Ok(v) => v,
                Err(_) => {
                    return Err(UserSystemError::ImproperJsonStructure);
                },
            },
            None => {
                return Err(UserSystemError::ImproperJsonStructure);
            },
        };
        let permissions = object_member_of(&json, "permissions")?;
        let user_permissions = UserPermissions::from_json(permissions)?;
        Ok(User { username, password, user_permissions })
    }
}

/// The run of special characters a user name may not contain (as one piece of text).
pub const SPECIAL_CHARS: &'static str = "!\"#$%&'*+,./:;<=>?@[\\]^_`{|}~";

/// Whether a user name is acceptable: from 3 to 13 bytes long, without the text
/// [`SPECIAL_CHARS`] in it and without a space.
pub open spec fn username_ok(s: Seq<char>) -> bool {
    &&& encode_utf8(s).len() > 2
    &&& encode_utf8(s).len() < 14
    &&& find_seq(s, "!\"#$%&'*+,./:;<=>?@[\\]^_`{|}~"@) is None
    &&& !s.contains(' ')
}

/// Whether a user name is acceptable.
pub fn validate_username(username: &str) -> (b: bool)
    ensures
        b == username_ok(username@),
{
    let n = username.as_bytes().len();
    let v = chars_of(username);
    let special = chars_of("!\"#$%&'*+,./:;<=>?@[\\]^_`{|}~");
    assert(v@.subrange(0, v.len() as int) =~= v@);
    let has_special = find_seq_in(v.as_slice(), special.as_slice(), 0, v.len()).is_some();
    let has_space = find_char_in(v.as_slice(), ' ', 0, v.len()).is_some();
    proof {
        lemma_find_char_from_bounds(v@, ' ', 0);
        if v@.contains(' ') {
            let k = choose|k: int| 0 <= k < v@.len() && v@[k] == ' ';
            assert(v@[k] == ' ');
        }
    }
    n > 2 && n < 14 && !has_special && !has_space
}

/// Whether a password is acceptable: more than 4 bytes long.
pub fn validate_password(password: &str) -> (b: bool)
    ensures
        b == (encode_utf8(password@).len() > 4),
{
    password.as_bytes().len() > 4
}


// ------------------------------------------------------------------------------------------
// Reading back the JSON document of permissions.
// ------------------------------------------------------------------------------------------

/// A name an object of flags is written with: a permission's name, or `all`.
pub open spec fn flag_name(s: Seq<char>) -> bool {
    db_permission_named(s) is Some || collection_permission_named(s) is Some || s == "all"@
}

/// Whether two optional lists grant the same: both all, or both lists with the same items.
pub open spec fn same_grant<T>(a: Option<Seq<T>>, b: Option<Seq<T>>) -> bool {
    match (a, b) {
        (None, None) => true,
        (Some(x), Some(y)) => forall|p: T| x.contains(p) <==> y.contains(p),
        _ => false,
    }
}

/// The names of flags are plain keys, and `true` is a plain value.
proof fn lemma_flag_names_plain(s: Seq<char>)
    requires
        flag_name(s),
    ensures
        plain_key(s),
        plain_value(true_data()),
{
    reveal_strlit("create");
    reveal_strlit("drop");
    reveal_strlit("listen");
    reveal_strlit("read");
    reveal_strlit("insert");
    reveal_strlit("update");
    reveal_strlit("delete");
    reveal_strlit("all");
    reveal_strlit("true");
    reveal_strlit("false");
    reveal_strlit("null");
    reveal_strlit("undefined");
}

/// What an object of flags holds under a key: `true` for each of its names, nothing else.
proof fn lemma_flag_entries_lookup(names: Seq<Seq<char>>, key: Seq<char>)
    ensures
        lookup(flag_entries(names), key) == if names.contains(key) {
            Some(true_data())
        } else {
            None::<(Seq<char>, JsonType)>
        },
    decreases names.len(),
{
    if names.len() > 0 {
        lemma_flag_entries(names.drop_last());
        lemma_flag_entries_lookup(names.drop_last(), key);
        lemma_lookup_insert_entry(flag_entries(names.drop_last()), names.last(), true_data(), key);
        if key != names.last() {
            if names.contains(key) {
                let i = choose|i: int| 0 <= i < names.len() && names[i] == key;
                assert(names.drop_last()[i] == key);
            }
            if names.drop_last().contains(key) {
                let i = choose|i: int| 0 <= i < names.drop_last().len() && names.drop_last()[i] == key;
                assert(names[i] == key);
            }
        } else {
            assert(names[names.len() - 1] == key);
        }
    }
}

/// An object of flags named by flag names reads back from its text.
proof fn lemma_flag_object_reads_back(names: Seq<Seq<char>>)
    requires
        forall|i: int| 0 <= i < names.len() ==> flag_name(#[trigger] names[i]),
    ensures
        parse_object(object_data(flag_entries(names)).0) == Outcome::Done(flag_entries(names)),
        forall|j: int| 0 <= j < flag_entries(names).len() ==> names.contains(#[trigger] flag_entries(names)[j].0)
            && flag_entries(names)[j].1 == true_data(),
{
    let e = flag_entries(names);
    lemma_flag_entries(names);
    assert forall|j: int| 0 <= j < e.len() implies names.contains(#[trigger] e[j].0) && e[j].1 == true_data() by {
        lemma_lookup_at(e, j);
        lemma_flag_entries_lookup(names, e[j].0);
    }
    assert forall|j: int| 0 <= j < e.len() implies plain_key(#[trigger] e[j].0) && plain_value(e[j].1) by {
        let i = choose|i: int| 0 <= i < names.len() && names[i] == e[j].0;
        lemma_flag_names_plain(names[i]);
    }
    lemma_plain_object_roundtrip(e);
}

/// Reading database flags whose names all name permissions adds exactly those permissions.
proof fn lemma_db_from_flags(m: PermissionsModel, e: Seq<(Seq<char>, (Seq<char>, JsonType))>)
    requires
        m.db is Some,
        forall|j: int| 0 <= j < e.len() ==> (#[trigger] e[j]).1 == true_data() && db_permission_named(e[j].0) is Some,
    ensures
        db_from_flags(m, e) matches Some(Ok(m2)) && m2.specific == m.specific && m2.all == m.all && m2.db is Some
            && forall|p: DataBasePermission| #[trigger] m2.db.unwrap().contains(p) <==> (m.db.unwrap().contains(p)
            || exists|j: int| 0 <= j < e.len() && db_permission_named(#[trigger] e[j].0) == Some(p)),
    decreases e.len(),
{
    reveal_strlit("true");
    if e.len() > 0 {
        let d = e.drop_last();
        assert forall|j: int| 0 <= j < d.len() implies (#[trigger] d[j]).1 == true_data() && db_permission_named(d[j].0) is Some by {
            assert(d[j] == e[j]);
        }
        lemma_db_from_flags(m, d);
        let m2 = db_from_flags(m, d)->Some_0->Ok_0;
        let last = e.last();
        assert(last == e[e.len() - 1]);
        assert(bool_of(last.1) == Ok::<bool, JsonError>(true));
        let p0 = db_permission_named(last.0).unwrap();
        let m3 = add_db(m2, p0);
        assert(db_from_flags(m, e) == Some(Ok::<PermissionsModel, UserSystemError>(m3)));
        assert forall|p: DataBasePermission| #[trigger] m3.db.unwrap().contains(p) <==> (m.db.unwrap().contains(p)
            || exists|j: int| 0 <= j < e.len() && db_permission_named(#[trigger] e[j].0) == Some(p)) by {
            let l = m2.db.unwrap();
            if l.contains(p0) {
                assert(with_item(l, p0) == l);
            } else {
                assert(with_item(l, p0) == l.push(p0));
                if l.push(p0).contains(p) && p != p0 {
                    let i = choose|i: int| 0 <= i < l.push(p0).len() && l.push(p0)[i] == p;
                    assert(l[i] == p);
                }
                if l.contains(p) {
                    let i = choose|i: int| 0 <= i < l.len() && l[i] == p;
                    assert(l.push(p0)[i] == p);
                }
                assert(l.push(p0)[l.len() as int] == p0);
            }
            if exists|j: int| 0 <= j < e.len() && db_permission_named(#[trigger] e[j].0) == Some(p) {
                let j = choose|j: int| 0 <= j < e.len() && db_permission_named(#[trigger] e[j].0) == Some(p);
                if j < e.len() - 1 {
                    assert(d[j] == e[j]);
                }
            }
            if exists|j: int| 0 <= j < d.len() && db_permission_named(#[trigger] d[j].0) == Some(p) {
                let j = choose|j: int| 0 <= j < d.len() && db_permission_named(#[trigger] d[j].0) == Some(p);
                assert(d[j] == e[j]);
            }
        }
    }
}

/// Reading collection flags for every collection adds exactly the permissions named.
proof fn lemma_collection_from_flags(m: PermissionsModel, e: Seq<(Seq<char>, (Seq<char>, JsonType))>)
    requires
        m.all is Some,
    ensures
        ({
            let m2 = collection_from_flags(m, None, e);
            &&& m2.specific == m.specific
            &&& m2.db == m.db
            &&& m2.all is Some
            &&& forall|p: CollectionPermission| #[trigger] m2.all.unwrap().contains(p) <==> (m.all.unwrap().contains(p)
                || exists|j: int| 0 <= j < e.len() && collection_permission_named(#[trigger] e[j].0) == Some(p))
        }),
    decreases e.len(),
{
    if e.len() > 0 {
        let d = e.drop_last();
        lemma_collection_from_flags(m, d);
        let m2 = collection_from_flags(m, None, d);
        let last = e.last();
        assert(last == e[e.len() - 1]);
        let m3 = collection_from_flags(m, None, e);
        assert forall|p: CollectionPermission| #[trigger] m3.all.unwrap().contains(p) <==> (m.all.unwrap().contains(p)
            || exists|j: int| 0 <= j < e.len() && collection_permission_named(#[trigger] e[j].0) == Some(p)) by {
            let l = m2.all.unwrap();
            match collection_permission_named(last.0) {
                Some(p0) => {
                    if l.contains(p0) {
                        assert(with_item(l, p0) == l);
                    } else {
                        assert(with_item(l, p0) == l.push(p0));
                        if l.push(p0).contains(p) && p != p0 {
                            let i = choose|i: int| 0 <= i < l.push(p0).len() && l.push(p0)[i] == p;
                            assert(l[i] == p);
                        }
                        if l.contains(p) {
                            let i = choose|i: int| 0 <= i < l.len() && l[i] == p;
                            assert(l.push(p0)[i] == p);
                        }
                        assert(l.push(p0)[l.len() as int] == p0);
                    }
                },
                None => {},
            }
            if exists|j: int| 0 <= j < e.len() && collection_permission_named(#[trigger] e[j].0) == Some(p) {
                let j = choose|j: int| 0 <= j < e.len() && collection_permission_named(#[trigger] e[j].0) == Some(p);
                if j < e.len() - 1 {
                    assert(d[j] == e[j]);
                }
            }
            if exists|j: int| 0 <= j < d.len() && collection_permission_named(#[trigger] d[j].0) == Some(p) {
                let j = choose|j: int| 0 <= j < d.len() && collection_permission_named(#[trigger] d[j].0) == Some(p);
                assert(d[j] == e[j]);
            }
        }
    }
}

/// Texts of different lengths or first characters differ.
proof fn lemma_texts_differ(a: Seq<char>, b: Seq<char>)
    requires
        a.len() != b.len() || (a.len() > 0 && b.len() > 0 && a[0] != b[0]),
    ensures
        a != b,
{
}

/// The names of permissions, `all` and the keys of the permissions document differ.
proof fn lemma_names_differ()
    ensures
        "create"@ != "drop"@,
        "create"@ != "listen"@,
        "drop"@ != "listen"@,
        "read"@ != "insert"@,
        "read"@ != "update"@,
        "read"@ != "delete"@,
        "insert"@ != "update"@,
        "insert"@ != "delete"@,
        "update"@ != "delete"@,
        "create"@ != "read"@ && "create"@ != "insert"@ && "create"@ != "update"@ && "create"@ != "delete"@,
        "drop"@ != "read"@ && "drop"@ != "insert"@ && "drop"@ != "update"@ && "drop"@ != "delete"@,
        "listen"@ != "read"@ && "listen"@ != "insert"@ && "listen"@ != "update"@ && "listen"@ != "delete"@,
        "create"@ != "all"@ && "drop"@ != "all"@ && "listen"@ != "all"@,
        "read"@ != "all"@ && "insert"@ != "all"@ && "update"@ != "all"@ && "delete"@ != "all"@,
        "db permissions"@ != "all collection permissions"@,
        "db permissions"@ != "specific collection permissions"@,
        "all collection permissions"@ != "specific collection permissions"@,
{
    reveal_strlit("create");
    reveal_strlit("drop");
    reveal_strlit("listen");
    reveal_strlit("read");
    reveal_strlit("insert");
    reveal_strlit("update");
    reveal_strlit("delete");
    reveal_strlit("all");
    reveal_strlit("db permissions");
    reveal_strlit("all collection permissions");
    reveal_strlit("specific collection permissions");
    lemma_texts_differ("create"@, "drop"@);
    lemma_texts_differ("create"@, "listen"@);
    lemma_texts_differ("drop"@, "listen"@);
    lemma_texts_differ("read"@, "insert"@);
    lemma_texts_differ("read"@, "update"@);
    lemma_texts_differ("read"@, "delete"@);
    lemma_texts_differ("insert"@, "update"@);
    lemma_texts_differ("insert"@, "delete"@);
    lemma_texts_differ("update"@, "delete"@);
    lemma_texts_differ("create"@, "read"@);
    lemma_texts_differ("create"@, "insert"@);
    lemma_texts_differ("create"@, "update"@);
    lemma_texts_differ("create"@, "delete"@);
    lemma_texts_differ("drop"@, "read"@);
    lemma_texts_differ("drop"@, "insert"@);
    lemma_texts_differ("drop"@, "update"@);
    lemma_texts_differ("drop"@, "delete"@);
    lemma_texts_differ("listen"@, "read"@);
    lemma_texts_differ("listen"@, "insert"@);
    lemma_texts_differ("listen"@, "update"@);
    lemma_texts_differ("listen"@, "delete"@);
    lemma_texts_differ("create"@, "all"@);
    lemma_texts_differ("drop"@, "all"@);
    lemma_texts_differ("listen"@, "all"@);
    lemma_texts_differ("read"@, "all"@);
    lemma_texts_differ("insert"@, "all"@);
    lemma_texts_differ("update"@, "all"@);
    lemma_texts_differ("delete"@, "all"@);
    lemma_texts_differ("db permissions"@, "all collection permissions"@);
    lemma_texts_differ("db permissions"@, "specific collection permissions"@);
    lemma_texts_differ("all collection permissions"@, "specific collection permissions"@);
}

/// Each database permission is named back by its name, and only its name names it.
proof fn lemma_db_names(p: DataBasePermission, s: Seq<char>)
    ensures
        db_permission_named(db_permission_name(p)) == Some(p),
        db_permission_named(s) == Some(p) ==> s == db_permission_name(p),
        collection_permission_named(db_permission_name(p)) is None,
        db_permission_name(p) != "all"@,
        flag_name(db_permission_name(p)),
{
    lemma_names_differ();
}

/// Each collection permission is named back by its name, and only its name names it.
proof fn lemma_collection_names(p: CollectionPermission, s: Seq<char>)
    ensures
        collection_permission_named(collection_permission_name(p)) == Some(p),
        collection_permission_named(s) == Some(p) ==> s == collection_permission_name(p),
        collection_permission_name(p) != "all"@,
        flag_name(collection_permission_name(p)),
{
    lemma_names_differ();
}

/// Permissions without collections named on their own read back from their JSON document
/// as the same grants: the same database permissions and the same permissions for every
/// collection (each list in name order), or `all` where all were given.
pub proof fn lemma_permissions_roundtrip(m: PermissionsModel)
    requires
        m.specific.len() == 0,
    ensures
        permissions_from_entries(permissions_entries(m)) matches Some(Ok(m2)) && m2.specific.len() == 0
            && same_grant(m2.db, m.db) && same_grant(m2.all, m.all),
{
    lemma_names_differ();
    let dbn = db_flag_names(m.db);
    let alln = collection_flag_names(m.all);
    assert forall|i: int| 0 <= i < dbn.len() implies flag_name(#[trigger] dbn[i]) by {
        if m.db is Some {
            lemma_db_names(m.db.unwrap()[i], Seq::empty());
        }
    }
    assert forall|i: int| 0 <= i < alln.len() implies flag_name(#[trigger] alln[i]) by {
        if m.all is Some {
            lemma_collection_names(m.all.unwrap()[i], Seq::empty());
        }
    }
    lemma_flag_object_reads_back(dbn);
    lemma_flag_object_reads_back(alln);
    let fdb = flag_entries(dbn);
    let fall = flag_entries(alln);
    assert(specific_entries(m.specific) == no_entries());
    lemma_plain_object_roundtrip(no_entries());
    let d1 = object_data(fdb);
    let d2 = object_data(fall);
    let d3 = object_data(no_entries());
    let e1 = insert_entry(no_entries(), "db permissions"@, d1);
    let e2 = insert_entry(e1, "all collection permissions"@, d2);
    let e3 = insert_entry(e2, "specific collection permissions"@, d3);
    assert(e3 == permissions_entries(m));
    lemma_insert_entry(no_entries(), "db permissions"@, d1);
    lemma_insert_entry(e1, "all collection permissions"@, d2);
    lemma_lookup_insert_entry(no_entries(), "db permissions"@, d1, "db permissions"@);
    lemma_lookup_insert_entry(e1, "all collection permissions"@, d2, "db permissions"@);
    lemma_lookup_insert_entry(e2, "specific collection permissions"@, d3, "db permissions"@);
    lemma_lookup_insert_entry(e1, "all collection permissions"@, d2, "all collection permissions"@);
    lemma_lookup_insert_entry(e2, "specific collection permissions"@, d3, "all collection permissions"@);
    lemma_lookup_insert_entry(e2, "specific collection permissions"@, d3, "specific collection permissions"@);
    assert(lookup(e3, "db permissions"@) == Some(d1));
    assert(lookup(e3, "all collection permissions"@) == Some(d2));
    assert(lookup(e3, "specific collection permissions"@) == Some(d3));
    assert(object_member(e3, "db permissions"@) == Some(Ok::<_, UserSystemError>(fdb)));
    assert(object_member(e3, "all collection permissions"@) == Some(Ok::<_, UserSystemError>(fall)));
    assert(object_member(e3, "specific collection permissions"@) == Some(Ok::<_, UserSystemError>(no_entries())));
    let m0 = no_permissions();
    lemma_flag_entries_lookup(dbn, "all"@);
    lemma_flag_entries_lookup(alln, "all"@);
    // The database permissions.
    let m1 = if m.db is None {
        assert(dbn == seq!["all"@]);
        assert(dbn[0] == "all"@);
        PermissionsModel { db: None, specific: m0.specific, all: m0.all }
    } else {
        let l = m.db.unwrap();
        assert(!dbn.contains("all"@)) by {
            if dbn.contains("all"@) {
                let i = choose|i: int| 0 <= i < dbn.len() && dbn[i] == "all"@;
                lemma_db_names(l[i], Seq::empty());
            }
        }
        assert forall|j: int| 0 <= j < fdb.len() implies (#[trigger] fdb[j]).1 == true_data()
            && db_permission_named(fdb[j].0) is Some by {
            let i = choose|i: int| 0 <= i < dbn.len() && dbn[i] == fdb[j].0;
            lemma_db_names(l[i], Seq::empty());
        }
        lemma_db_from_flags(m0, fdb);
        let r = db_from_flags(m0, fdb)->Some_0->Ok_0;
        assert forall|p: DataBasePermission| r.db.unwrap().contains(p) <==> l.contains(p) by {
            if l.contains(p) {
                let i = choose|i: int| 0 <= i < l.len() && l[i] == p;
                assert(dbn[i] == db_permission_name(p));
                lemma_db_names(p, Seq::empty());
                lemma_flag_entries_lookup(dbn, db_permission_name(p));
                let j = choose|j: int| 0 <= j < fdb.len() && #[trigger] fdb[j].0 == db_permission_name(p);
                assert(db_permission_named(fdb[j].0) == Some(p));
            }
            if exists|j: int| 0 <= j < fdb.len() && db_permission_named(#[trigger] fdb[j].0) == Some(p) {
                let j = choose|j: int| 0 <= j < fdb.len() && db_permission_named(#[trigger] fdb[j].0) == Some(p);
                let i = choose|i: int| 0 <= i < dbn.len() && dbn[i] == fdb[j].0;
                lemma_db_names(l[i], fdb[j].0);
                lemma_db_names(p, fdb[j].0);
                lemma_db_names(l[i], Seq::empty());
                assert(l[i] == p);
            }
        }
        r
    };
    assert(m1.specific.len() == 0);
    assert(m1.all == Some(Seq::<CollectionPermission>::empty()));
    assert(same_grant(m1.db, m.db));
    // The permissions for every collection.
    let m2 = if m.all is None {
        assert(alln == seq!["all"@]);
        assert(alln[0] == "all"@);
        PermissionsModel { db: m1.db, specific: m1.specific, all: None }
    } else {
        let l = m.all.unwrap();
        assert(!alln.contains("all"@)) by {
            if alln.contains("all"@) {
                let i = choose|i: int| 0 <= i < alln.len() && alln[i] == "all"@;
                lemma_collection_names(l[i], Seq::empty());
            }
        }
        lemma_collection_from_flags(m1, fall);
        let r = collection_from_flags(m1, None, fall);
        assert forall|p: CollectionPermission| r.all.unwrap().contains(p) <==> l.contains(p) by {
            if l.contains(p) {
                let i = choose|i: int| 0 <= i < l.len() && l[i] == p;
                assert(alln[i] == collection_permission_name(p));
                lemma_collection_names(p, Seq::empty());
                lemma_flag_entries_lookup(alln, collection_permission_name(p));
                let j = choose|j: int| 0 <= j < fall.len() && #[trigger] fall[j].0 == collection_permission_name(p);
                assert(collection_permission_named(fall[j].0) == Some(p));
            }
            if exists|j: int| 0 <= j < fall.len() && collection_permission_named(#[trigger] fall[j].0) == Some(p) {
                let j = choose|j: int| 0 <= j < fall.len() && collection_permission_named(#[trigger] fall[j].0) == Some(p);
                let i = choose|i: int| 0 <= i < alln.len() && alln[i] == fall[j].0;
                lemma_collection_names(l[i], fall[j].0);
                lemma_collection_names(p, fall[j].0);
                lemma_collection_names(l[i], Seq::empty());
                assert(l[i] == p);
            }
        }
        r
    };
    assert(specific_from(m2, no_entries()) == Some(Ok::<PermissionsModel, UserSystemError>(m2)));
    assert(permissions_from_entries(e3) == Some(Ok::<PermissionsModel, UserSystemError>(m2)));
}
} // verus!
