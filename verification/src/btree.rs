use vstd::prelude::*;

verus! {

/// The settings a tree is built with: its directory, its order and its name.
pub struct BTreeBuilder {
    path: String,
    t: usize,
    name: String,
}

impl BTreeBuilder {
    /// The directory.
    pub closed spec fn path_of(&self) -> Seq<char> {
        self.path@
    }

    /// The order.
    pub closed spec fn order(&self) -> usize {
        self.t
    }

    /// The name.
    pub closed spec fn name_of(&self) -> Seq<char> {
        self.name@
    }

    /// Empty settings: no directory, order zero, no name.
    pub fn new() -> (r: Self)
        ensures
            r.path_of() == Seq::<char>::empty(),
            r.order() == 0,
            r.name_of() == Seq::<char>::empty(),
    {
        let r = Self { path: String::new(), t: 0, name: String::new() };
        r
    }

    /// The settings with the directory.
    pub fn path(self, path: String) -> (r: Self)
        ensures
            r.path_of() == path@,
            r.order() == self.order(),
            r.name_of() == self.name_of(),
    {
        let mut s = self;
        s.path = path;
        s
    }

    /// The settings with the order.
    pub fn t(self, t: usize) -> (r: Self)
        ensures
            r.path_of() == self.path_of(),
            r.order() == t,
            r.name_of() == self.name_of(),
    {
        let mut s = self;
        s.t = t;
        s
    }

    /// The settings with the name.
    pub fn name(self, name: &String) -> (r: Self)
        ensures
            r.path_of() == self.path_of(),
            r.order() == self.order(),
            r.name_of() == name@,
    {
        let mut s = self;
        s.name = name.clone();
        s
    }

    /// The directory.
    pub fn get_path(&self) -> (p: &String)
        ensures
            p@ == self.path_of(),
    {
        &self.path
    }

    /// The order.
    pub fn get_t(&self) -> (t: usize)
        ensures
            t == self.order(),
    {
        self.t
    }

    /// The name.
    pub fn get_name(&self) -> (n: &String)
        ensures
            n@ == self.name_of(),
    {
        &self.name
    }
}

} // verus!
