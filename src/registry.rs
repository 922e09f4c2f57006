use vstd::prelude::*;

verus! {

/// The categories of identifiers; each has its own handles.
#[derive(Clone, Copy, Debug, PartialEq, Eq, Structural)]
pub enum Category {
    Person,
    Link,
    ActType,
    Mode,
    VehicleType,
}

/// An interned identifier: its category and its handle there.
#[derive(Clone, Copy, Debug, PartialEq, Eq, Structural)]
pub struct Id {
    pub category: Category,
    pub handle: u64,
}

/// Whether no name occurs twice in `names`.
pub open spec fn distinct(names: Seq<Seq<char>>) -> bool {
    forall|i: int, j: int| 0 <= i < names.len() && 0 <= j < names.len() && i != j ==> names[i] != names[j]
}

/// The names after interning `s`: unchanged if `s` is there, else `s` added last.
pub open spec fn interned(names: Seq<Seq<char>>, s: Seq<char>) -> Seq<Seq<char>> {
    if names.contains(s) {
        names
    } else {
        names.push(s)
    }
}

/// The names of one category; a name's handle is its position.
pub struct Interner {
    names: Vec<String>,
}

impl Interner {
    pub closed spec fn view(&self) -> Seq<Seq<char>> {
        self.names@.map_values(|n: String| n@)
    }

    pub closed spec fn wf(&self) -> bool {
        distinct(self@)
    }

    /// An interner with no names.
    pub fn new() -> (r: Self)
        ensures
            r.wf(),
            r@ == Seq::<Seq<char>>::empty(),
    {
        let r = Interner { names: Vec::new() };
        assert(r@ =~= Seq::<Seq<char>>::empty());
        r
    }

    /// The number of names.
    pub fn len(&self) -> (r: usize)
        ensures
            r == self@.len(),
    {
        self.names.len()
    }

    /// The handle of `s`, if it is interned.
    pub fn find(&self, s: &str) -> (r: Option<u64>)
        ensures
            match r {
                Some(h) => h < self@.len() && self@[h as int] == s@,
                None => !self@.contains(s@),
            },
    {
        let wanted = s.to_string();
        let mut i: usize = 0;
        while i < self.names.len()
            invariant
                wanted@ == s@,
                i <= self@.len(),
                self@.len() == self.names@.len(),
                forall|j: int| 0 <= j < i ==> self@[j] != s@,
            decreases self@.len() - i,
        {
            assert(self@[i as int] == self.names@[i as int]@);
            if self.names[i] == wanted {
                return Some(i as u64);
            }
            i += 1;
        }
        None
    }

    /// The handle of `s`, interning it first if it is new.
    pub fn create(&mut self, s: &str) -> (h: u64)
        requires
            old(self).wf(),
        ensures
            final(self).wf(),
            final(self)@ == interned(old(self)@, s@),
            h < final(self)@.len(),
            final(self)@[h as int] == s@,
    {
        match self.find(s) {
            Some(h) => h,
            None => {
                let h = self.names.len() as u64;
                self.names.push(s.to_string());
                assert(self@ =~= old(self)@.push(s@));
                h
            },
        }
    }

    /// The name behind handle `h`.
    pub fn external(&self, h: u64) -> (r: &str)
        requires
            h < self@.len(),
        ensures
            r@ == self@[h as int],
    {
        let n = self.names.len();
        assert(self@.len() == n);
        let i = h as usize;
        assert(self@[i as int] == self.names@[i as int]@);
        self.names[i].as_str()
    }
}

/// Interning the same name twice gives the same handle, and interning two
/// different names gives two different handles.
pub proof fn lemma_handles_match_names(
    names: Seq<Seq<char>>,
    s: Seq<char>,
    t: Seq<char>,
    hs: int,
    ht: int,
)
    requires
        distinct(names),
        0 <= hs < interned(names, s).len(),
        interned(names, s)[hs] == s,
        0 <= ht < interned(interned(names, s), t).len(),
        interned(interned(names, s), t)[ht] == t,
    ensures
        (hs == ht) == (s == t),
{
    let first = interned(names, s);
    let second = interned(first, t);
    assert(second[hs] == first[hs]);
    if !names.contains(s) {
        assert forall|i: int, j: int| 0 <= i < first.len() && 0 <= j < first.len() && i != j implies first[i] != first[j] by {
            if i == names.len() {
                assert(names.contains(first[j]));
            } else if j == names.len() {
                assert(names.contains(first[i]));
            }
        }
    }
    assert(distinct(first));
    if !first.contains(t) {
        assert forall|i: int, j: int| 0 <= i < second.len() && 0 <= j < second.len() && i != j implies second[i] != second[j] by {
            if i == first.len() {
                assert(first.contains(second[j]));
            } else if j == first.len() {
                assert(first.contains(second[i]));
            }
        }
    }
}

/// The names of category `c` after interning, in order, those entries of
/// `entries` that belong to it.
pub open spec fn loaded(entries: Seq<(Category, String)>, c: Category) -> Seq<Seq<char>>
    decreases entries.len(),
{
    if entries.len() == 0 {
        Seq::empty()
    } else {
        let prev = loaded(entries.drop_last(), c);
        if entries.last().0 == c {
            interned(prev, entries.last().1@)
        } else {
            prev
        }
    }
}

/// Interned identifiers of all categories. A handle, once given, keeps its
/// name for the life of the registry.
pub struct IdRegistry {
    persons: Interner,
    links: Interner,
    act_types: Interner,
    modes: Interner,
    vehicle_types: Interner,
}

impl IdRegistry {
    pub closed spec fn interner(&self, c: Category) -> Interner {
        match c {
            Category::Person => self.persons,
            Category::Link => self.links,
            Category::ActType => self.act_types,
            Category::Mode => self.modes,
            Category::VehicleType => self.vehicle_types,
        }
    }

    /// The names of category `c`, in the order of their handles.
    pub open spec fn names(&self, c: Category) -> Seq<Seq<char>> {
        self.interner(c)@
    }

    pub open spec fn wf(&self) -> bool {
        forall|c: Category| #[trigger] self.interner(c).wf()
    }

    /// A registry with no names.
    pub fn new() -> (r: Self)
        ensures
            r.wf(),
            forall|c: Category| #[trigger] r.names(c) == Seq::<Seq<char>>::empty(),
    {
        IdRegistry {
            persons: Interner::new(),
            links: Interner::new(),
            act_types: Interner::new(),
            modes: Interner::new(),
            vehicle_types: Interner::new(),
        }
    }

    /// A registry that holds the names of a snapshot, each category's names
    /// interned in the order they come.
    pub fn load(entries: &Vec<(Category, String)>) -> (r: Self)
        ensures
            r.wf(),
            forall|c: Category| #[trigger] r.names(c) == loaded(entries@, c),
    {
        let mut r = IdRegistry::new();
        let mut i: usize = 0;
        while i < entries.len()
            invariant
                i <= entries@.len(),
                r.wf(),
                forall|c: Category| #[trigger] r.names(c) == loaded(entries@.take(i as int), c),
            decreases entries@.len() - i,
        {
            let _ = r.create(entries[i].0, entries[i].1.as_str());
            assert(entries@.take(i + 1).drop_last() =~= entries@.take(i as int));
            i += 1;
        }
        assert(entries@.take(i as int) =~= entries@);
        r
    }

    /// The identifier of `s` in category `c`, interning `s` first if it is new.
    pub fn create(&mut self, c: Category, s: &str) -> (id: Id)
        requires
            old(self).wf(),
        ensures
            final(self).wf(),
            id.category == c,
            final(self).names(c) == interned(old(self).names(c), s@),
            final(self).names(c)[id.handle as int] == s@,
            id.handle < final(self).names(c).len(),
            forall|d: Category| d != c ==> #[trigger] final(self).names(d) == old(self).names(d),
    {
        proof {
            assert(old(self).interner(c).wf());
        }
        let handle = match c {
            Category::Person => self.persons.create(s),
            Category::Link => self.links.create(s),
            Category::ActType => self.act_types.create(s),
            Category::Mode => self.modes.create(s),
            Category::VehicleType => self.vehicle_types.create(s),
        };
        assert forall|d: Category| #[trigger] self.interner(d).wf() by {
            assert(old(self).interner(d).wf());
        }
        Id { category: c, handle }
    }

    /// The identifier of `s` in category `c`, if it is interned.
    pub fn get(&self, c: Category, s: &str) -> (r: Option<Id>)
        ensures
            match r {
                Some(id) => id.category == c && id.handle < self.names(c).len()
                    && self.names(c)[id.handle as int] == s@,
                None => !self.names(c).contains(s@),
            },
    {
        let found = match c {
            Category::Person => self.persons.find(s),
            Category::Link => self.links.find(s),
            Category::ActType => self.act_types.find(s),
            Category::Mode => self.modes.find(s),
            Category::VehicleType => self.vehicle_types.find(s),
        };
        match found {
            Some(handle) => Some(Id { category: c, handle }),
            None => None,
        }
    }

    /// The number of names of category `c`.
    pub fn len(&self, c: Category) -> (r: usize)
        ensures
            r == self.names(c).len(),
    {
        match c {
            Category::Person => self.persons.len(),
            Category::Link => self.links.len(),
            Category::ActType => self.act_types.len(),
            Category::Mode => self.modes.len(),
            Category::VehicleType => self.vehicle_types.len(),
        }
    }

    /// Whether `id` was handed out by this registry.
    pub open spec fn valid(&self, id: Id) -> bool {
        id.handle < self.names(id.category).len()
    }

    /// The external name of an identifier.
    pub fn external(&self, id: Id) -> (r: &str)
        requires
            self.valid(id),
        ensures
            r@ == self.names(id.category)[id.handle as int],
    {
        match id.category {
            Category::Person => self.persons.external(id.handle),
            Category::Link => self.links.external(id.handle),
            Category::ActType => self.act_types.external(id.handle),
            Category::Mode => self.modes.external(id.handle),
            Category::VehicleType => self.vehicle_types.external(id.handle),
        }
    }
}

} // verus!
