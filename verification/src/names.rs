use vstd::prelude::*;

verus! {

/// `i` is the first place at which `key` stands in `keys`.
pub open spec fn is_first(keys: Seq<Seq<char>>, key: Seq<char>, i: int) -> bool {
    &&& 0 <= i < keys.len()
    &&& keys[i] == key
    &&& forall|j: int| 0 <= j < i ==> keys[j] != key
}

/// The first place at which `key` stands in `keys`.
pub open spec fn first(keys: Seq<Seq<char>>, key: Seq<char>) -> int {
    choose|i: int| is_first(keys, key, i)
}

/// A key that stands at `i` and nowhere before is found there.
pub proof fn lemma_first(keys: Seq<Seq<char>>, key: Seq<char>, i: int)
    requires
        is_first(keys, key, i),
    ensures
        first(keys, key) == i,
        keys.contains(key),
{
    let f = first(keys, key);
    assert(is_first(keys, key, f));
    if f < i {
        assert(keys[f] != key);
    }
    if i < f {
        assert(keys[i] != key);
    }
}

/// Trusted: `==` of std on two string slices holds exactly when they spell
/// the same text.
#[verifier::external_body]
fn same_text(a: &str, b: &str) -> (r: bool)
    ensures
        r == (a@ == b@),
{
    a == b
}

/// One name with what it stands for.
pub struct Entry<V> {
    name: &'static str,
    value: V,
}

/// A mapping from names to values that keeps the order in which the names
/// were first inserted.
pub struct NameMap<V> {
    entries: Vec<Entry<V>>,
}

impl<V> View for NameMap<V> {
    type V = Map<Seq<char>, V>;

    /// The mapping itself: each name with its value.
    open spec fn view(&self) -> Map<Seq<char>, V> {
        Map::new(
            |k: Seq<char>| self.keys().contains(k),
            |k: Seq<char>| self.vals()[first(self.keys(), k)],
        )
    }
}

impl<V> NameMap<V> {
    /// The names, in order of insertion.
    pub closed spec fn keys(&self) -> Seq<Seq<char>> {
        Seq::new(self.entries@.len(), |i: int| self.entries@[i].name@)
    }

    /// The values, each at the place of its name in [`Self::keys`].
    pub closed spec fn vals(&self) -> Seq<V> {
        Seq::new(self.entries@.len(), |i: int| self.entries@[i].value)
    }

    /// No name stands twice.
    pub open spec fn distinct(&self) -> bool {
        self.keys().no_duplicates()
    }

    /// There are as many values as names.
    pub proof fn lemma_lengths(&self)
        ensures
            self.vals().len() == self.keys().len(),
    {
    }

    /// Without names the mapping is empty, and with one it is not.
    pub proof fn lemma_empty(&self)
        ensures
            self.keys().len() == 0 <==> self@ == Map::<Seq<char>, V>::empty(),
    {
        if self.keys().len() == 0 {
            assert(self@ =~= Map::<Seq<char>, V>::empty());
        } else {
            assert(self.keys().contains(self.keys()[0]));
            assert(self@.contains_key(self.keys()[0]));
        }
    }

    /// The empty mapping.
    pub fn new() -> (m: Self)
        ensures
            m.keys() == Seq::<Seq<char>>::empty(),
            m.vals() == Seq::<V>::empty(),
            m@ == Map::<Seq<char>, V>::empty(),
            m.distinct(),
    {
        let m = NameMap { entries: Vec::new() };
        assert(m.keys() =~= Seq::<Seq<char>>::empty());
        assert(m.vals() =~= Seq::<V>::empty());
        assert(m@ =~= Map::<Seq<char>, V>::empty());
        m
    }

    /// The number of names.
    pub fn len(&self) -> (n: usize)
        ensures
            n == self.keys().len(),
            n == self.vals().len(),
    {
        self.entries.len()
    }

    /// Whether the mapping holds no name.
    pub fn is_empty(&self) -> (r: bool)
        ensures
            r == (self.keys().len() == 0),
            r == (self@ == Map::<Seq<char>, V>::empty()),
    {
        proof {
            self.lemma_empty();
        }
        self.entries.len() == 0
    }

    /// The name at place `i`.
    pub fn name_at(&self, i: usize) -> (name: &'static str)
        requires
            i < self.keys().len(),
        ensures
            name@ == self.keys()[i as int],
    {
        self.entries[i].name
    }

    /// The value at place `i`.
    pub fn value_at(&self, i: usize) -> (value: &V)
        requires
            i < self.keys().len(),
        ensures
            *value == self.vals()[i as int],
    {
        &self.entries[i].value
    }

    /// The first place at which `name` stands, if it stands anywhere.
    pub fn position(&self, name: &str) -> (r: Option<usize>)
        ensures
            match r {
                Some(i) => is_first(self.keys(), name@, i as int),
                None => !self.keys().contains(name@),
            },
    {
        let mut i: usize = 0;
        while i < self.entries.len()
            invariant
                i <= self.entries@.len(),
                forall|j: int| 0 <= j < i ==> self.keys()[j] != name@,
            decreases self.entries@.len() - i,
        {
            if same_text(self.entries[i].name, name) {
                return Some(i);
            }
            i = i + 1;
        }
        None
    }

    /// The value that `name` stands for, if it stands for one.
    pub fn get(&self, name: &str) -> (r: Option<&V>)
        ensures
            match r {
                Some(v) => self@.contains_key(name@) && *v == self@[name@],
                None => !self@.contains_key(name@),
            },
    {
        match self.position(name) {
            Some(i) => {
                proof {
                    lemma_first(self.keys(), name@, i as int);
                }
                Some(&self.entries[i].value)
            },
            None => None,
        }
    }

    /// Whether `name` stands for a value.
    pub fn contains_key(&self, name: &str) -> (r: bool)
        ensures
            r == self@.contains_key(name@),
    {
        self.position(name).is_some()
    }

    /// Lets `name` stand for `value`: in place of its former value if it had
    /// one, as a new last name otherwise.
    pub fn insert(&mut self, name: &'static str, value: V)
        ensures
            final(self)@ == old(self)@.insert(name@, value),
            old(self).keys().contains(name@) ==> final(self).keys() == old(self).keys()
                && final(self).vals() == old(self).vals().update(
                first(old(self).keys(), name@),
                value,
            ),
            !old(self).keys().contains(name@) ==> final(self).keys() == old(self).keys().push(
                name@,
            ) && final(self).vals() == old(self).vals().push(value),
            old(self).distinct() ==> final(self).distinct(),
    {
        let ghost keys0 = self.keys();
        let ghost vals0 = self.vals();
        let ghost map0 = self@;
        match self.position(name) {
            Some(i) => {
                proof {
                    lemma_first(keys0, name@, i as int);
                }
                self.entries.set(i, Entry { name, value });
                assert(self.keys() =~= keys0);
                assert(self.vals() =~= vals0.update(i as int, value));
                assert forall|k: Seq<char>| self@.contains_key(k) implies #[trigger] self@[k]
                    == map0.insert(name@, value)[k] by {
                    if k != name@ {
                        let w = choose|w: int| 0 <= w < keys0.len() && keys0[w] == k;
                        lemma_has_first(keys0, k, w);
                    }
                }
                assert(self@ =~= map0.insert(name@, value));
            },
            None => {
                self.entries.push(Entry { name, value });
                assert(self.keys() =~= keys0.push(name@));
                assert(self.vals() =~= vals0.push(value));
                let ghost n = keys0.len() as int;
                assert(is_first(self.keys(), name@, n));
                proof {
                    lemma_first(self.keys(), name@, n);
                }
                assert forall|k: Seq<char>| map0.insert(name@, value).contains_key(k) implies (
                #[trigger] self@.contains_key(k)) && self@[k] == map0.insert(name@, value)[k] by {
                    if k != name@ {
                        let f = first(keys0, k);
                        assert(keys0.contains(k));
                        let w = choose|w: int| 0 <= w < keys0.len() && keys0[w] == k;
                        lemma_has_first(keys0, k, w);
                        assert(is_first(keys0, k, f));
                        assert(is_first(self.keys(), k, f));
                        lemma_first(self.keys(), k, f);
                    }
                }
                assert forall|k: Seq<char>| self@.contains_key(k) implies map0.insert(
                    name@,
                    value,
                ).contains_key(k) by {
                    let w = choose|w: int| 0 <= w < self.keys().len() && self.keys()[w] == k;
                    if w < n {
                        assert(keys0[w] == k);
                    }
                }
                assert(self@ =~= map0.insert(name@, value));
                assert(keys0.no_duplicates() ==> self.keys().no_duplicates());
            },
        }
    }
}

/// A key that stands somewhere has a first place.
pub proof fn lemma_has_first(keys: Seq<Seq<char>>, key: Seq<char>, w: int)
    requires
        0 <= w < keys.len(),
        keys[w] == key,
    ensures
        is_first(keys, key, first(keys, key)),
    decreases w,
{
    if forall|j: int| 0 <= j < w ==> keys[j] != key {
        assert(is_first(keys, key, w));
    } else {
        let j = choose|j: int| 0 <= j < w && keys[j] == key;
        lemma_has_first(keys, key, j);
    }
}

} // verus!
