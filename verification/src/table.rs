//! Tables from names to values.

use vstd::prelude::*;

verus! {

/// A name and what it is bound to.
pub struct Entry<V> {
    pub name: String,
    pub value: V,
}

/// The map that a list of entries stands for. Where a name stands twice, the
/// later entry counts.
pub open spec fn map_of<V>(entries: Seq<Entry<V>>) -> Map<Seq<char>, V>
    decreases entries.len(),
{
    if entries.len() == 0 {
        Map::empty()
    } else {
        map_of(entries.drop_last()).insert(entries.last().name@, entries.last().value)
    }
}

/// A name that no entry holds is not in the map.
pub proof fn lemma_map_of_absent<V>(entries: Seq<Entry<V>>, name: Seq<char>)
    requires
        forall|i: int| 0 <= i < entries.len() ==> (#[trigger] entries[i]).name@ != name,
    ensures
        !map_of(entries).contains_key(name),
    decreases entries.len(),
{
    if entries.len() > 0 {
        lemma_map_of_absent(entries.drop_last(), name);
    }
}

/// The last entry that holds a name is what the map gives for it.
pub proof fn lemma_map_of_last<V>(entries: Seq<Entry<V>>, name: Seq<char>, at: int)
    requires
        0 <= at < entries.len(),
        entries[at].name@ == name,
        forall|i: int| at < i < entries.len() ==> (#[trigger] entries[i]).name@ != name,
    ensures
        map_of(entries).contains_key(name),
        map_of(entries)[name] == entries[at].value,
    decreases entries.len(),
{
    if at < entries.len() - 1 {
        lemma_map_of_last(entries.drop_last(), name, at);
    }
}

/// To replace the last entry that holds a name is to insert into the map.
pub proof fn lemma_map_of_update<V>(entries: Seq<Entry<V>>, at: int, entry: Entry<V>)
    requires
        0 <= at < entries.len(),
        entries[at].name@ == entry.name@,
        forall|i: int| at < i < entries.len() ==> (#[trigger] entries[i]).name@ != entry.name@,
    ensures
        map_of(entries.update(at, entry)) == map_of(entries).insert(entry.name@, entry.value),
    decreases entries.len(),
{
    let changed = entries.update(at, entry);
    if at == entries.len() - 1 {
        assert(changed.drop_last() =~= entries.drop_last());
        assert(map_of(changed) =~= map_of(entries).insert(entry.name@, entry.value));
    } else {
        lemma_map_of_update(entries.drop_last(), at, entry);
        assert(changed.drop_last() =~= entries.drop_last().update(at, entry));
        assert(changed.last() == entries.last());
        assert(map_of(changed) =~= map_of(entries).insert(entry.name@, entry.value));
    }
}

/// A table from names to values.
pub struct Table<V> {
    entries: Vec<Entry<V>>,
}

impl<V> View for Table<V> {
    type V = Map<Seq<char>, V>;

    closed spec fn view(&self) -> Map<Seq<char>, V> {
        map_of(self.entries@)
    }
}

impl<V> Table<V> {
    /// The empty table.
    pub fn new() -> (table: Self)
        ensures
            table@ == Map::<Seq<char>, V>::empty(),
    {
        Table { entries: Vec::new() }
    }

    /// Where the last entry for `name` stands.
    fn position(&self, name: &String) -> (found: Option<usize>)
        ensures
            (match found {
                Some(at) => at < self.entries.len() && self.entries[at as int].name@ == name@
                    && forall|i: int|
                    at < i < self.entries.len() ==> (#[trigger] self.entries[i]).name@ != name@,
                None => forall|i: int|
                    0 <= i < self.entries.len() ==> (#[trigger] self.entries[i]).name@ != name@,
            }),
    {
        let mut i = self.entries.len();
        while i > 0
            invariant
                i <= self.entries.len(),
                forall|k: int|
                    i <= k < self.entries.len() ==> (#[trigger] self.entries[k]).name@ != name@,
            decreases i,
        {
            i -= 1;
            if self.entries[i].name == *name {
                return Some(i);
            }
        }
        None
    }

    /// What `name` is bound to.
    pub fn get(&self, name: &String) -> (value: Option<&V>)
        ensures
            (match value {
                Some(v) => self@.get(name@) == Some(*v),
                None => self@.get(name@) is None,
            }),
    {
        match self.position(name) {
            Some(at) => {
                proof {
                    lemma_map_of_last(self.entries@, name@, at as int);
                }
                Some(&self.entries[at].value)
            },
            None => {
                proof {
                    lemma_map_of_absent(self.entries@, name@);
                }
                None
            },
        }
    }

    /// Whether `name` is bound.
    pub fn contains(&self, name: &String) -> (bound: bool)
        ensures
            bound == self@.contains_key(name@),
    {
        self.get(name).is_some()
    }

    /// Binds `name` to `value`, in place of what it was bound to.
    pub fn insert(&mut self, name: String, value: V)
        ensures
            final(self)@ == old(self)@.insert(name@, value),
    {
        let entry = Entry { name, value };
        match self.position(&entry.name) {
            Some(at) => {
                proof {
                    lemma_map_of_update(self.entries@, at as int, entry);
                }
                self.entries.set(at, entry);
            },
            None => {
                let ghost before = self.entries@;
                self.entries.push(entry);
                assert(self.entries@.drop_last() =~= before);
            },
        }
    }
}

} // verus!
