//! The names that a score gives to its parts.
use vstd::prelude::*;

verus! {

struct Entry {
    id: String,
    name: String,
}

/// A mapping from part identifiers to instrument names.
///
/// No identifier is held twice: giving a name to an identifier that has one
/// replaces the name.
pub struct PartNameCatalog {
    entries: Vec<Entry>,
}

/// The mapping that `entries` stand for, later entries overriding earlier ones.
spec fn entries_map(entries: Seq<Entry>) -> Map<Seq<char>, Seq<char>>
    decreases entries.len(),
{
    if entries.len() == 0 {
        Map::empty()
    } else {
        entries_map(entries.drop_last()).insert(entries.last().id@, entries.last().name@)
    }
}

spec fn distinct_ids(entries: Seq<Entry>) -> bool {
    forall|a: int, b: int|
        0 <= a < b < entries.len() ==> (#[trigger] entries[a]).id@ != (#[trigger] entries[b]).id@
}

proof fn lemma_absent(entries: Seq<Entry>, id: Seq<char>)
    requires
        forall|a: int| 0 <= a < entries.len() ==> (#[trigger] entries[a]).id@ != id,
    ensures
        !entries_map(entries).contains_key(id),
    decreases entries.len(),
{
    if entries.len() > 0 {
        lemma_absent(entries.drop_last(), id);
    }
}

proof fn lemma_present(entries: Seq<Entry>, a: int)
    requires
        distinct_ids(entries),
        0 <= a < entries.len(),
    ensures
        entries_map(entries).contains_key(entries[a].id@),
        entries_map(entries)[entries[a].id@] == entries[a].name@,
    decreases entries.len(),
{
    if a < entries.len() - 1 {
        assert(entries.drop_last()[a] == entries[a]);
        lemma_present(entries.drop_last(), a);
    }
}

proof fn lemma_replace(entries: Seq<Entry>, a: int, entry: Entry)
    requires
        distinct_ids(entries),
        0 <= a < entries.len(),
        entry.id@ == entries[a].id@,
    ensures
        distinct_ids(entries.update(a, entry)),
        entries_map(entries.update(a, entry)) == entries_map(entries).insert(
            entry.id@,
            entry.name@,
        ),
    decreases entries.len(),
{
    let updated = entries.update(a, entry);
    assert(distinct_ids(updated)) by {
        assert forall|x: int, y: int| 0 <= x < y < updated.len() implies (#[trigger] updated[x]).id@
            != (#[trigger] updated[y]).id@ by {
            assert(updated[x].id@ == entries[x].id@);
            assert(updated[y].id@ == entries[y].id@);
        }
    }
    if a == entries.len() - 1 {
        assert(updated.drop_last() =~= entries.drop_last());
        assert(entries_map(updated) =~= entries_map(entries).insert(entry.id@, entry.name@));
    } else {
        assert(updated.drop_last() =~= entries.drop_last().update(a, entry));
        assert(entries.drop_last()[a] == entries[a]);
        lemma_replace(entries.drop_last(), a, entry);
        assert(entries.last().id@ != entry.id@);
        assert(updated.last() == entries.last());
        assert(entries_map(updated) =~= entries_map(entries).insert(entry.id@, entry.name@));
    }
}

impl View for PartNameCatalog {
    type V = Map<Seq<char>, Seq<char>>;

    closed spec fn view(&self) -> Map<Seq<char>, Seq<char>> {
        entries_map(self.entries@)
    }
}

impl PartNameCatalog {
    /// Whether no identifier is held twice. Every catalog that this module
    /// hands out is so.
    pub closed spec fn wf(&self) -> bool {
        distinct_ids(self.entries@)
    }

    /// A catalog that names no part.
    pub fn new() -> (catalog: PartNameCatalog)
        ensures
            catalog.wf(),
            catalog@ == Map::<Seq<char>, Seq<char>>::empty(),
    {
        PartNameCatalog { entries: Vec::new() }
    }

    /// Where `id` stands among the entries.
    fn position(&self, id: &String) -> (r: Option<usize>)
        ensures
            match r {
                Some(a) => a < self.entries@.len() && self.entries@[a as int].id@ == id@,
                None => forall|a: int|
                    0 <= a < self.entries@.len() ==> (#[trigger] self.entries@[a]).id@ != id@,
            },
    {
        let mut a: usize = 0;
        while a < self.entries.len()
            invariant
                a <= self.entries.len(),
                forall|b: int| 0 <= b < a ==> (#[trigger] self.entries@[b]).id@ != id@,
            decreases self.entries.len() - a,
        {
            if self.entries[a].id == *id {
                return Some(a);
            }
            a += 1;
        }
        None
    }

    /// Gives the part `id` the name `name`, in place of any name it had.
    pub fn insert(&mut self, id: String, name: String)
        requires
            old(self).wf(),
        ensures
            final(self).wf(),
            final(self)@ == old(self)@.insert(id@, name@),
    {
        let found = self.position(&id);
        let entry = Entry { id, name };
        match found {
            Some(a) => {
                proof {
                    lemma_replace(self.entries@, a as int, entry);
                }
                self.entries.set(a, entry);
            },
            None => {
                let ghost before = self.entries@;
                assert(before.push(entry).drop_last() =~= before);
                assert(distinct_ids(before.push(entry)));
                self.entries.push(entry);
            },
        }
    }

    /// The name of the part `id`, if the catalog has one.
    pub fn get(&self, id: &String) -> (r: Option<&String>)
        requires
            self.wf(),
        ensures
            match r {
                Some(name) => self@.contains_key(id@) && self@[id@] == name@,
                None => !self@.contains_key(id@),
            },
    {
        match self.position(id) {
            Some(a) => {
                proof {
                    lemma_present(self.entries@, a as int);
                }
                Some(&self.entries[a].name)
            },
            None => {
                proof {
                    lemma_absent(self.entries@, id@);
                }
                None
            },
        }
    }

    /// How many parts have a name.
    pub fn len(&self) -> (n: usize)
        requires
            self.wf(),
        ensures
            n == self@.dom().len(),
            self@.dom().finite(),
    {
        proof {
            lemma_size(self.entries@);
        }
        self.entries.len()
    }
}

proof fn lemma_size(entries: Seq<Entry>)
    requires
        distinct_ids(entries),
    ensures
        entries_map(entries).dom().finite(),
        entries_map(entries).dom().len() == entries.len(),
    decreases entries.len(),
{
    if entries.len() > 0 {
        let front = entries.drop_last();
        lemma_size(front);
        assert forall|a: int| 0 <= a < front.len() implies (#[trigger] front[a]).id@
            != entries.last().id@ by {
            assert(front[a] == entries[a]);
        }
        lemma_absent(front, entries.last().id@);
    }
}

} // verus!
