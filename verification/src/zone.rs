//! The table from which the server answers: exact names and their IPv4
//! addresses.

use vstd::prelude::*;

verus! {

/// One line of a zone table.
struct ZoneEntry {
    name: String,
    address: [u8; 4],
}

/// A mapping from domain names to IPv4 addresses. Names are compared octet
/// by octet: no wildcards, and upper and lower case differ.
pub struct ZoneTable {
    entries: Vec<ZoneEntry>,
}

impl View for ZoneTable {
    type V = Map<Seq<char>, [u8; 4]>;

    closed spec fn view(&self) -> Map<Seq<char>, [u8; 4]> {
        entries_map(self.entries@)
    }
}

impl ZoneTable {
    /// The entries are kept in a list in which no name occurs twice.
    #[verifier::type_invariant]
    spec fn well_formed(self) -> bool {
        distinct_names(self.entries@)
    }

    /// A table without entries.
    pub fn new() -> (table: ZoneTable)
        ensures
            table@ == Map::<Seq<char>, [u8; 4]>::empty(),
    {
        ZoneTable { entries: Vec::new() }
    }

    /// The index of the entry for `name`, if there is one.
    fn find(&self, name: &str) -> (found: Option<usize>)
        ensures
            match found {
                Some(at) => at < self.entries@.len() && self.entries@[at as int].name@ == name@,
                None => forall|i: int|
                    0 <= i < self.entries@.len() ==> (#[trigger] self.entries@[i]).name@ != name@,
            },
    {
        let mut i: usize = 0;
        while i < self.entries.len()
            invariant
                i <= self.entries@.len(),
                forall|j: int| 0 <= j < i ==> (#[trigger] self.entries@[j]).name@ != name@,
            decreases self.entries@.len() - i,
        {
            if same_text(self.entries[i].name.as_str(), name) {
                return Some(i);
            }
            i = i + 1;
        }
        None
    }

    /// Gives `name` the address `address`, and returns the address that it
    /// had before, if any.
    pub fn insert(&mut self, name: &str, address: [u8; 4]) -> (previous: Option<[u8; 4]>)
        ensures
            final(self)@ == old(self)@.insert(name@, address),
            previous == if old(self)@.dom().contains(name@) {
                Some(old(self)@[name@])
            } else {
                None
            },
    {
        proof {
            use_type_invariant(&*self);
        }
        let entry = ZoneEntry { name: name.to_owned(), address };
        let found: Option<usize> = self.find(name);
        let mut entries: Vec<ZoneEntry> = Vec::new();
        core::mem::swap(&mut self.entries, &mut entries);
        let previous: Option<[u8; 4]> = match found {
            Some(at) => {
                let previous: [u8; 4] = entries[at].address;
                proof {
                    lemma_present(entries@, at as int);
                    lemma_replaced(entries@, at as int, entry);
                }
                entries[at] = entry;
                Some(previous)
            },
            None => {
                proof {
                    let longer = entries@.push(entry);
                    lemma_absent(entries@, name@);
                    assert(longer.drop_last() =~= entries@);
                    assert forall|i: int, j: int| 0 <= i < j < longer.len() implies (
                    #[trigger] longer[i]).name@ != (#[trigger] longer[j]).name@ by {
                        assert(longer[i] == entries@[i]);
                        if j < entries@.len() {
                            assert(longer[j] == entries@[j]);
                        }
                    }
                }
                entries.push(entry);
                None
            },
        };
        core::mem::swap(&mut self.entries, &mut entries);
        previous
    }

    /// The address of `name`, if the table has one for exactly this name.
    pub fn get(&self, name: &str) -> (address: Option<[u8; 4]>)
        ensures
            address == if self@.dom().contains(name@) {
                Some(self@[name@])
            } else {
                None
            },
    {
        proof {
            use_type_invariant(self);
        }
        match self.find(name) {
            Some(at) => {
                proof {
                    lemma_present(self.entries@, at as int);
                }
                Some(self.entries[at].address)
            },
            None => {
                proof {
                    lemma_absent(self.entries@, name@);
                }
                None
            },
        }
    }
}

/// The mapping that a list of entries stands for when read from first to
/// last.
spec fn entries_map(entries: Seq<ZoneEntry>) -> Map<Seq<char>, [u8; 4]>
    decreases entries.len(),
{
    if entries.len() == 0 {
        Map::empty()
    } else {
        entries_map(entries.drop_last()).insert(entries.last().name@, entries.last().address)
    }
}

/// No name occurs twice.
spec fn distinct_names(entries: Seq<ZoneEntry>) -> bool {
    forall|i: int, j: int|
        0 <= i < j < entries.len() ==> (#[trigger] entries[i]).name@ != (
        #[trigger] entries[j]).name@
}

/// Whether two texts are the same, found by comparing their UTF-8 octets.
fn same_text(a: &str, b: &str) -> (same: bool)
    ensures
        same == (a@ == b@),
{
    proof {
        vstd::utf8::encode_utf8_decode_utf8(a@);
        vstd::utf8::encode_utf8_decode_utf8(b@);
    }
    same_octets(a.as_bytes(), b.as_bytes())
}

/// Whether two runs of octets are the same.
fn same_octets(a: &[u8], b: &[u8]) -> (same: bool)
    ensures
        same == (a@ == b@),
{
    if a.len() != b.len() {
        return false;
    }
    let mut i: usize = 0;
    while i < a.len()
        invariant
            a.len() == b.len(),
            i <= a.len(),
            a@.take(i as int) == b@.take(i as int),
        decreases a.len() - i,
    {
        if a[i] != b[i] {
            return false;
        }
        i = i + 1;
        assert(a@.take(i as int) =~= a@.take(i - 1).push(a@[i - 1]));
        assert(b@.take(i as int) =~= b@.take(i - 1).push(b@[i - 1]));
    }
    assert(a@ =~= a@.take(i as int));
    assert(b@ =~= b@.take(i as int));
    true
}

/// The name of an entry is mapped to that entry's address.
proof fn lemma_present(entries: Seq<ZoneEntry>, at: int)
    requires
        distinct_names(entries),
        0 <= at < entries.len(),
    ensures
        entries_map(entries).dom().contains(entries[at].name@),
        entries_map(entries)[entries[at].name@] == entries[at].address,
    decreases entries.len(),
{
    let init = entries.drop_last();
    let last = entries.len() - 1;
    assert(entries.last() == entries[last]);
    if at < last {
        assert forall|i: int, j: int| 0 <= i < j < init.len() implies (#[trigger] init[i]).name@
            != (#[trigger] init[j]).name@ by {
            assert(init[i] == entries[i] && init[j] == entries[j]);
        }
        assert(init[at] == entries[at]);
        lemma_present(init, at);
        assert(entries[at].name@ != entries[last].name@);
    }
}

/// A name that no entry has is not in the mapping.
proof fn lemma_absent(entries: Seq<ZoneEntry>, name: Seq<char>)
    requires
        forall|i: int| 0 <= i < entries.len() ==> (#[trigger] entries[i]).name@ != name,
    ensures
        !entries_map(entries).dom().contains(name),
    decreases entries.len(),
{
    if entries.len() > 0 {
        let init = entries.drop_last();
        assert forall|i: int| 0 <= i < init.len() implies (#[trigger] init[i]).name@ != name by {
            assert(init[i] == entries[i]);
        }
        lemma_absent(init, name);
        assert(entries.last() == entries[entries.len() - 1]);
    }
}

/// Giving an entry another address maps its name to that address and leaves
/// the other names as they were.
proof fn lemma_replaced(entries: Seq<ZoneEntry>, at: int, entry: ZoneEntry)
    requires
        distinct_names(entries),
        0 <= at < entries.len(),
        entry.name@ == entries[at].name@,
    ensures
        distinct_names(entries.update(at, entry)),
        entries_map(entries.update(at, entry)) == entries_map(entries).insert(
            entry.name@,
            entry.address,
        ),
    decreases entries.len(),
{
    let changed = entries.update(at, entry);
    let init = entries.drop_last();
    let last = entries.len() - 1;
    assert(entries.last() == entries[last]);
    assert(changed.last() == changed[last]);
    assert forall|i: int, j: int| 0 <= i < j < changed.len() implies (#[trigger] changed[i]).name@
        != (#[trigger] changed[j]).name@ by {
        assert(changed[i].name@ == entries[i].name@);
        assert(changed[j].name@ == entries[j].name@);
    }
    if at == last {
        assert(changed.drop_last() =~= init);
        assert(entries_map(changed) =~= entries_map(entries).insert(entry.name@, entry.address));
    } else {
        assert forall|i: int, j: int| 0 <= i < j < init.len() implies (#[trigger] init[i]).name@
            != (#[trigger] init[j]).name@ by {
            assert(init[i] == entries[i] && init[j] == entries[j]);
        }
        assert(init[at] == entries[at]);
        lemma_replaced(init, at, entry);
        assert(changed.drop_last() =~= init.update(at, entry));
        assert(entries[at].name@ != entries[last].name@);
        assert(entries_map(changed) =~= entries_map(entries).insert(entry.name@, entry.address));
    }
}

} // verus!
