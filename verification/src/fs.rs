use vstd::prelude::*;

verus! {

/// A storage failure, as callers of the capability see it: the name is
/// not stored, or the backing store itself failed.
#[derive(Debug, Clone, Copy, PartialEq, Eq, Structural)]
pub enum FsError {
    NotFound,
    IOError,
}

/// The storage capability the core's callers consume: named texts, read
/// and written whole. The core itself performs no storage access. The
/// trait promises nothing of its implementations, because one backed by
/// real storage may fail with `IOError` at any time; the deterministic
/// in-memory store below states on its own methods what it does.
pub trait FileSystem {
    /// Reads the text stored under `path`.
    fn read_to_string(&self, path: &str) -> Result<String, FsError>;

    /// Stores `content` under `path`, replacing what the name held.
    fn write_string(&mut self, path: &str, content: &str) -> Result<(), FsError>;
}

/// The map an entry list stands for. The earliest entry for a name wins,
/// so putting an entry in front replaces what its name held.
pub open spec fn map_of(entries: Seq<(String, String)>) -> Map<Seq<char>, Seq<char>>
    decreases entries.len(),
{
    if entries.len() == 0 {
        Map::empty()
    } else {
        map_of(entries.drop_first()).insert(entries[0].0@, entries[0].1@)
    }
}

/// The entry for `key` nearest the front is the one the map holds.
proof fn lemma_map_of_first_hit(entries: Seq<(String, String)>, key: Seq<char>, i: int)
    requires
        0 <= i < entries.len(),
        entries[i].0@ == key,
        forall|m: int| 0 <= m < i ==> (#[trigger] entries[m]).0@ != key,
    ensures
        map_of(entries).contains_key(key),
        map_of(entries)[key] == entries[i].1@,
    decreases i,
{
    if i > 0 {
        lemma_map_of_first_hit(entries.drop_first(), key, i - 1);
        assert(forall|m: int|
            1 <= m < entries.len() ==> #[trigger] entries[m] == entries.drop_first()[m - 1]);
    }
}

/// A name no entry carries is not in the map.
proof fn lemma_map_of_miss(entries: Seq<(String, String)>, key: Seq<char>)
    requires
        forall|m: int| 0 <= m < entries.len() ==> (#[trigger] entries[m]).0@ != key,
    ensures
        !map_of(entries).contains_key(key),
    decreases entries.len(),
{
    if entries.len() > 0 {
        lemma_map_of_miss(entries.drop_first(), key);
        assert(forall|m: int|
            1 <= m < entries.len() ==> #[trigger] entries[m] == entries.drop_first()[m - 1]);
    }
}

/// A deterministic in-memory store, for exercising the core without real
/// storage. Writes put the new entry in front; since the earliest entry
/// for a name wins, older entries for it are shadowed.
#[derive(Debug)]
pub struct InMemoryFs {
    entries: Vec<(String, String)>,
}

impl InMemoryFs {
    /// The stored texts, by name.
    pub closed spec fn files(&self) -> Map<Seq<char>, Seq<char>> {
        map_of(self.entries@)
    }

    /// An empty store.
    pub fn new() -> (fs: InMemoryFs)
        ensures
            fs.files() == Map::<Seq<char>, Seq<char>>::empty(),
    {
        InMemoryFs { entries: Vec::new() }
    }
}

impl FileSystem for InMemoryFs {
    /// Reading gives back exactly the text stored under `path`, and fails
    /// with `NotFound` exactly when the name holds nothing.
    fn read_to_string(&self, path: &str) -> (r: Result<String, FsError>)
        ensures
            match r {
                Ok(content) => self.files().contains_key(path@) && content@ == self.files()[
                    path@
                ],
                Err(FsError::NotFound) => !self.files().contains_key(path@),
                Err(FsError::IOError) => false,
            },
    {
        let key: String = path.to_owned();
        let mut i: usize = 0;
        while i < self.entries.len()
            invariant
                i <= self.entries@.len(),
                key@ == path@,
                forall|m: int| 0 <= m < i ==> (#[trigger] self.entries@[m]).0@ != path@,
            decreases self.entries@.len() - i,
        {
            if self.entries[i].0 == key {
                proof {
                    lemma_map_of_first_hit(self.entries@, path@, i as int);
                }
                return Ok(self.entries[i].1.clone());
            }
            i += 1;
        }
        proof {
            lemma_map_of_miss(self.entries@, path@);
        }
        Err(FsError::NotFound)
    }

    /// Writing always succeeds and stores exactly `content` under `path`.
    fn write_string(&mut self, path: &str, content: &str) -> (r: Result<(), FsError>)
        ensures
            r is Ok,
            final (self).files() == old(self).files().insert(path@, content@),
    {
        let pair = (path.to_owned(), content.to_owned());
        self.entries.insert(0, pair);
        proof {
            assert(self.entries@.drop_first() =~= old(self).entries@);
            assert(self.entries@[0].0@ == path@ && self.entries@[0].1@ == content@);
            assert(map_of(self.entries@) == map_of(old(self).entries@).insert(path@, content@));
        }
        Ok(())
    }
}

} // verus!
