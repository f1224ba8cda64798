//! The artifact cache: a deterministic mapping from fingerprint to the
//! bundle a compile produced.
//!
//! A hit hands back the stored bundle byte for byte, so a warm run is
//! byte-equivalent to the cold run that filled the cache and produces
//! nothing anew.  This is the run's in-memory index; size-bounded eviction
//! belongs to the on-disk storage collaborator, which treats a corrupted
//! entry as a miss.

use vstd::prelude::*;
use crate::task::OutputInfo;

verus! {

/// What one compile left behind: its captured stdio and exit status, and
/// each declared output file's bytes under its logical name.
#[derive(Clone, Debug)]
pub struct CacheEntry {
    pub output: OutputInfo,
    pub outputs: Vec<(String, Vec<u8>)>,
}

/// An in-memory artifact cache keyed by fingerprint.  The earliest entry
/// for a fingerprint wins; `store` never replaces one.
pub struct Cache {
    pub entries: Vec<(String, CacheEntry)>,
}

/// The mathematical reading of the stored entries, earliest binding winning.
pub open spec fn cache_view(s: Seq<(String, CacheEntry)>) -> Map<Seq<char>, CacheEntry>
    decreases s.len(),
{
    if s.len() == 0 {
        Map::empty()
    } else {
        cache_view(s.skip(1)).insert(s[0].0@, s[0].1)
    }
}

/// The first entry of a key gives the map's value for it.
proof fn lemma_cache_first_match(s: Seq<(String, CacheEntry)>, key: Seq<char>, i: int)
    requires
        0 <= i < s.len(),
        forall|j: int| 0 <= j < i ==> s[j].0@ != key,
        s[i].0@ == key,
    ensures
        cache_view(s).contains_key(key),
        cache_view(s)[key] == s[i].1,
    decreases i,
{
    if i == 0 {
    } else {
        assert(forall|j: int| 0 <= j < i - 1 ==> s.skip(1)[j].0@ != key);
        lemma_cache_first_match(s.skip(1), key, i - 1);
    }
}

/// A key stored nowhere is absent from the map.
proof fn lemma_cache_absent(s: Seq<(String, CacheEntry)>, key: Seq<char>)
    requires
        forall|j: int| 0 <= j < s.len() ==> s[j].0@ != key,
    ensures
        !cache_view(s).contains_key(key),
    decreases s.len(),
{
    if s.len() > 0 {
        assert(forall|j: int| 0 <= j < s.skip(1).len() ==> s.skip(1)[j].0@ != key);
        lemma_cache_absent(s.skip(1), key);
    }
}

/// Appending an entry binds its key only where the key was unbound.
proof fn lemma_cache_push(s: Seq<(String, CacheEntry)>, b: (String, CacheEntry))
    requires
        !cache_view(s).contains_key(b.0@),
    ensures
        cache_view(s.push(b)) == cache_view(s).insert(b.0@, b.1),
    decreases s.len(),
{
    if s.len() == 0 {
        assert(s.push(b)[0] == b);
        assert(s.push(b).skip(1) =~= Seq::<(String, CacheEntry)>::empty());
        assert(s.push(b).len() == 1);
        assert(cache_view(s.push(b)) == cache_view(s.push(b).skip(1)).insert(
            s.push(b)[0].0@,
            s.push(b)[0].1,
        ));
        assert(cache_view(s.push(b).skip(1)) == Map::<Seq<char>, CacheEntry>::empty());
        assert(cache_view(s) == Map::<Seq<char>, CacheEntry>::empty());
        assert(cache_view(s.push(b)) =~= cache_view(s).insert(b.0@, b.1));
    } else {
        assert(!cache_view(s.skip(1)).contains_key(b.0@)) by {
            if s[0].0@ == b.0@ {
                assert(cache_view(s).contains_key(b.0@));
            } else {
                if cache_view(s.skip(1)).contains_key(b.0@) {
                    assert(cache_view(s).contains_key(b.0@));
                }
            }
        }
        lemma_cache_push(s.skip(1), b);
        assert(s.push(b).skip(1) =~= s.skip(1).push(b));
        assert(s[0].0@ != b.0@);
        assert(cache_view(s.push(b)) =~= cache_view(s).insert(b.0@, b.1));
    }
}

impl Cache {
    pub open spec fn view(&self) -> Map<Seq<char>, CacheEntry> {
        cache_view(self.entries@)
    }

    pub fn new() -> (r: Cache)
        ensures
            r@ == Map::<Seq<char>, CacheEntry>::empty(),
    {
        Cache { entries: Vec::new() }
    }

    /// Look a fingerprint up: a hit hands back exactly the stored bundle.
    pub fn lookup(&self, fingerprint: &String) -> (r: Option<&CacheEntry>)
        ensures
            match r {
                Some(e) => self@.contains_key(fingerprint@) && *e == self@[fingerprint@],
                None => !self@.contains_key(fingerprint@),
            },
    {
        let n = self.entries.len();
        let mut i: usize = 0;
        while i < n
            invariant
                n == self.entries.len(),
                i <= n,
                forall|j: int| 0 <= j < i ==> self.entries@[j].0@ != fingerprint@,
            decreases n - i,
        {
            if self.entries[i].0 == *fingerprint {
                proof {
                    lemma_cache_first_match(self.entries@, fingerprint@, i as int);
                }
                return Some(&self.entries[i].1);
            }
            i = i + 1;
        }
        proof {
            lemma_cache_absent(self.entries@, fingerprint@);
        }
        None
    }

    /// Whether a compile with this fingerprint still has to run.
    pub fn needs_produce(&self, fingerprint: &String) -> (r: bool)
        ensures
            r == !self@.contains_key(fingerprint@),
    {
        match self.lookup(fingerprint) {
            Some(_) => false,
            None => true,
        }
    }

    /// Store the bundle a fresh compile produced.  Only a fingerprint not
    /// yet present is stored: an entry, once written, never changes.
    pub fn store(&mut self, fingerprint: String, entry: CacheEntry)
        requires
            !old(self)@.contains_key(fingerprint@),
        ensures
            final(self)@ == old(self)@.insert(fingerprint@, entry),
    {
        let ghost old_entries = self.entries@;
        self.entries.push((fingerprint, entry));
        proof {
            lemma_cache_push(old_entries, self.entries@[old_entries.len() as int]);
        }
    }
}

/// A warm cache answers a repeated fingerprint with exactly the bundle the
/// first run stored: the second run's outputs are byte-identical and no
/// producer has to run again.
pub proof fn lemma_cache_hit_equals_miss(
    m: Map<Seq<char>, CacheEntry>,
    fingerprint: Seq<char>,
    entry: CacheEntry,
)
    ensures
        m.insert(fingerprint, entry).contains_key(fingerprint),
        m.insert(fingerprint, entry)[fingerprint] == entry,
{
}

} // verus!
