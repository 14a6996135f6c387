//! Swarm statistics of one torrent, and the map of them that a tracker returns.
use crate::infohash::{group_info_hash, InfoHash};
use crate::wire::{be_u32_of, PacketError, TryBytes, TryFromBuf};
use vstd::prelude::*;

verus! {

broadcast use group_info_hash;

/// Seeders, leechers and completed downloads of one torrent.
#[derive(Clone, Copy, Debug, PartialEq, Eq, Structural)]
pub struct Scrape {
    pub complete: u32,
    pub incomplete: u32,
    pub downloaded: u32,
}

impl TryFromBuf for Scrape {
    open spec fn width() -> nat {
        12
    }

    /// On the wire: seeders, then completed, then leechers.
    open spec fn from_be(b: Seq<u8>) -> Scrape {
        Scrape {
            complete: be_u32_of(b) as u32,
            downloaded: be_u32_of(b.subrange(4, 8)) as u32,
            incomplete: be_u32_of(b.subrange(8, 12)) as u32,
        }
    }

    proof fn lemma_width_positive() {
    }

    fn try_from_buf(buf: &mut TryBytes) -> (r: Result<Scrape, PacketError>) {
        let ghost start = buf.rest();
        if buf.remaining() < 12 {
            return Err(PacketError::Short);
        }
        let seeders = buf.try_get_u32()?;
        let completed = buf.try_get_u32()?;
        let leechers = buf.try_get_u32()?;
        proof {
            assert(start.subrange(4, start.len() as int).subrange(4, start.len() - 4)
                =~= start.subrange(8, start.len() as int));
            assert(start.subrange(4, start.len() as int) =~= start.subrange(4, start.len() as int));
            assert(be_u32_of(start.subrange(4, start.len() as int)) == be_u32_of(start.subrange(4, 8)));
            assert(be_u32_of(start.subrange(8, start.len() as int)) == be_u32_of(start.subrange(8, 12)));
        }
        Ok(Scrape { complete: seeders, incomplete: leechers, downloaded: completed })
    }
}

/// Scrapes keyed by info-hash, each key once.
#[derive(Debug)]
pub struct ScrapeMap {
    entries: Vec<(InfoHash, Scrape)>,
}

/// The keys of `entries`, in order.
pub open spec fn keys_of(entries: Seq<(InfoHash, Scrape)>) -> Seq<Seq<u8>> {
    entries.map_values(|e: (InfoHash, Scrape)| e.0@)
}

/// The position of the entry with key `k`.
pub open spec fn slot_of(entries: Seq<(InfoHash, Scrape)>, k: Seq<u8>) -> int {
    choose|i: int| 0 <= i < entries.len() && entries[i].0@ == k
}

impl ScrapeMap {
    #[verifier::type_invariant]
    spec fn inv(&self) -> bool {
        keys_of(self.entries@).no_duplicates()
    }

    pub closed spec fn view(&self) -> Map<Seq<u8>, Scrape> {
        Map::new(
            |k: Seq<u8>| keys_of(self.entries@).contains(k),
            |k: Seq<u8>| self.entries@[slot_of(self.entries@, k)].1,
        )
    }

    proof fn lemma_lookup(&self, i: int)
        requires
            0 <= i < self.entries@.len(),
            keys_of(self.entries@).no_duplicates(),
        ensures
            self.view().contains_key(self.entries@[i].0@),
            self.view()[self.entries@[i].0@] == self.entries@[i].1,
    {
        let e = self.entries@;
        let k = e[i].0@;
        assert(keys_of(e)[i] == k);
        assert(keys_of(e).contains(k));
        assert(self.view().contains_key(k));
        let j = slot_of(e, k);
        assert(0 <= j < e.len() && e[j].0@ == k);
        assert(keys_of(e)[j] == k);
        assert(j == i);
    }

    pub fn new() -> (r: ScrapeMap)
        ensures
            r.view() == Map::<Seq<u8>, Scrape>::empty(),
    {
        let r = ScrapeMap { entries: Vec::new() };
        assert(r.view() =~= Map::<Seq<u8>, Scrape>::empty());
        r
    }

    fn find(&self, key: &InfoHash) -> (r: Option<usize>)
        ensures
            r is Some ==> r->0 < self.entries@.len() && self.entries@[r->0 as int].0@ == key@,
            r is None ==> !self.view().contains_key(key@),
    {
        let mut i: usize = 0;
        while i < self.entries.len()
            invariant
                i <= self.entries@.len(),
                forall|j: int| 0 <= j < i ==> self.entries@[j].0@ != key@,
            decreases self.entries@.len() - i,
        {
            if self.entries[i].0.same_as(key) {
                return Some(i);
            }
            i = i + 1;
        }
        proof {
            if keys_of(self.entries@).contains(key@) {
                let j = choose|j: int| 0 <= j < keys_of(self.entries@).len()
                    && keys_of(self.entries@)[j] == key@;
                assert(self.entries@[j].0@ == key@);
            }
        }
        None
    }

    pub fn get(&self, key: &InfoHash) -> (r: Option<Scrape>)
        ensures
            r == (if self.view().contains_key(key@) {
                Some(self.view()[key@])
            } else {
                None::<Scrape>
            }),
    {
        match self.find(key) {
            Some(i) => {
                proof {
                    use_type_invariant(self);
                    self.lemma_lookup(i as int);
                }
                Some(self.entries[i].1)
            },
            None => None,
        }
    }

    /// Sets the scrape of `key`, replacing an earlier one.
    pub fn insert(&mut self, key: InfoHash, value: Scrape)
        ensures
            final(self).view() == old(self).view().insert(key@, value),
    {
        proof {
            use_type_invariant(&*self);
        }
        let ghost old_entries = self.entries@;
        let ghost old_map = self.view();
        let found = self.find(&key);
        let ghost target = match found {
            Some(i) => old_entries.update(i as int, (key, value)),
            None => old_entries.push((key, value)),
        };
        let n = self.entries.len();
        let mut e: Vec<(InfoHash, Scrape)> = Vec::new();
        let mut j: usize = 0;
        while j < n
            invariant
                n == old_entries.len(),
                self.entries@ == old_entries,
                j <= n,
                found is Some ==> found->0 < n,
                target == match found {
                    Some(i) => old_entries.update(i as int, (key, value)),
                    None => old_entries.push((key, value)),
                },
                e@ == target.subrange(0, j as int),
            decreases n - j,
        {
            let is_key = match found {
                Some(i) => i == j,
                None => false,
            };
            if is_key {
                e.push((key, value));
            } else {
                e.push(self.entries[j]);
            }
            j = j + 1;
            assert(e@ =~= target.subrange(0, j as int));
        }
        if found.is_none() {
            e.push((key, value));
        }
        assert(e@ =~= target);
        proof {
            match found {
                Some(i) => {
                    assert(keys_of(e@) =~= keys_of(old_entries));
                },
                None => {
                    assert(keys_of(e@) =~= keys_of(old_entries).push(key@));
                    assert(!keys_of(old_entries).contains(key@)) by {
                        if keys_of(old_entries).contains(key@) {
                            let j = choose|j: int| 0 <= j < keys_of(old_entries).len()
                                && keys_of(old_entries)[j] == key@;
                            assert(old_entries[j].0@ == key@);
                        }
                    }
                    assert forall|a: int, b: int|
                        0 <= a < keys_of(e@).len() && 0 <= b < keys_of(e@).len() && a != b
                        implies keys_of(e@)[a] != keys_of(e@)[b] by {
                        if b == keys_of(e@).len() - 1 {
                            assert(keys_of(old_entries)[a] == keys_of(e@)[a]);
                        } else if a == keys_of(e@).len() - 1 {
                            assert(keys_of(old_entries)[b] == keys_of(e@)[b]);
                        } else {
                            assert(keys_of(old_entries)[a] != keys_of(old_entries)[b]);
                        }
                    }
                },
            }
        }
        let ghost found_at = found;
        *self = ScrapeMap { entries: e };
        proof {
            let e = self.entries@;
            assert forall|k: Seq<u8>| #[trigger] self.view().contains_key(k) == old_map.insert(
                key@,
                value,
            ).contains_key(k) by {
                if keys_of(old_entries).contains(k) {
                    let j = choose|j: int| 0 <= j < keys_of(old_entries).len()
                        && keys_of(old_entries)[j] == k;
                    if k != key@ {
                        assert(keys_of(e)[j] == k);
                    }
                }
                if keys_of(e).contains(k) && k != key@ {
                    let j = choose|j: int| 0 <= j < keys_of(e).len() && keys_of(e)[j] == k;
                    assert(keys_of(old_entries)[j] == k);
                }
                match found_at {
                    Some(i) => {
                        assert(keys_of(e)[i as int] == key@);
                    },
                    None => {
                        assert(keys_of(e)[old_entries.len() as int] == key@);
                    },
                }
            }
            assert forall|k: Seq<u8>| self.view().contains_key(k) implies #[trigger] self.view()[k]
                == old_map.insert(key@, value)[k] by {
                let j = choose|j: int| 0 <= j < keys_of(e).len() && keys_of(e)[j] == k;
                assert(e[j].0@ == k);
                self.lemma_lookup(j);
                if k != key@ {
                    assert(j < old_entries.len());
                    assert(old_entries[j] == e[j]);
                    assert(keys_of(old_entries)[j] == k);
                    let oj = slot_of(old_entries, k);
                    assert(0 <= oj < old_entries.len() && old_entries[oj].0@ == k);
                    assert(keys_of(old_entries)[oj] == k);
                    assert(oj == j);
                    assert(keys_of(old_entries).contains(k));
                    assert(old_map[k] == old_entries[oj].1);
                } else {
                    let at: int = match found_at {
                        Some(i) => i as int,
                        None => old_entries.len() as int,
                    };
                    assert(e[at] == (key, value));
                    assert(keys_of(e)[at] == k);
                    assert(keys_of(e).no_duplicates());
                    assert(at == j);
                }
            }
            assert(self.view() =~= old_map.insert(key@, value));
        }
    }

    pub fn len(&self) -> (r: usize)
        ensures
            r == self.view().dom().len(),
    {
        proof {
            use_type_invariant(self);
            keys_of(self.entries@).unique_seq_to_set();
            assert(self.view().dom() =~= keys_of(self.entries@).to_set());
        }
        self.entries.len()
    }

    pub fn is_empty(&self) -> (r: bool)
        ensures
            r == (self.view().dom().len() == 0),
    {
        self.len() == 0
    }
}

} // verus!
