//! The content-addressed cache: per file, the hash of its bytes and the
//! class/identifier sets derived from it. An entry is served only while the
//! live file's hash equals the stored one; on any divergence the caller
//! recomputes. One directory's entries are persisted together (see the
//! codec module).

use vstd::prelude::*;

use crate::strset::NameSet;
use crate::text::str_eq;

verus! {

/// The 64-bit FNV-1a hash of the first `n` bytes.
pub open spec fn fnv1a_upto(bytes: Seq<u8>, n: int) -> u64
    decreases n,
{
    if n <= 0 {
        0xcbf29ce484222325u64
    } else {
        (((fnv1a_upto(bytes, n - 1) ^ (bytes[n - 1] as u64)) as int * 0x100000001b3)
            % 0x10000000000000000) as u64
    }
}

/// The 64-bit FNV-1a hash of a byte sequence.
pub open spec fn fnv1a(bytes: Seq<u8>) -> u64 {
    fnv1a_upto(bytes, bytes.len() as int)
}

/// The fast, non-cryptographic hash of a file's raw bytes, used as its
/// content address.
pub fn content_hash(bytes: &[u8]) -> (r: u64)
    ensures
        r == fnv1a(bytes@),
{
    let mut h: u64 = 0xcbf29ce484222325;
    let mut i: usize = 0;
    while i < bytes.len()
        invariant
            i <= bytes@.len(),
            h == fnv1a_upto(bytes@, i as int),
        decreases bytes@.len() - i,
    {
        let b = bytes[i];
        h = (h ^ (b as u64)).wrapping_mul(0x100000001b3);
        i += 1;
    }
    h
}

/// The derived state of one source file: its content hash and the class and
/// identifier sets extracted from it.
pub struct FileEntry {
    pub path: String,
    pub content_hash: u64,
    pub classes: NameSet,
    pub ids: NameSet,
}

impl FileEntry {
    /// Well-formed: both name sets are.
    pub open spec fn wf(&self) -> bool {
        self.classes.wf() && self.ids.wf()
    }
}

/// One directory's cache: its files' entries, keyed by path.
pub struct DirCache {
    pub entries: Vec<FileEntry>,
}



impl DirCache {
    /// Paths are unique and every entry is well formed.
    pub open spec fn wf(&self) -> bool {
        &&& forall|i: int, j: int|
            0 <= i < j < self.entries@.len() ==> (#[trigger] self.entries@[i]).path@ != (
            #[trigger] self.entries@[j]).path@
        &&& forall|i: int| 0 <= i < self.entries@.len() ==> (#[trigger] self.entries@[i]).wf()
    }

    /// Whether some entry is stored under `path`.
    pub open spec fn has_path(&self, path: Seq<char>) -> bool {
        exists|k: int| 0 <= k < self.entries@.len() && (#[trigger] self.entries@[k]).path@ == path
    }

    /// The entry stored under `path`.
    pub open spec fn entry_at(&self, path: Seq<char>) -> FileEntry {
        self.entries@[choose|k: int|
            0 <= k < self.entries@.len() && (#[trigger] self.entries@[k]).path@ == path]
    }

    /// Two entries with the same path are the same entry.
    pub proof fn lemma_unique(&self, i: int, k: int)
        requires
            self.wf(),
            0 <= i < self.entries@.len(),
            0 <= k < self.entries@.len(),
            self.entries@[i].path@ == self.entries@[k].path@,
        ensures
            i == k,
    {
        if i < k {
            assert((#[trigger] self.entries@[i]).path@ != self.entries@[k].path@);
        } else if k < i {
            assert((#[trigger] self.entries@[k]).path@ != self.entries@[i].path@);
        }
    }

    /// Every entry of a well-formed cache is well formed.
    pub proof fn lemma_entry_wf(&self, k: int)
        requires
            self.wf(),
            0 <= k < self.entries@.len(),
        ensures
            self.entries@[k].wf(),
    {
        assert((#[trigger] self.entries@[k]).wf());
    }

    /// The entry at index `k` is the one found under its path.
    pub proof fn lemma_entry_at_index(&self, k: int)
        requires
            self.wf(),
            0 <= k < self.entries@.len(),
        ensures
            self.has_path(self.entries@[k].path@),
            self.entry_at(self.entries@[k].path@) == self.entries@[k],
    {
        let p = self.entries@[k].path@;
        assert(self.has_path(p)) by {
            assert((#[trigger] self.entries@[k]).path@ == p);
        }
        let k2 = choose|j: int|
            0 <= j < self.entries@.len() && (#[trigger] self.entries@[j]).path@ == p;
        self.lemma_unique(k, k2);
    }

    /// An empty cache.
    pub fn new() -> (r: DirCache)
        ensures
            r.wf(),
            r.entries@.len() == 0,
    {
        DirCache { entries: Vec::new() }
    }

    /// Content-addressed lookup: the entry for `path` is served only when
    /// its stored hash equals `hash`, the hash of the file's live bytes;
    /// a missing entry or a stale one yields nothing, so stale data is
    /// never served and a hit never requires reparsing.
    pub fn lookup<'a>(&'a self, path: &str, hash: u64) -> (r: Option<&'a FileEntry>)
        requires
            self.wf(),
        ensures
            match r {
                Some(e) => self.has_path(path@) && *e == self.entry_at(path@)
                    && e.content_hash == hash,
                None => !self.has_path(path@) || self.entry_at(path@).content_hash != hash,
            },
    {
        let mut i: usize = 0;
        while i < self.entries.len()
            invariant
                self.wf(),
                i <= self.entries@.len(),
                forall|k: int| 0 <= k < i ==> (#[trigger] self.entries@[k]).path@ != path@,
            decreases self.entries@.len() - i,
        {
            if str_eq(self.entries[i].path.as_str(), path) {
                proof {
                    assert(self.entries@[i as int].path@ == path@);
                    self.lemma_entry_at_index(i as int);
                }
                if self.entries[i].content_hash == hash {
                    return Some(&self.entries[i]);
                } else {
                    return None;
                }
            }
            i += 1;
        }
        proof {
            if self.has_path(path@) {
                let k = choose|k: int|
                    0 <= k < self.entries@.len() && (#[trigger] self.entries@[k]).path@ == path@;
                assert(false);
            }
        }
        None
    }

    /// Stores `entry` for its path, replacing any earlier entry under the
    /// same path and keeping every other entry.
    pub fn upsert(&mut self, entry: FileEntry)
        requires
            old(self).wf(),
            entry.wf(),
        ensures
            final(self).wf(),
            final(self).has_path(entry.path@),
            final(self).entry_at(entry.path@) == entry,
            forall|p: Seq<char>|
                p != entry.path@ ==> #[trigger] final(self).has_path(p) == old(self).has_path(p),
            forall|p: Seq<char>|
                p != entry.path@ && old(self).has_path(p) ==> #[trigger] final(self).entry_at(p)
                    == old(self).entry_at(p),
    {
        let ghost eval = entry;
        let mut i: usize = 0;
        while i < self.entries.len()
            invariant
                old(self).wf(),
                entry.wf(),
                entry == eval,
                i <= self.entries@.len(),
                self.entries@ == old(self).entries@,
                forall|k: int|
                    0 <= k < i ==> (#[trigger] old(self).entries@[k]).path@ != eval.path@,
            decreases self.entries@.len() - i,
        {
            if str_eq(self.entries[i].path.as_str(), entry.path.as_str()) {
                proof {
                    assert(old(self).entries@[i as int].path@ == eval.path@);
                }
                self.entries.set(i, entry);
                proof {
                    assert(self.entries@ == old(self).entries@.update(i as int, eval));
                    assert(self.entries@.len() == old(self).entries@.len());
                    assert(self.entries@[i as int] == eval);
                    assert(forall|k: int|
                        0 <= k < self.entries@.len() && k != i as int
                            ==> #[trigger] self.entries@[k] == old(self).entries@[k]);
                    assert(self.wf()) by {
                        assert forall|x: int, y: int|
                            0 <= x < y < self.entries@.len() implies (
                        #[trigger] self.entries@[x]).path@ != (#[trigger] self.entries@[y]).path@
                            by {
                            if self.entries@[x].path@ == self.entries@[y].path@ {
                                let ox: int = x;
                                let oy: int = y;
                                assert(old(self).entries@[ox].path@ == self.entries@[x].path@);
                                assert(old(self).entries@[oy].path@ == self.entries@[y].path@);
                                old(self).lemma_unique(ox, oy);
                                assert(false);
                            }
                        }
                        assert forall|k: int|
                            0 <= k < self.entries@.len() implies (
                        #[trigger] self.entries@[k]).wf() by {
                            if k != i as int {
                                old(self).lemma_entry_wf(k);
                            }
                        }
                    }
                    self.lemma_entry_at_index(i as int);
                    assert forall|p: Seq<char>|
                        p != eval.path@ implies #[trigger] self.has_path(p) == old(self).has_path(
                        p,
                    ) by {
                        if old(self).has_path(p) {
                            let k = choose|k: int|
                                0 <= k < old(self).entries@.len() && (#[trigger] old(
                                    self,
                                ).entries@[k]).path@ == p;
                            assert(k != i as int);
                            assert(self.entries@[k].path@ == p);
                            self.lemma_entry_at_index(k);
                        }
                        if self.has_path(p) {
                            let k = choose|k: int|
                                0 <= k < self.entries@.len() && (#[trigger] self.entries@[k]).path@
                                    == p;
                            assert(k != i as int);
                            assert(old(self).entries@[k].path@ == p);
                            old(self).lemma_entry_at_index(k);
                        }
                    }
                    assert forall|p: Seq<char>|
                        p != eval.path@ && old(self).has_path(p) implies #[trigger] self.entry_at(
                        p,
                    ) == old(self).entry_at(p) by {
                        let k = choose|k: int|
                            0 <= k < old(self).entries@.len() && (#[trigger] old(
                                self,
                            ).entries@[k]).path@ == p;
                        assert(k != i as int);
                        old(self).lemma_entry_at_index(k);
                        assert(self.entries@[k].path@ == p);
                        self.lemma_entry_at_index(k);
                    }
                }
                return ;
            }
            i += 1;
        }
        proof {
            if old(self).has_path(eval.path@) {
                let k = choose|k: int|
                    0 <= k < old(self).entries@.len() && (#[trigger] old(self).entries@[k]).path@
                        == eval.path@;
                assert(false);
            }
        }
        self.entries.push(entry);
        proof {
            let n = old(self).entries@.len() as int;
            assert(self.entries@ == old(self).entries@.push(eval));
            assert(self.entries@.len() == n + 1);
            assert(self.entries@[n] == eval);
            assert(forall|k: int|
                0 <= k < n ==> #[trigger] self.entries@[k] == old(self).entries@[k]);
            assert(self.wf()) by {
                assert forall|x: int, y: int|
                    0 <= x < y < self.entries@.len() implies (#[trigger] self.entries@[x]).path@
                    != (#[trigger] self.entries@[y]).path@ by {
                    if self.entries@[x].path@ == self.entries@[y].path@ {
                        if y == n {
                            assert(old(self).entries@[x].path@ == eval.path@);
                            assert(old(self).has_path(eval.path@));
                            assert(false);
                        } else {
                            old(self).lemma_unique(x, y);
                            assert(false);
                        }
                    }
                }
                assert forall|k: int| 0 <= k < self.entries@.len() implies (
                #[trigger] self.entries@[k]).wf() by {
                    if k != n {
                        old(self).lemma_entry_wf(k);
                    }
                }
            }
            self.lemma_entry_at_index(n);
            assert forall|p: Seq<char>|
                p != eval.path@ implies #[trigger] self.has_path(p) == old(self).has_path(p) by {
                if old(self).has_path(p) {
                    let k = choose|k: int|
                        0 <= k < old(self).entries@.len() && (#[trigger] old(
                            self,
                        ).entries@[k]).path@ == p;
                    assert(self.entries@[k].path@ == p);
                    self.lemma_entry_at_index(k);
                }
                if self.has_path(p) {
                    let k = choose|k: int|
                        0 <= k < self.entries@.len() && (#[trigger] self.entries@[k]).path@ == p;
                    assert(k != n);
                    assert(old(self).entries@[k].path@ == p);
                    old(self).lemma_entry_at_index(k);
                }
            }
            assert forall|p: Seq<char>|
                p != eval.path@ && old(self).has_path(p) implies #[trigger] self.entry_at(p) == old(
                self,
            ).entry_at(p) by {
                let k = choose|k: int|
                    0 <= k < old(self).entries@.len() && (#[trigger] old(self).entries@[k]).path@
                        == p;
                old(self).lemma_entry_at_index(k);
                assert(self.entries@[k].path@ == p);
                self.lemma_entry_at_index(k);
            }
        }
    }

    /// Drops the entry for `path`, if any; every other entry is kept. Used
    /// when a file vanishes: its contribution leaves the working set.
    pub fn remove_path(&mut self, path: &str)
        requires
            old(self).wf(),
        ensures
            final(self).wf(),
            !final(self).has_path(path@),
            forall|p: Seq<char>|
                p != path@ ==> #[trigger] final(self).has_path(p) == old(self).has_path(p),
            forall|p: Seq<char>|
                p != path@ && old(self).has_path(p) ==> #[trigger] final(self).entry_at(p) == old(
                    self,
                ).entry_at(p),
    {
        let mut i: usize = 0;
        while i < self.entries.len()
            invariant
                old(self).wf(),
                i <= self.entries@.len(),
                self.entries@ == old(self).entries@,
                forall|k: int| 0 <= k < i ==> (#[trigger] old(self).entries@[k]).path@ != path@,
            decreases self.entries@.len() - i,
        {
            if str_eq(self.entries[i].path.as_str(), path) {
                proof {
                    assert(old(self).entries@[i as int].path@ == path@);
                }
                self.entries.remove(i);
                proof {
                    let n = old(self).entries@.len() as int;
                    assert(self.entries@ == old(self).entries@.remove(i as int));
                    assert(self.entries@.len() == n - 1);
                    assert(forall|k: int|
                        0 <= k < n - 1 ==> #[trigger] self.entries@[k] == (if k < i as int {
                            old(self).entries@[k]
                        } else {
                            old(self).entries@[k + 1]
                        }));
                    assert(self.wf()) by {
                        assert forall|x: int, y: int|
                            0 <= x < y < self.entries@.len() implies (
                        #[trigger] self.entries@[x]).path@ != (#[trigger] self.entries@[y]).path@
                            by {
                            if self.entries@[x].path@ == self.entries@[y].path@ {
                                let ox: int = if x < i as int { x } else { x + 1 };
                                let oy: int = if y < i as int { y } else { y + 1 };
                                assert(old(self).entries@[ox].path@ == self.entries@[x].path@);
                                assert(old(self).entries@[oy].path@ == self.entries@[y].path@);
                                old(self).lemma_unique(ox, oy);
                                assert(false);
                            }
                        }
                        assert forall|k: int|
                            0 <= k < self.entries@.len() implies (
                        #[trigger] self.entries@[k]).wf() by {
                            if k < i as int {
                                old(self).lemma_entry_wf(k);
                            } else {
                                old(self).lemma_entry_wf(k + 1);
                            }
                        }
                    }
                    assert(!self.has_path(path@)) by {
                        if self.has_path(path@) {
                            let k = choose|k: int|
                                0 <= k < self.entries@.len() && (#[trigger] self.entries@[k]).path@
                                    == path@;
                            let ok: int = if k < i as int { k } else { k + 1 };
                            assert(old(self).entries@[ok].path@ == path@);
                            old(self).lemma_unique(ok, i as int);
                            assert(false);
                        }
                    }
                    assert forall|p: Seq<char>|
                        p != path@ implies #[trigger] self.has_path(p) == old(self).has_path(p) by {
                        if old(self).has_path(p) {
                            let k = choose|k: int|
                                0 <= k < old(self).entries@.len() && (#[trigger] old(
                                    self,
                                ).entries@[k]).path@ == p;
                            assert(k != i as int);
                            let nk: int = if k < i as int { k } else { k - 1 };
                            assert(self.entries@[nk].path@ == p);
                            self.lemma_entry_at_index(nk);
                        }
                        if self.has_path(p) {
                            let k = choose|k: int|
                                0 <= k < self.entries@.len() && (#[trigger] self.entries@[k]).path@
                                    == p;
                            let ok: int = if k < i as int { k } else { k + 1 };
                            assert(old(self).entries@[ok].path@ == p);
                            old(self).lemma_entry_at_index(ok);
                        }
                    }
                    assert forall|p: Seq<char>|
                        p != path@ && old(self).has_path(p) implies #[trigger] self.entry_at(p)
                            == old(self).entry_at(p) by {
                        let k = choose|k: int|
                            0 <= k < old(self).entries@.len() && (#[trigger] old(
                                self,
                            ).entries@[k]).path@ == p;
                        assert(k != i as int);
                        old(self).lemma_entry_at_index(k);
                        let nk: int = if k < i as int { k } else { k - 1 };
                        assert(self.entries@[nk] == old(self).entries@[k]);
                        assert(self.entries@[nk].path@ == p);
                        self.lemma_entry_at_index(nk);
                    }
                }
                return ;
            }
            i += 1;
        }
        proof {
            if self.has_path(path@) {
                let k = choose|k: int|
                    0 <= k < self.entries@.len() && (#[trigger] self.entries@[k]).path@ == path@;
                assert(false);
            }
        }
    }
}

} // verus!
