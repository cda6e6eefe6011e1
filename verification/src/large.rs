//! The large tier: strings of 127 bytes and more, each kept as an
//! individually allocated entry that carries its precomputed 64-bit hash
//! and the string bytes. Entries of a shard form a list that only ever
//! grows at its tail.
//!
//! A search compares the stored hash first and the bytes after it, so two
//! distinct strings never collapse onto one entry even when their hashes
//! collide.

use vstd::prelude::*;

verus! {

use vstd::string::StringSliceAdditionalSpecFns;
use vstd::utf8::valid_utf8;
use crate::hash::{hash_of, hash_str};
use crate::{Loc, PoolInner, PoolStr, shard_of};

/// Smallest byte length served by the large tier.
pub const LARGE_MIN: usize = 127;

/// A large-string entry: the hash of the bytes and the bytes themselves.
#[derive(Debug)]
pub struct LargeEntry {
    pub hash: u64,
    pub bytes: Vec<u8>,
}

impl LargeEntry {
    pub open spec fn wf(self) -> bool {
        &&& self.bytes@.len() >= LARGE_MIN
        &&& valid_utf8(self.bytes@)
        &&& self.hash == hash_of(self.bytes@)
    }
}

/// The index of the first entry from `i` on whose bytes equal `bs`, the
/// order in which a search walks the list.
pub open spec fn find_large_in(entries: Seq<LargeEntry>, bs: Seq<u8>, i: int) -> Option<int>
    decreases entries.len() - i,
{
    if i < 0 || i >= entries.len() {
        None
    } else if entries[i].bytes@ == bs {
        Some(i)
    } else {
        find_large_in(entries, bs, i + 1)
    }
}

/// A successful search yields an entry whose bytes equal the query.
pub proof fn lemma_find_large_some(entries: Seq<LargeEntry>, bs: Seq<u8>, i: int)
    requires
        find_large_in(entries, bs, i) is Some,
    ensures
        i <= find_large_in(entries, bs, i)->0 < entries.len(),
        entries[find_large_in(entries, bs, i)->0].bytes@ == bs,
    decreases entries.len() - i,
{
    if !(i < 0 || i >= entries.len()) && entries[i].bytes@ != bs {
        lemma_find_large_some(entries, bs, i + 1);
    }
}

/// How a search reads the list after an entry is appended: the new entry is
/// found only by its own bytes and only when no earlier entry held them;
/// every other query finds exactly what it found before.
pub proof fn lemma_find_large_push(entries: Seq<LargeEntry>, e: LargeEntry, cs: Seq<u8>, i: int)
    requires
        0 <= i <= entries.len(),
    ensures
        find_large_in(entries.push(e), cs, i) == (if e.bytes@ == cs && find_large_in(entries, cs, i) is None {
            Some(entries.len() as int)
        } else {
            find_large_in(entries, cs, i)
        }),
    decreases entries.len() - i,
{
    if i == entries.len() {
        assert(entries.push(e)[i] == e);
        if e.bytes@ != cs {
            assert(find_large_in(entries.push(e), cs, i + 1) is None);
        }
    } else {
        assert(entries.push(e)[i] == entries[i]);
        lemma_find_large_push(entries, e, cs, i + 1);
    }
}

/// Compares a stored byte vector with a query slice.
pub(crate) fn bytes_eq(v: &Vec<u8>, bs: &[u8]) -> (r: bool)
    ensures
        r <==> v@ == bs@,
{
    let n = v.len();
    if n != bs.len() {
        proof {
            assert(v@.len() != bs@.len());
        }
        return false;
    }
    let mut j: usize = 0;
    while j < n
        invariant
            n == v@.len(),
            n == bs@.len(),
            j <= n,
            forall|m: int| 0 <= m < j ==> v@[m] == bs@[m],
        decreases n - j,
    {
        if v[j] != bs[j] {
            return false;
        }
        j = j + 1;
    }
    proof {
        assert(v@ =~= bs@);
    }
    true
}

/// Searches a shard's large-entry list for `bs`, whose hash is `h`: the
/// index of the first entry holding `bs`. The stored hash is compared
/// before the bytes; under well-formedness a hash mismatch excludes a byte
/// match.
pub fn large_shard_find(entries: &Vec<LargeEntry>, h: u64, bs: &[u8]) -> (r: Option<usize>)
    requires
        forall|j: int| 0 <= j < entries@.len() ==> (#[trigger] entries@[j]).wf(),
        h == hash_of(bs@),
    ensures
        match r {
            Some(o) => find_large_in(entries@, bs@, 0) == Some(o as int),
            None => find_large_in(entries@, bs@, 0) is None,
        },
{
    let n = entries.len();
    let mut i: usize = 0;
    while i < n
        invariant
            forall|j: int| 0 <= j < entries@.len() ==> (#[trigger] entries@[j]).wf(),
            h == hash_of(bs@),
            n == entries@.len(),
            i <= n,
            find_large_in(entries@, bs@, 0) == find_large_in(entries@, bs@, i as int),
        decreases n - i,
    {
        if entries[i].hash == h {
            if bytes_eq(&entries[i].bytes, bs) {
                return Some(i);
            }
        }
        proof {
            assert(entries@[i as int].wf());
        }
        i = i + 1;
    }
    None
}

/// Interns `bs` (with hash `h`) into a shard's large-entry list: returns
/// the index of an existing equal entry, or appends a new entry at the tail
/// and returns its index.
pub fn large_shard_intern(entries: &mut Vec<LargeEntry>, h: u64, bs: &[u8]) -> (r: usize)
    requires
        forall|j: int| 0 <= j < old(entries)@.len() ==> (#[trigger] old(entries)@[j]).wf(),
        h == hash_of(bs@),
        bs@.len() >= LARGE_MIN,
        valid_utf8(bs@),
    ensures
        forall|j: int| 0 <= j < final(entries)@.len() ==> (#[trigger] final(entries)@[j]).wf(),
        match find_large_in(old(entries)@, bs@, 0) {
            Some(o) => r == o && *final(entries) == *old(entries),
            None => {
                &&& r == old(entries)@.len()
                &&& final(entries)@.len() == old(entries)@.len() + 1
                &&& forall|j: int| 0 <= j < old(entries)@.len()
                    ==> final(entries)@[j] == old(entries)@[j]
                &&& final(entries)@[old(entries)@.len() as int].hash == h
                &&& final(entries)@[old(entries)@.len() as int].bytes@ == bs@
            },
        },
{
    match large_shard_find(entries, h, bs) {
        Some(o) => o,
        None => {
            let r = entries.len();
            let entry = LargeEntry { hash: h, bytes: vstd::slice::slice_to_vec(bs) };
            entries.push(entry);
            r
        },
    }
}

impl<const P: usize> PoolInner<P> {
    /// Searches the large tier for the string, in the shard its hash
    /// selects. A found handle counts one more reference.
    pub(crate) fn find_large(&mut self, string: &str) -> (r: Option<PoolStr<P>>)
        requires
            old(self).wf(),
            old(self).ref_count < usize::MAX,
            string.spec_bytes().len() >= LARGE_MIN,
        ensures
            final(self).wf(),
            final(self).pages == old(self).pages,
            final(self).large == old(self).large,
            r == old(self).find_large_spec(string.spec_bytes()),
            r is Some ==> r->0.loc is Large,
            r is Some ==> final(self).handle_valid(r->0) && final(self).handle_bytes(r->0)
                == string.spec_bytes(),
            final(self).ref_count as int == old(self).ref_count + (if r is Some {
                1int
            } else {
                0int
            }),
    {
        let bs = string.as_bytes();
        let h = hash_str(string);
        let k = Self::index_from_hash(h);
        proof {
            assert(old(self).large_shard_wf(k as int));
        }
        let found = large_shard_find(&self.large[k], h, bs);
        match found {
            Some(o) => {
                proof {
                    lemma_find_large_some(self.large[k as int]@, bs@, 0);
                }
                self.inc_ref_count();
                Some(PoolStr { loc: Loc::Large { shard: k, index: o } })
            },
            None => None,
        }
    }

    /// Interns the string into the large tier, in the shard its hash
    /// selects: reuses the first entry already holding its bytes, else
    /// appends a fresh entry at the tail. The handle counts one more
    /// reference.
    pub(crate) fn intern_large(&mut self, string: &str) -> (r: PoolStr<P>)
        requires
            old(self).wf(),
            old(self).ref_count < usize::MAX,
            string.spec_bytes().len() >= LARGE_MIN,
        ensures
            final(self).wf(),
            final(self).pages == old(self).pages,
            final(self).ref_count as int == old(self).ref_count + 1,
            r.loc is Large,
            final(self).handle_valid(r),
            final(self).handle_bytes(r) == string.spec_bytes(),
            final(self).find_large_spec(string.spec_bytes()) == Some(r),
            old(self).find_large_spec(string.spec_bytes()) is Some ==> Some(r) == old(self).find_large_spec(string.spec_bytes()),
            old(self).find_large_spec(string.spec_bytes()) is None ==> r == old(
                self,
            ).large_intern_target(string.spec_bytes()),
            forall|cs: Seq<u8>| cs != string.spec_bytes() ==> #[trigger] final(self).find_large_spec(cs) == old(self).find_large_spec(cs),
            forall|g: PoolStr<P>| #[trigger] old(self).handle_valid(g) ==> final(self).handle_valid(g) && final(self).handle_bytes(g) == old(self).handle_bytes(g),
            forall|k: int|
                0 <= k < P ==> old(self).large[k]@.len() <= (#[trigger] final(self).large[k]@.len()) <= old(self).large[k]@.len() + 1,
            old(self).find_large_spec(string.spec_bytes()) is Some ==> forall|k: int|
                0 <= k < P ==> (#[trigger] final(self).large[k]@.len()) == old(self).large[k]@.len(),
            // entries grow only in the string's own shard, and only when
            // no entry there held its bytes
            forall|k1: int|
                0 <= k1 < P && k1 != shard_of::<P>(string.spec_bytes()) ==> final(self).large[k1]
                    == old(self).large[k1],
            final(self).large[shard_of::<P>(string.spec_bytes())]@.len() == old(self).large[shard_of::<P>(
                string.spec_bytes(),
            )]@.len() + (if old(self).find_large_spec(string.spec_bytes()) is None {
                1int
            } else {
                0int
            }),
    {
        let ghost bsg = string.spec_bytes();
        let ghost inner0 = *old(self);
        let bs = string.as_bytes();
        let h = hash_str(string);
        let k = Self::index_from_hash(h);
        proof {
            assert(inner0.large_shard_wf(k as int));
            vstd::utf8::encode_utf8_valid_utf8(string@);
        }
        let ghost es0 = self.large[k as int]@;
        let idx = large_shard_intern(&mut self.large[k], h, bs);
        self.inc_ref_count();
        let r = PoolStr { loc: Loc::Large { shard: k, index: idx } };
        proof {
            let es1 = self.large[k as int]@;
            assert(self.large@ =~= inner0.large@.update(k as int, self.large@[k as int]));
            assert(forall|k1: int|
                0 <= k1 < P && k1 != k ==> self.large[k1] == inner0.large[k1]);
            if find_large_in(es0, bsg, 0) is Some {
                // reuse: the shard is unchanged
                lemma_find_large_some(es0, bsg, 0);
                assert(es1 =~= es0);
                assert forall|k1: int| 0 <= k1 < P implies self.large_shard_wf(k1) by {
                    assert(inner0.large_shard_wf(k1));
                    if k1 == k as int {
                        assert(self.large[k1]@ == inner0.large[k1]@);
                    }
                }
                assert forall|k1: int| 0 <= k1 < P implies (#[trigger] final(self).large[k1]@.len()) == inner0.large[k1]@.len() by {
                    if k1 != k as int {
                        assert(self.large[k1] == inner0.large[k1]);
                    }
                }
            } else {
                // a fresh entry was appended at the tail of the shard
                let e = es1[es0.len() as int];
                assert(es1 =~= es0.push(e));
                assert(e.wf());
                lemma_find_large_push(es0, e, bsg, 0);
                assert(find_large_in(es1, bsg, 0) == Some(es0.len() as int));
                assert forall|k1: int| 0 <= k1 < P implies self.large_shard_wf(k1) by {
                    assert(inner0.large_shard_wf(k1));
                    if k1 == k as int {
                        assert forall|j: int| 0 <= j < es1.len() implies (#[trigger] es1[j]).wf()
                            && shard_of::<P>(es1[j].bytes@) == k1 by {
                            if j < es0.len() {
                                assert(es1[j] == es0[j]);
                            }
                        }
                    }
                }
            }
            assert forall|k1: int| 0 <= k1 < P implies self.small_shard_wf(k1) by {
                assert(inner0.small_shard_wf(k1));
            }
            // searches for other strings are unchanged
            assert forall|cs: Seq<u8>| cs != bsg implies #[trigger] final(self).find_large_spec(cs) == inner0.find_large_spec(cs) by {
                if shard_of::<P>(cs) != k as int {
                    crate::lemma_shard_of_bound::<P>(cs);
                    assert(self.large[shard_of::<P>(cs)] == inner0.large[shard_of::<P>(cs)]);
                } else {
                    if find_large_in(es0, bsg, 0) is Some {
                        assert(es1 =~= es0);
                    } else {
                        let e = es1[es0.len() as int];
                        assert(es1 =~= es0.push(e));
                        lemma_find_large_push(es0, e, cs, 0);
                    }
                }
            }
            // live handles stay live, with their bytes
            assert forall|g: PoolStr<P>| #[trigger] inner0.handle_valid(g) implies final(self).handle_valid(g) && final(self).handle_bytes(g) == inner0.handle_bytes(g) by {
                match g.loc {
                    Loc::Empty => {},
                    Loc::Small { shard, page, offset } => {},
                    Loc::Large { shard, index } => {
                        if shard == k {
                            assert(es1[index as int] == es0[index as int]);
                        } else {
                            assert(self.large[shard as int] == inner0.large[shard as int]);
                        }
                    },
                }
            }
        }
        r
    }
}

} // verus!
