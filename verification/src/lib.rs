//! A string interning pool. Each distinct string is stored once and handed
//! out as a compact handle; handles with equal content compare equal.
//!
//! Strings are split by byte length into two tiers: small strings
//! (1..=126 bytes) are packed into fixed-capacity pages as length-prefixed
//! slots, and large strings (127 bytes and up) are kept as individual
//! entries that carry a precomputed hash. A pool holds `P` shards (a power
//! of two), each with its own page list and large-entry list, selected by
//! the low bits of the string's hash; `P = 1` is the common case. The
//! empty string is served by a distinguished empty handle and touches
//! neither the storage nor the reference count.
//!
//! The pool keeps a reference count: one for the pool itself plus one for
//! every non-empty handle handed out by `intern` or `find` and not yet
//! released. Entries are never removed; the whole storage is reclaimed
//! when the pool is dropped.

use vstd::prelude::*;

mod hash;
mod large;
pub mod laws;
mod small;
mod static_pool;

pub use static_pool::PoolCell;

verus! {

use vstd::string::StringSliceAdditionalSpecFns;
use vstd::utf8::{valid_utf8, decode_utf8, encode_utf8};
use crate::hash::hash_of;
use crate::large::{LargeEntry, find_large_in, LARGE_MIN};
use crate::small::{
    Page, find_small_in, first_page_with_room, pages_no_fit, is_slot_at, slot_bytes, SMALL_MAX,
    PAGE_CAPACITY,
};

/// Where a handle points: nowhere (the empty string), at a slot of a
/// small-tier page, or at a large-tier entry.
#[derive(Clone, Copy, PartialEq, Eq, Structural, Debug)]
pub enum Loc {
    Empty,
    Small { shard: usize, page: usize, offset: usize },
    Large { shard: usize, index: usize },
}

/// A handle to an interned string: the `&str` equivalent handed out by the
/// pool. Dereferencing and content comparison go through the owning pool.
#[derive(Clone, Copy, PartialEq, Eq, Debug)]
pub struct PoolStr<const P: usize> {
    pub loc: Loc,
}

/// The shard that a hash selects: its low bits, masked by `P - 1`.
pub open spec fn shard_of_hash<const P: usize>(h: u64) -> int {
    if P == 0 {
        0
    } else {
        (h & ((P - 1) as u64)) as int
    }
}

/// The shard that serves a string's bytes.
pub open spec fn shard_of<const P: usize>(bs: Seq<u8>) -> int {
    shard_of_hash::<P>(hash_of(bs))
}

/// A shard index is always in range.
pub proof fn lemma_shard_of_hash_bound<const P: usize>(h: u64)
    requires
        P >= 1,
    ensures
        0 <= shard_of_hash::<P>(h) < P,
{
    let mask: u64 = (P - 1) as u64;
    assert(h & mask <= mask) by (bit_vector);
}

/// A string's UTF-8 encoding is empty exactly when the string is.
pub proof fn lemma_spec_bytes_empty(s: &str)
    ensures
        (s.spec_bytes().len() == 0) <==> (s@.len() == 0),
{
    if s@.len() != 0 {
        let c = s@[0];
        vstd::utf8::char_is_scalar(c);
        assert(encode_utf8(s@) == vstd::utf8::encode_scalar(c as u32) + encode_utf8(
            s@.drop_first(),
        ));
        assert(vstd::utf8::encode_scalar(c as u32).len() >= 1);
    } else {
        assert(s@ =~= Seq::<char>::empty());
    }
}

/// A shard index is always in range.
pub proof fn lemma_shard_of_bound<const P: usize>(bs: Seq<u8>)
    requires
        P >= 1,
    ensures
        0 <= shard_of::<P>(bs) < P,
{
    lemma_shard_of_hash_bound::<P>(hash_of(bs));
}

/// The reference-counted interior of a pool: for each of the `P` shards, a
/// small-tier page list and a large-tier entry list.
#[derive(Debug)]
pub struct PoolInner<const P: usize> {
    pub ref_count: usize,
    pub pages: Vec<Vec<Page>>,
    pub large: Vec<Vec<LargeEntry>>,
}

/// String pool.
#[derive(Debug)]
pub struct Pool<const P: usize> {
    pub inner: PoolInner<P>,
}

impl<const P: usize> PoolInner<P> {
    /// Well-formedness of one shard's small tier: well-formed pages whose
    /// slots all hash to this shard, packed so that no slot would have fit
    /// into an earlier page.
    pub open spec fn small_shard_wf(self, k: int) -> bool {
        let ps = self.pages[k]@;
        &&& forall|j: int| 0 <= j < ps.len() ==> (#[trigger] ps[j]).wf()
        &&& pages_no_fit(ps)
        &&& forall|j: int, o: int|
            0 <= j < ps.len() && #[trigger] is_slot_at(ps[j].entries@, 0, o) ==> shard_of::<P>(
                slot_bytes(ps[j].entries@, o),
            ) == k
    }

    /// Well-formedness of one shard's large tier: entries of 127 bytes or
    /// more, each carrying the hash of its own bytes, all hashing to this
    /// shard.
    pub open spec fn large_shard_wf(self, k: int) -> bool {
        let es = self.large[k]@;
        &&& forall|j: int| 0 <= j < es.len() ==> (#[trigger] es[j]).wf()
        &&& forall|j: int| 0 <= j < es.len() ==> shard_of::<P>((#[trigger] es[j]).bytes@) == k
    }

    pub open spec fn storage_wf(self) -> bool {
        &&& P >= 1
        &&& P & ((P - 1) as usize) == 0
        &&& self.pages@.len() == P
        &&& self.large@.len() == P
        &&& forall|k: int| 0 <= k < P ==> self.small_shard_wf(k)
        &&& forall|k: int| 0 <= k < P ==> self.large_shard_wf(k)
    }

    pub open spec fn wf(self) -> bool {
        &&& self.ref_count >= 1
        &&& self.storage_wf()
    }

    /// Where a search for small-tier bytes `bs` ends: the handle to the
    /// first slot holding `bs` in its shard, in page order.
    pub open spec fn find_small_spec(self, bs: Seq<u8>) -> Option<PoolStr<P>> {
        let k = shard_of::<P>(bs);
        match find_small_in(self.pages[k]@, bs, 0) {
            Some(jo) => Some(
                PoolStr {
                    loc: Loc::Small {
                        shard: k as usize,
                        page: jo.0 as usize,
                        offset: jo.1 as usize,
                    },
                },
            ),
            None => None,
        }
    }

    /// Where a search for large-tier bytes `bs` ends: the handle to the
    /// first entry holding `bs` in its shard.
    pub open spec fn find_large_spec(self, bs: Seq<u8>) -> Option<PoolStr<P>> {
        let k = shard_of::<P>(bs);
        match find_large_in(self.large[k]@, bs, 0) {
            Some(i) => Some(
                PoolStr { loc: Loc::Large { shard: k as usize, index: i as usize } },
            ),
            None => None,
        }
    }

    /// Where a search for the bytes `bs` ends: the empty handle for empty
    /// bytes, else the tier that the byte length selects.
    pub open spec fn find_spec(self, bs: Seq<u8>) -> Option<PoolStr<P>> {
        if bs.len() == 0 {
            Some(PoolStr { loc: Loc::Empty })
        } else if bs.len() <= SMALL_MAX {
            self.find_small_spec(bs)
        } else {
            self.find_large_spec(bs)
        }
    }

    /// Whether the pool holds the bytes `bs` (the empty bytes always).
    pub open spec fn contains_bytes(self, bs: Seq<u8>) -> bool {
        self.find_spec(bs) is Some
    }

    /// Where interning small-tier bytes `bs` not yet held would place them:
    /// the terminator of the first page with room in their shard, or offset
    /// zero of a fresh page chained at the tail.
    pub open spec fn small_intern_target(self, bs: Seq<u8>) -> PoolStr<P> {
        let k = shard_of::<P>(bs);
        let ps = self.pages[k]@;
        let j = crate::small::first_page_with_room(ps, bs.len() as int, 0);
        let t = if j < ps.len() {
            crate::small::terminator_of(ps[j].entries@, 0)
        } else {
            0
        };
        PoolStr { loc: Loc::Small { shard: k as usize, page: j as usize, offset: t as usize } }
    }

    /// Where interning large-tier bytes `bs` not yet held would place them:
    /// a fresh entry at the tail of their shard's list.
    pub open spec fn large_intern_target(self, bs: Seq<u8>) -> PoolStr<P> {
        let k = shard_of::<P>(bs);
        PoolStr {
            loc: Loc::Large { shard: k as usize, index: self.large[k]@.len() as usize },
        }
    }

    /// Whether a handle points at a live location of this pool.
    pub open spec fn handle_valid(self, h: PoolStr<P>) -> bool {
        match h.loc {
            Loc::Empty => true,
            Loc::Small { shard, page, offset } => {
                &&& (shard as int) < P
                &&& (page as int) < self.pages[shard as int]@.len()
                &&& is_slot_at(self.pages[shard as int]@[page as int].entries@, 0, offset as int)
            },
            Loc::Large { shard, index } => {
                &&& (shard as int) < P
                &&& (index as int) < self.large[shard as int]@.len()
            },
        }
    }

    /// The stored bytes that a handle points at.
    pub open spec fn handle_bytes(self, h: PoolStr<P>) -> Seq<u8> {
        match h.loc {
            Loc::Empty => Seq::empty(),
            Loc::Small { shard, page, offset } => slot_bytes(
                self.pages[shard as int]@[page as int].entries@,
                offset as int,
            ),
            Loc::Large { shard, index } => self.large[shard as int]@[index as int].bytes@,
        }
    }
}

/// Storage well-formedness depends on the storage alone, not on the
/// reference count.
pub proof fn lemma_storage_wf_unchanged<const P: usize>(a: PoolInner<P>, b: PoolInner<P>)
    requires
        a.storage_wf(),
        b.pages == a.pages,
        b.large == a.large,
    ensures
        b.storage_wf(),
{
    assert forall|k: int| 0 <= k < P implies b.small_shard_wf(k) by {
        assert(a.small_shard_wf(k));
    }
    assert forall|k: int| 0 <= k < P implies b.large_shard_wf(k) by {
        assert(a.large_shard_wf(k));
    }
}

impl<const P: usize> PoolInner<P> {
    /// The shard that a hash selects. `P` must be a power of two, which
    /// holds of every constructed pool.
    pub(crate) fn index_from_hash(hash: u64) -> (r: usize)
        requires
            P >= 1,
            P & ((P - 1) as usize) == 0,
        ensures
            r == shard_of_hash::<P>(hash),
            r < P,
    {
        let mask: u64 = (P - 1) as u64;
        let idx: u64 = hash & mask;
        proof {
            assert(hash & mask <= mask) by (bit_vector);
        }
        idx as usize
    }

    /// The shard that serves a string.
    pub(crate) fn index_for(string: &str) -> (r: usize)
        requires
            P >= 1,
            P & ((P - 1) as usize) == 0,
        ensures
            r == shard_of::<P>(string.spec_bytes()),
            r < P,
    {
        match P {
            0 => 0,
            _ => Self::index_from_hash(crate::hash::hash_str(string)),
        }
    }

    /// Counts one more reference to this pool.
    pub(crate) fn inc_ref_count(&mut self)
        requires
            old(self).ref_count < usize::MAX,
        ensures
            final(self).ref_count == old(self).ref_count + 1,
            final(self).pages == old(self).pages,
            final(self).large == old(self).large,
            old(self).storage_wf() ==> final(self).storage_wf(),
    {
        self.ref_count = self.ref_count + 1;
        proof {
            if old(self).storage_wf() {
                lemma_storage_wf_unchanged(*old(self), *self);
            }
        }
    }

    /// Releases one reference; true when it was the last. The storage is
    /// swept as a whole once the count reaches zero, which Rust's ownership
    /// performs when the pool value is dropped.
    pub(crate) fn dec_ref_count(&mut self) -> (last: bool)
        requires
            old(self).ref_count >= 1,
        ensures
            final(self).ref_count == old(self).ref_count - 1,
            final(self).pages == old(self).pages,
            final(self).large == old(self).large,
            last <==> old(self).ref_count == 1,
            old(self).storage_wf() ==> final(self).storage_wf(),
    {
        self.ref_count = self.ref_count - 1;
        proof {
            if old(self).storage_wf() {
                lemma_storage_wf_unchanged(*old(self), *self);
            }
        }
        self.ref_count == 0
    }

    /// Looks the string up without ever inserting: the empty handle for
    /// the empty string, else the tier that the length selects. A found
    /// non-empty handle counts one more reference.
    pub(crate) fn find(&mut self, string: &str) -> (r: Option<PoolStr<P>>)
        requires
            old(self).wf(),
            old(self).ref_count < usize::MAX,
        ensures
            final(self).wf(),
            final(self).pages == old(self).pages,
            final(self).large == old(self).large,
            r == old(self).find_spec(string.spec_bytes()),
            r is Some ==> final(self).handle_valid(r->0) && final(self).handle_bytes(r->0)
                == string.spec_bytes(),
            final(self).ref_count as int == old(self).ref_count + (if r is Some && !(r->0.loc
                is Empty) {
                1int
            } else {
                0int
            }),
    {
        let n = string.as_bytes().len();
        proof {
            lemma_spec_bytes_empty(string);
        }
        if n == 0 {
            proof {
                assert(string.spec_bytes() =~= Seq::<u8>::empty());
            }
            PoolStr::empty_option_some()
        } else if n <= SMALL_MAX {
            self.find_small(string)
        } else {
            self.find_large(string)
        }
    }

    /// Interns the string: the empty handle for the empty string, else a
    /// handle to a slot or entry holding its bytes, reusing the first
    /// existing one. A non-empty handle counts one more reference.
    pub(crate) fn intern(&mut self, string: &str) -> (r: PoolStr<P>)
        requires
            old(self).wf(),
            old(self).ref_count < usize::MAX,
        ensures
            final(self).wf(),
            final(self).ref_count as int == old(self).ref_count + (if string@.len() == 0 {
                0int
            } else {
                1int
            }),
            // the returned handle is live, holds the string's bytes, and is
            // what a search now finds
            final(self).handle_valid(r),
            final(self).handle_bytes(r) == string.spec_bytes(),
            final(self).find_spec(string.spec_bytes()) == Some(r),
            // deduplication: a string the pool already holds is reused
            old(self).contains_bytes(string.spec_bytes()) ==> Some(r) == old(self).find_spec(
                string.spec_bytes(),
            ),
            // a fresh string goes exactly where the placement policy says
            !old(self).contains_bytes(string.spec_bytes()) ==> r == (if string.spec_bytes().len()
                <= SMALL_MAX {
                old(self).small_intern_target(string.spec_bytes())
            } else {
                old(self).large_intern_target(string.spec_bytes())
            }),
            // searches for every other string are unchanged
            forall|cs: Seq<u8>| cs != string.spec_bytes() ==> #[trigger] final(self).find_spec(cs)
                == old(self).find_spec(cs),
            // every live handle stays live, with its bytes
            forall|g: PoolStr<P>| #[trigger] old(self).handle_valid(g) ==> final(self).handle_valid(g) && final(self).handle_bytes(g) == old(self).handle_bytes(g),
            // storage only grows, by at most one page and one entry
            forall|k: int|
                0 <= k < P ==> old(self).pages[k]@.len() <= (#[trigger] final(self).pages[k]@.len())
                    <= old(self).pages[k]@.len() + 1,
            forall|k: int|
                0 <= k < P ==> old(self).large[k]@.len() <= (#[trigger] final(self).large[k]@.len())
                    <= old(self).large[k]@.len() + 1,
            // a string the pool already holds grows nothing
            old(self).contains_bytes(string.spec_bytes()) ==> forall|k: int|
                0 <= k < P ==> (#[trigger] final(self).pages[k]@.len()) == old(self).pages[k]@.len()
                    && final(self).large[k]@.len() == old(self).large[k]@.len(),
            // the empty string changes nothing
            string@.len() == 0 ==> final(self).pages == old(self).pages && final(self).large
                == old(self).large,
            // storage grows only in the string's own shard, in its own
            // tier, and only when the pool did not hold the string
            forall|k: int|
                0 <= k < P && k != shard_of::<P>(string.spec_bytes()) ==> final(self).pages[k]
                    == old(self).pages[k] && final(self).large[k] == old(self).large[k],
            ({
                let bs = string.spec_bytes();
                let k = shard_of::<P>(bs);
                &&& final(self).pages[k]@.len() == old(self).pages[k]@.len() + (if 1 <= bs.len()
                    <= SMALL_MAX && !old(self).contains_bytes(bs) && first_page_with_room(
                    old(self).pages[k]@,
                    bs.len() as int,
                    0,
                ) == old(self).pages[k]@.len() {
                    1int
                } else {
                    0int
                })
                &&& final(self).large[k]@.len() == old(self).large[k]@.len() + (if bs.len()
                    > SMALL_MAX && !old(self).contains_bytes(bs) {
                    1int
                } else {
                    0int
                })
            }),
    {
        let n = string.as_bytes().len();
        proof {
            lemma_spec_bytes_empty(string);
        }
        if n == 0 {
            proof {
                assert(string.spec_bytes() =~= Seq::<u8>::empty());
            }
            PoolStr::empty()
        } else if n <= SMALL_MAX {
            let r = self.intern_small(string);
            proof {
                let bs = string.spec_bytes();
                let k = shard_of::<P>(bs);
                assert(self.large == old(self).large);
                assert forall|k1: int| 0 <= k1 < P && k1 != k implies self.pages[k1] == old(
                    self,
                ).pages[k1] && self.large[k1] == old(self).large[k1] by {
                    assert(self.pages[k1] == old(self).pages[k1]);
                    assert(self.large[k1] == old(self).large[k1]);
                }
                assert(self.large[k]@.len() == old(self).large[k]@.len());
            }
            r
        } else {
            let r = self.intern_large(string);
            proof {
                let bs = string.spec_bytes();
                let k = shard_of::<P>(bs);
                assert(self.pages == old(self).pages);
                assert forall|k1: int| 0 <= k1 < P && k1 != k implies self.pages[k1] == old(
                    self,
                ).pages[k1] && self.large[k1] == old(self).large[k1] by {
                    assert(self.pages[k1] == old(self).pages[k1]);
                    assert(self.large[k1] == old(self).large[k1]);
                }
                assert(self.pages[k]@.len() == old(self).pages[k]@.len());
            }
            r
        }
    }
}

/// Relies on `String::from_utf8`: bytes that are a valid UTF-8 encoding
/// decode to exactly the character sequence they encode.
#[verifier::external_body]
pub(crate) fn string_from_utf8(bytes: Vec<u8>) -> (r: String)
    requires
        valid_utf8(bytes@),
    ensures
        r@ == decode_utf8(bytes@),
{
    String::from_utf8(bytes).unwrap()
}

impl<const P: usize> Pool<P> {
    pub open spec fn wf(self) -> bool {
        self.inner.wf()
    }

    pub open spec fn find_spec(self, bs: Seq<u8>) -> Option<PoolStr<P>> {
        self.inner.find_spec(bs)
    }

    pub open spec fn contains_bytes(self, bs: Seq<u8>) -> bool {
        self.inner.contains_bytes(bs)
    }

    pub open spec fn handle_valid(self, h: PoolStr<P>) -> bool {
        self.inner.handle_valid(h)
    }

    pub open spec fn handle_bytes(self, h: PoolStr<P>) -> Seq<u8> {
        self.inner.handle_bytes(h)
    }

    pub open spec fn spec_ref_count(self) -> int {
        self.inner.ref_count as int
    }

    /// Creates a new pool: `P` empty shards, reference count one.
    pub fn new() -> (r: Self)
        requires
            P >= 1,
            P & ((P - 1) as usize) == 0,
        ensures
            r.wf(),
            r.inner.ref_count == 1,
            forall|k: int|
                0 <= k < P ==> (#[trigger] r.inner.pages[k]@.len()) == 0
                    && r.inner.large[k]@.len() == 0,
            forall|bs: Seq<u8>| bs.len() != 0 ==> #[trigger] r.find_spec(bs) is None,
    {
        let mut pages: Vec<Vec<Page>> = Vec::new();
        let mut large: Vec<Vec<LargeEntry>> = Vec::new();
        let mut k: usize = 0;
        while k < P
            invariant
                k <= P,
                pages@.len() == k,
                large@.len() == k,
                forall|k1: int|
                    0 <= k1 < k ==> (#[trigger] pages[k1]@.len()) == 0 && large[k1]@.len() == 0,
            decreases P - k,
        {
            pages.push(Vec::new());
            large.push(Vec::new());
            k = k + 1;
        }
        let r = Pool { inner: PoolInner { ref_count: 1, pages, large } };
        proof {
            assert forall|k1: int| 0 <= k1 < P implies r.inner.small_shard_wf(k1) by {
                assert(r.inner.pages[k1]@.len() == 0);
            }
            assert forall|k1: int| 0 <= k1 < P implies r.inner.large_shard_wf(k1) by {
                assert(r.inner.pages[k1]@.len() == 0);
                assert(r.inner.large[k1]@.len() == 0);
            }
            assert forall|bs: Seq<u8>| bs.len() != 0 implies #[trigger] r.find_spec(bs)
                is None by {
                let k1 = shard_of::<P>(bs);
                lemma_shard_of_bound::<P>(bs);
                assert(r.inner.pages[k1]@.len() == 0);
                assert(r.inner.large[k1]@.len() == 0);
                assert(find_small_in(r.inner.pages[k1]@, bs, 0) is None);
                assert(find_large_in(r.inner.large[k1]@, bs, 0) is None);
            }
        }
        r
    }

    /// Same as `Self::new()`, kept for callers of the older name.
    pub fn get_static_pool() -> (r: Self)
        requires
            P >= 1,
            P & ((P - 1) as usize) == 0,
        ensures
            r.wf(),
            r.inner.ref_count == 1,
            forall|k: int|
                0 <= k < P ==> (#[trigger] r.inner.pages[k]@.len()) == 0
                    && r.inner.large[k]@.len() == 0,
            forall|bs: Seq<u8>| bs.len() != 0 ==> #[trigger] r.find_spec(bs) is None,
    {
        let r = Self::new();
        proof {
            assert forall|k: int|
                0 <= k < P implies (#[trigger] r.inner.pages[k]@.len()) == 0
                    && r.inner.large[k]@.len() == 0 by {
                assert(r.inner.pages[k]@.len() == 0);
                assert(r.inner.large[k]@.len() == 0);
            }
        }
        r
    }

    /// Locates an existing handle for the string, never inserting: the
    /// empty handle for the empty string, else a handle to the slot or
    /// entry holding its bytes, else nothing. A found non-empty handle
    /// counts one more reference.
    pub fn find(&mut self, string: &str) -> (r: Option<PoolStr<P>>)
        requires
            old(self).wf(),
            old(self).inner.ref_count < usize::MAX,
        ensures
            final(self).wf(),
            final(self).inner.pages == old(self).inner.pages,
            final(self).inner.large == old(self).inner.large,
            r == old(self).find_spec(string.spec_bytes()),
            r is Some ==> final(self).handle_valid(r->0) && final(self).handle_bytes(r->0)
                == string.spec_bytes(),
            final(self).spec_ref_count() == old(self).spec_ref_count() + (if r is Some && !(r->0.loc
                is Empty) {
                1int
            } else {
                0int
            }),
    {
        self.inner.find(string)
    }

    /// Interns the string: a handle that dereferences to it, reusing the
    /// first slot or entry already holding its bytes. The empty string
    /// yields the empty handle and touches nothing; any other handle
    /// counts one more reference.
    pub fn intern(&mut self, string: &str) -> (r: PoolStr<P>)
        requires
            old(self).wf(),
            old(self).inner.ref_count < usize::MAX,
        ensures
            final(self).wf(),
            final(self).spec_ref_count() == old(self).spec_ref_count() + (if string@.len()
                == 0 {
                0int
            } else {
                1int
            }),
            final(self).handle_valid(r),
            final(self).handle_bytes(r) == string.spec_bytes(),
            final(self).find_spec(string.spec_bytes()) == Some(r),
            old(self).contains_bytes(string.spec_bytes()) ==> Some(r) == old(self).find_spec(
                string.spec_bytes(),
            ),
            !old(self).contains_bytes(string.spec_bytes()) ==> r == (if string.spec_bytes().len()
                <= SMALL_MAX {
                old(self).inner.small_intern_target(string.spec_bytes())
            } else {
                old(self).inner.large_intern_target(string.spec_bytes())
            }),
            forall|cs: Seq<u8>| cs != string.spec_bytes() ==> #[trigger] final(self).find_spec(cs)
                == old(self).find_spec(cs),
            forall|g: PoolStr<P>| #[trigger] old(self).handle_valid(g) ==> final(self).handle_valid(g) && final(self).handle_bytes(g) == old(self).handle_bytes(g),
            forall|k: int|
                0 <= k < P ==> old(self).inner.pages[k]@.len() <= (#[trigger] final(self).inner.pages[k]@.len()) <= old(self).inner.pages[k]@.len() + 1,
            forall|k: int|
                0 <= k < P ==> old(self).inner.large[k]@.len() <= (#[trigger] final(self).inner.large[k]@.len()) <= old(self).inner.large[k]@.len() + 1,
            old(self).contains_bytes(string.spec_bytes()) ==> forall|k: int|
                0 <= k < P ==> (#[trigger] final(self).inner.pages[k]@.len()) == old(self).inner.pages[k]@.len() && final(self).inner.large[k]@.len() == old(self).inner.large[k]@.len(),
            // the empty string changes nothing
            string@.len() == 0 ==> final(self).inner.pages == old(self).inner.pages && final(self).inner.large
                == old(self).inner.large,
            // storage grows only in the string's own shard, in its own
            // tier, and only when the pool did not hold the string
            forall|k: int|
                0 <= k < P && k != shard_of::<P>(string.spec_bytes()) ==> final(self).inner.pages[k]
                    == old(self).inner.pages[k] && final(self).inner.large[k] == old(self).inner.large[k],
            ({
                let bs = string.spec_bytes();
                let k = shard_of::<P>(bs);
                &&& final(self).inner.pages[k]@.len() == old(self).inner.pages[k]@.len() + (if 1 <= bs.len()
                    <= SMALL_MAX && !old(self).contains_bytes(bs) && first_page_with_room(
                    old(self).inner.pages[k]@,
                    bs.len() as int,
                    0,
                ) == old(self).inner.pages[k]@.len() {
                    1int
                } else {
                    0int
                })
                &&& final(self).inner.large[k]@.len() == old(self).inner.large[k]@.len() + (if bs.len()
                    > SMALL_MAX && !old(self).contains_bytes(bs) {
                    1int
                } else {
                    0int
                })
            }),
    {
        let r = self.inner.intern(string);
        proof {
            let bs = string.spec_bytes();
            if !old(self).inner.contains_bytes(bs) {
                if bs.len() <= SMALL_MAX {
                    assert(r == old(self).inner.small_intern_target(bs));
                } else {
                    assert(r == old(self).inner.large_intern_target(bs));
                }
            }
        }
        r
    }

    /// The pool's current reference count: one for the pool itself plus
    /// one for every non-empty handle not yet released.
    pub fn ref_count(&self) -> (r: usize)
        ensures
            r == self.inner.ref_count,
    {
        self.inner.ref_count
    }

    /// Releases a handle's reference, the handle-drop path. The empty
    /// handle holds no reference and releases nothing.
    pub fn release(&mut self, handle: PoolStr<P>)
        requires
            old(self).wf(),
            old(self).handle_valid(handle),
            !(handle.loc is Empty) ==> old(self).inner.ref_count >= 2,
        ensures
            final(self).wf(),
            final(self).inner.pages == old(self).inner.pages,
            final(self).inner.large == old(self).inner.large,
            final(self).spec_ref_count() == old(self).spec_ref_count() - (if handle.loc is Empty {
                0int
            } else {
                1int
            }),
    {
        match handle.loc {
            Loc::Empty => {},
            _ => {
                let last = self.inner.dec_ref_count();
                // the pool value itself still holds a reference, so a
                // handle is never the last one
                assert(!last);
            },
        }
    }

    /// Clones a handle, the handle-clone path: the copy of a non-empty
    /// handle counts one more reference; the empty handle counts none.
    pub fn clone_handle(&mut self, handle: PoolStr<P>) -> (r: PoolStr<P>)
        requires
            old(self).wf(),
            old(self).handle_valid(handle),
            old(self).inner.ref_count < usize::MAX,
        ensures
            final(self).wf(),
            final(self).inner.pages == old(self).inner.pages,
            final(self).inner.large == old(self).inner.large,
            r == handle,
            final(self).spec_ref_count() == old(self).spec_ref_count() + (if handle.loc is Empty {
                0int
            } else {
                1int
            }),
    {
        match handle.loc {
            Loc::Empty => handle,
            _ => {
                self.inner.inc_ref_count();
                handle
            },
        }
    }

    /// The stored bytes that a handle points at, as a fresh vector.
    fn handle_bytes_vec(&self, handle: PoolStr<P>) -> (r: Vec<u8>)
        requires
            self.wf(),
            self.handle_valid(handle),
        ensures
            r@ == self.handle_bytes(handle),
            valid_utf8(r@),
    {
        match handle.loc {
            Loc::Empty => {
                let r: Vec<u8> = Vec::new();
                proof {
                    assert(r@ =~= Seq::<u8>::empty());
                    assert(valid_utf8(r@));
                }
                r
            },
            Loc::Small { shard, page, offset } => {
                proof {
                    assert(self.inner.small_shard_wf(shard as int));
                    assert(self.inner.pages[shard as int]@[page as int].wf());
                    crate::small::lemma_slot_in_range(
                        self.inner.pages[shard as int]@[page as int].entries@,
                        0,
                        offset as int,
                    );
                    crate::small::lemma_terminator(
                        self.inner.pages[shard as int]@[page as int].entries@,
                        0,
                    );
                }
                let entries: &Vec<u8> = &self.inner.pages[shard][page].entries;
                let len = entries[offset] as usize;
                let mut r: Vec<u8> = Vec::new();
                let mut m: usize = 0;
                while m < len
                    invariant
                        m <= len,
                        entries@.len() == PAGE_CAPACITY,
                        offset + 1 + len <= entries@.len(),
                        r@.len() == m,
                        forall|i: int| 0 <= i < m ==> r@[i] == entries@[offset + 1 + i],
                    decreases len - m,
                {
                    r.push(entries[offset + 1 + m]);
                    m = m + 1;
                }
                proof {
                    assert(r@ =~= slot_bytes(
                        self.inner.pages[shard as int]@[page as int].entries@,
                        offset as int,
                    ));
                }
                r
            },
            Loc::Large { shard, index } => {
                proof {
                    assert(self.inner.large_shard_wf(shard as int));
                    assert(self.inner.large[shard as int]@[index as int].wf());
                }
                let bytes: &Vec<u8> = &self.inner.large[shard][index].bytes;
                let r = vstd::slice::slice_to_vec(bytes.as_slice());
                r
            },
        }
    }

    /// Handle equality: handles at the same location are equal; otherwise
    /// the contents are compared byte for byte, which masks the benign
    /// duplicates that concurrent interning may leave.
    pub fn handle_eq(&self, a: PoolStr<P>, b: PoolStr<P>) -> (r: bool)
        requires
            self.wf(),
            self.handle_valid(a),
            self.handle_valid(b),
        ensures
            r <==> self.handle_bytes(a) == self.handle_bytes(b),
    {
        if a.loc == b.loc {
            true
        } else {
            let va = self.handle_bytes_vec(a);
            let vb = self.handle_bytes_vec(b);
            crate::large::bytes_eq(&va, vb.as_slice())
        }
    }
}

impl<const P: usize> PoolStr<P> {
    pub open spec fn is_empty(self) -> bool {
        self.loc is Empty
    }

    /// The sentinel handle for the empty string: it points at no storage
    /// and holds no reference to any pool.
    pub fn empty() -> (r: Self)
        ensures
            r.loc is Empty,
    {
        PoolStr { loc: Loc::Empty }
    }

    /// `Some(empty)`, what `find` returns for the empty string.
    fn empty_option_some() -> (r: Option<Self>)
        ensures
            r == Some(PoolStr::<P> { loc: Loc::Empty }),
    {
        Some(PoolStr { loc: Loc::Empty })
    }

    /// The text the handle stands for: the empty string for the empty
    /// handle, else the stored bytes of its slot or entry, decoded from
    /// UTF-8 — which always succeeds, since only valid text is interned.
    pub fn deref(&self, pool: &Pool<P>) -> (r: String)
        requires
            pool.wf(),
            pool.handle_valid(*self),
        ensures
            r@ == decode_utf8(pool.handle_bytes(*self)),
            encode_utf8(r@) == pool.handle_bytes(*self),
    {
        let bytes = pool.handle_bytes_vec(*self);
        let r = string_from_utf8(bytes);
        proof {
            vstd::utf8::decode_utf8_encode_utf8(pool.handle_bytes(*self));
        }
        r
    }
}

} // verus!
