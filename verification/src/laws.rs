//! The laws of the pool, stated over the spec functions that the
//! contracts of `intern`, `find`, `release` and `deref` use, and proved
//! from them.

use vstd::prelude::*;

verus! {

use vstd::string::StringSliceAdditionalSpecFns;
use vstd::utf8::{decode_utf8, encode_utf8, encode_utf8_decode_utf8};
use crate::{lemma_shard_of_bound, lemma_spec_bytes_empty, shard_of, Loc, Pool, PoolStr};

/// Content fidelity: a handle holding the bytes of `s` — as every handle
/// that `intern(s)` returns does — dereferences back to `s`.
pub proof fn lemma_content_fidelity<const P: usize>(pool: Pool<P>, h: PoolStr<P>, s: &str)
    requires
        pool.handle_bytes(h) == s.spec_bytes(),
    ensures
        decode_utf8(pool.handle_bytes(h)) == s@,
{
    encode_utf8_decode_utf8(s@);
}

/// Deduplication: interning the same bytes twice in sequence yields the
/// same handle. The first intern leaves the pool finding its handle; the
/// second then reuses exactly that handle.
pub proof fn lemma_sequential_dedup<const P: usize>(
    p1: Pool<P>,
    h1: PoolStr<P>,
    h2: PoolStr<P>,
    bs: Seq<u8>,
)
    requires
        p1.find_spec(bs) == Some(h1),
        p1.contains_bytes(bs) ==> Some(h2) == p1.find_spec(bs),
    ensures
        h2 == h1,
{
}

/// Equality soundness: handles holding the bytes of `s` and `t` — as the
/// handles `intern(s)` and `intern(t)` return do — compare equal under
/// content comparison exactly when `s == t`, duplicate slots included.
pub proof fn lemma_equality_soundness<const P: usize>(
    pool: Pool<P>,
    a: PoolStr<P>,
    b: PoolStr<P>,
    s: &str,
    t: &str,
)
    requires
        pool.handle_bytes(a) == s.spec_bytes(),
        pool.handle_bytes(b) == t.spec_bytes(),
    ensures
        (pool.handle_bytes(a) == pool.handle_bytes(b)) <==> s@ == t@,
{
    encode_utf8_decode_utf8(s@);
    encode_utf8_decode_utf8(t@);
}

/// After interning a non-empty string, the pool holds it, a later search
/// returns exactly the interned handle, that handle dereferences back to
/// the string, and the successful search counts one more reference. (The
/// empty string is the exception: its sentinel never touches the count.)
/// Before a first intern the search finds nothing, and `find` itself never
/// changes the storage: that is its own contract.
pub proof fn lemma_find_after_intern<const P: usize>(
    p1: Pool<P>,
    p2: Pool<P>,
    h: PoolStr<P>,
    r: Option<PoolStr<P>>,
    s: &str,
)
    requires
        s@.len() != 0,
        // what intern left behind
        p1.find_spec(s.spec_bytes()) == Some(h),
        p1.handle_bytes(h) == s.spec_bytes(),
        // what the later find returned, and how it counted
        r == p1.find_spec(s.spec_bytes()),
        p2.spec_ref_count() == p1.spec_ref_count() + (if r is Some && !(r->0.loc is Empty) {
            1int
        } else {
            0int
        }),
    ensures
        p1.contains_bytes(s.spec_bytes()),
        r == Some(h),
        decode_utf8(p1.handle_bytes(h)) == s@,
        p2.spec_ref_count() == p1.spec_ref_count() + 1,
{
    encode_utf8_decode_utf8(s@);
    lemma_spec_bytes_empty(s);
    // a handle found for a non-empty string is never the empty sentinel
    assert(!(h.loc is Empty));
}

/// Sharding, pairwise: two distinct strings whose hashes select the same
/// shard are held as two distinct handles, each with its own bytes, and
/// both handles point into that one shard.
pub proof fn lemma_same_shard_pairwise<const P: usize>(
    pool: Pool<P>,
    a: PoolStr<P>,
    b: PoolStr<P>,
    s: &str,
    t: &str,
)
    requires
        pool.wf(),
        s@ != t@,
        s@.len() != 0,
        t@.len() != 0,
        shard_of::<P>(s.spec_bytes()) == shard_of::<P>(t.spec_bytes()),
        pool.find_spec(s.spec_bytes()) == Some(a),
        pool.find_spec(t.spec_bytes()) == Some(b),
        pool.handle_bytes(a) == s.spec_bytes(),
        pool.handle_bytes(b) == t.spec_bytes(),
    ensures
        a != b,
        ({
            match a.loc {
                Loc::Empty => false,
                Loc::Small { shard, page, offset } => shard == shard_of::<P>(s.spec_bytes()),
                Loc::Large { shard, index } => shard == shard_of::<P>(s.spec_bytes()),
            }
        }),
        ({
            match b.loc {
                Loc::Empty => false,
                Loc::Small { shard, page, offset } => shard == shard_of::<P>(s.spec_bytes()),
                Loc::Large { shard, index } => shard == shard_of::<P>(s.spec_bytes()),
            }
        }),
{
    encode_utf8_decode_utf8(s@);
    encode_utf8_decode_utf8(t@);
    lemma_spec_bytes_empty(s);
    lemma_spec_bytes_empty(t);
    lemma_shard_of_bound::<P>(s.spec_bytes());
    lemma_shard_of_bound::<P>(t.spec_bytes());
    assert(pool.handle_bytes(a) != pool.handle_bytes(b));
}

/// The empty-string sentinel: every pool always finds the empty string as
/// the empty handle, whose bytes are empty and which dereferences to the
/// empty string.
pub proof fn lemma_empty_sentinel<const P: usize>(pool: Pool<P>, bs: Seq<u8>)
    requires
        bs.len() == 0,
    ensures
        pool.find_spec(bs) == Some(PoolStr::<P> { loc: Loc::Empty }),
        pool.handle_bytes(PoolStr::<P> { loc: Loc::Empty }) == Seq::<u8>::empty(),
        decode_utf8(pool.handle_bytes(PoolStr::<P> { loc: Loc::Empty })) == Seq::<char>::empty(),
{
    assert(bs =~= Seq::<u8>::empty());
    encode_utf8_decode_utf8(Seq::<char>::empty());
    assert(encode_utf8(Seq::<char>::empty()) =~= Seq::<u8>::empty());
}

/// Reference-count closure: releasing a handle that an intern or find
/// counted restores the count those operations started from, whatever
/// happened to the storage in between.
pub proof fn lemma_refcount_closure<const P: usize>(
    p0: Pool<P>,
    p1: Pool<P>,
    p2: Pool<P>,
    h: PoolStr<P>,
)
    requires
        !(h.loc is Empty),
        p1.spec_ref_count() == p0.spec_ref_count() + 1,
        p2.spec_ref_count() == p1.spec_ref_count() - 1,
    ensures
        p2.spec_ref_count() == p0.spec_ref_count(),
{
}

} // verus!
