//! The small tier: strings of 1..=126 bytes packed into fixed-capacity
//! pages as length-prefixed slots.
//!
//! A page stands for one 1024-byte block; sixteen of its bytes form the
//! block header (the next-page and owning-pool pointers of the in-memory
//! layout), leaving 1008 bytes of slot space. The
//! slot space holds a packed sequence `[len_byte][string_bytes]...`; a zero
//! length byte terminates the used region, and every byte from the
//! terminator to the end of the page is zero. A length byte with bit 7 set
//! (`NOT_READY`) marks a slot whose bytes are still being copied; a page at
//! rest holds only ready slots.

use vstd::prelude::*;

verus! {

use vstd::string::StringSliceAdditionalSpecFns;
use vstd::utf8::valid_utf8;
use crate::{Loc, PoolInner, PoolStr, shard_of};

/// Size of a page block.
pub const PAGE_SIZE: usize = 1024;

/// Size of the page header: a next-page pointer and an owning-pool
/// pointer.
pub const PAGE_HEADER_SIZE: usize = 16;

/// Bytes of slot space in a page.
pub const PAGE_CAPACITY: usize = PAGE_SIZE - PAGE_HEADER_SIZE;

/// Bit 7 of a slot's length byte: the slot is still being written.
pub const NOT_READY: u8 = 0x80;

/// The low seven bits of a slot's length byte hold the string length.
pub const LEN_MASK: u8 = 0x7f;

/// Largest byte length served by the small tier.
pub const SMALL_MAX: usize = 126;

/// The string bytes of the slot whose length byte sits at offset `i`.
pub open spec fn slot_bytes(s: Seq<u8>, i: int) -> Seq<u8> {
    s.subrange(i + 1, i + 1 + s[i])
}

/// Well-formed slot space from offset `i` on: a packed sequence of ready
/// slots holding valid UTF-8, ending either exactly at the page boundary or
/// at a zero terminator followed only by zeros.
pub open spec fn slots_wf(s: Seq<u8>, i: int) -> bool
    decreases s.len() - i,
{
    if i < 0 {
        false
    } else if i >= s.len() {
        i == s.len()
    } else if s[i] == 0 {
        forall|j: int| i <= j < s.len() ==> s[j] == 0
    } else if s[i] <= SMALL_MAX && i + 1 + s[i] <= s.len() {
        valid_utf8(slot_bytes(s, i)) && slots_wf(s, i + 1 + s[i])
    } else {
        false
    }
}

/// The offset of the first slot from `i` on whose bytes equal `bs`, the
/// order in which a search walks the page.
pub open spec fn page_find_at(s: Seq<u8>, i: int, bs: Seq<u8>) -> Option<int>
    decreases s.len() - i,
{
    if i < 0 || i >= s.len() {
        None
    } else if s[i] == 0 {
        None
    } else if i + 1 + s[i] > s.len() {
        None
    } else if slot_bytes(s, i) == bs {
        Some(i)
    } else {
        page_find_at(s, i + 1 + s[i], bs)
    }
}

/// Whether offset `o` is the length byte of a slot reachable from offset `i`.
pub open spec fn is_slot_at(s: Seq<u8>, i: int, o: int) -> bool
    decreases s.len() - i,
{
    if i < 0 || i >= s.len() {
        false
    } else if s[i] == 0 {
        false
    } else if i + 1 + s[i] > s.len() {
        false
    } else if i == o {
        true
    } else {
        is_slot_at(s, i + 1 + s[i], o)
    }
}

/// The offset of the zero terminator reached from offset `i`, or the page
/// length when the slots run to the very end.
pub open spec fn terminator_of(s: Seq<u8>, i: int) -> int
    decreases s.len() - i,
{
    if i < 0 || i >= s.len() {
        s.len() as int
    } else if s[i] == 0 {
        i
    } else if i + 1 + s[i] > s.len() {
        s.len() as int
    } else {
        terminator_of(s, i + 1 + s[i])
    }
}

/// The slot space after appending `bs` as a new slot at the terminator.
pub open spec fn page_insert(s: Seq<u8>, bs: Seq<u8>) -> Seq<u8> {
    let t = terminator_of(s, 0);
    s.take(t) + seq![bs.len() as u8] + bs + s.skip(t + 1 + bs.len())
}

/// The terminator lies between `i` and the page end; from it on the page
/// holds only zeros, and the tail from the terminator is itself well-formed.
pub proof fn lemma_terminator(s: Seq<u8>, i: int)
    requires
        slots_wf(s, i),
    ensures
        i <= terminator_of(s, i) <= s.len(),
        forall|j: int| terminator_of(s, i) <= j < s.len() ==> s[j] == 0,
    decreases s.len() - i,
{
    if i >= s.len() {
    } else if s[i] == 0 {
    } else {
        lemma_terminator(s, i + 1 + s[i]);
    }
}

/// Every slot reachable from `i` lies on the walk: it starts at or after
/// `i`, ends at or before the terminator, and is a ready slot of 1..=126
/// valid UTF-8 bytes.
pub proof fn lemma_slot_in_range(s: Seq<u8>, i: int, o: int)
    requires
        slots_wf(s, i),
        is_slot_at(s, i, o),
    ensures
        i <= o,
        o + 1 + s[o] <= terminator_of(s, i),
        1 <= s[o] <= SMALL_MAX,
        valid_utf8(slot_bytes(s, o)),
        slot_bytes(s, o).len() == s[o],
    decreases s.len() - i,
{
    if i == o {
        lemma_terminator(s, i + 1 + s[i]);
    } else {
        lemma_slot_in_range(s, i + 1 + s[i], o);
    }
}

/// A successful search yields a slot whose bytes equal the query.
pub proof fn lemma_find_some(s: Seq<u8>, i: int, bs: Seq<u8>)
    requires
        page_find_at(s, i, bs) is Some,
    ensures
        is_slot_at(s, i, page_find_at(s, i, bs)->0),
        slot_bytes(s, page_find_at(s, i, bs)->0) == bs,
    decreases s.len() - i,
{
    if !(i < 0 || i >= s.len()) && s[i] != 0 && i + 1 + s[i] <= s.len() {
        if slot_bytes(s, i) == bs {
        } else {
            lemma_find_some(s, i + 1 + s[i], bs);
        }
    }
}

/// Hypotheses shared by the insertion lemmas: `s2` agrees with `s` below the
/// terminator `t`, holds the new slot `[len][bs]` at `t`, and only zeros
/// beyond it.
pub open spec fn insert_shape(s: Seq<u8>, s2: Seq<u8>, bs: Seq<u8>, t: int) -> bool {
    &&& s2.len() == s.len()
    &&& t + 1 + bs.len() <= s.len()
    &&& 1 <= bs.len() <= SMALL_MAX
    &&& valid_utf8(bs)
    &&& forall|j: int| 0 <= j < t ==> s2[j] == s[j]
    &&& s2[t] == bs.len() as u8
    &&& forall|j: int| 0 <= j < bs.len() ==> s2[t + 1 + j] == bs[j]
    &&& forall|j: int| t + 1 + bs.len() <= j < s.len() ==> s2[j] == 0
}

/// After appending a slot at the terminator the page is still well-formed,
/// the new slot holds the inserted bytes, and the terminator has moved to
/// the end of the new slot.
pub proof fn lemma_insert_wf(s: Seq<u8>, s2: Seq<u8>, bs: Seq<u8>, t: int, i: int)
    requires
        slots_wf(s, i),
        terminator_of(s, i) == t,
        insert_shape(s, s2, bs, t),
        0 <= i <= t,
    ensures
        slots_wf(s2, i),
        terminator_of(s2, i) == t + 1 + bs.len(),
        is_slot_at(s2, i, t),
        slot_bytes(s2, t) == bs,
    decreases t - i,
{
    lemma_terminator(s, i);
    if i == t {
        assert(slot_bytes(s2, t) =~= bs);
        let n = t + 1 + bs.len() as int;
        assert(s2[t] == bs.len() as u8);
        assert(s2[t] as int == bs.len() as int);
        if n < s.len() {
            assert(s2[n] == 0);
            assert(slots_wf(s2, n));
            assert(terminator_of(s2, n) == n);
        } else {
            assert(n == s.len());
            assert(slots_wf(s2, n));
            assert(terminator_of(s2, n) == n);
        }
        assert(slots_wf(s2, t));
        assert(terminator_of(s2, t) == n);
        assert(is_slot_at(s2, t, t));
    } else {
        assert(s[i] != 0);
        assert(s2[i] == s[i]);
        let n = i + 1 + s[i] as int;
        lemma_terminator(s, n);
        assert(terminator_of(s, n) == t);
        assert(n <= t);
        lemma_insert_wf(s, s2, bs, t, n);
        assert(slot_bytes(s2, i) =~= slot_bytes(s, i));
        assert(slots_wf(s2, i));
        assert(terminator_of(s2, i) == t + 1 + bs.len());
        assert(is_slot_at(s2, i, t));
    }
}

/// Appending a slot at the terminator keeps every existing slot, with its
/// bytes, and adds exactly the one slot at the old terminator.
pub proof fn lemma_insert_slots(s: Seq<u8>, s2: Seq<u8>, bs: Seq<u8>, t: int, i: int, o: int)
    requires
        slots_wf(s, i),
        terminator_of(s, i) == t,
        insert_shape(s, s2, bs, t),
        0 <= i <= t,
    ensures
        is_slot_at(s2, i, o) <==> (is_slot_at(s, i, o) || o == t),
        is_slot_at(s, i, o) ==> slot_bytes(s2, o) == slot_bytes(s, o),
    decreases t - i,
{
    lemma_terminator(s, i);
    if i == t {
        if is_slot_at(s2, t, o) && o != t {
            let n = t + 1 + bs.len();
            assert(!is_slot_at(s2, n, o));
        }
    } else {
        assert(s[i] != 0);
        assert(s2[i] == s[i]);
        let n = i + 1 + s[i] as int;
        lemma_terminator(s, n);
        lemma_insert_slots(s, s2, bs, t, n, o);
        if is_slot_at(s, i, o) {
            lemma_slot_in_range(s, i, o);
            assert(slot_bytes(s2, o) =~= slot_bytes(s, o));
        }
    }
}

/// How a search reads the page after an insertion: the inserted bytes are
/// now found (at the old terminator, unless an equal slot already existed),
/// and every other query finds exactly what it found before.
pub proof fn lemma_insert_find(s: Seq<u8>, s2: Seq<u8>, bs: Seq<u8>, t: int, i: int, cs: Seq<u8>)
    requires
        slots_wf(s, i),
        terminator_of(s, i) == t,
        insert_shape(s, s2, bs, t),
        0 <= i <= t,
    ensures
        page_find_at(s2, i, cs) == (if cs == bs && page_find_at(s, i, cs) is None {
            Some(t)
        } else {
            page_find_at(s, i, cs)
        }),
    decreases t - i,
{
    lemma_terminator(s, i);
    if i == t {
        assert(slot_bytes(s2, t) =~= bs);
        let n = t + 1 + bs.len();
        if cs != bs {
            if n < s.len() {
                assert(page_find_at(s2, n, cs) is None);
            }
        }
    } else {
        assert(s[i] != 0);
        assert(s2[i] == s[i]);
        let n = i + 1 + s[i] as int;
        lemma_terminator(s, n);
        lemma_insert_find(s, s2, bs, t, n, cs);
        assert(slot_bytes(s2, i) =~= slot_bytes(s, i));
    }
}

/// The inserted page has the shape that the insertion lemmas ask for.
pub proof fn lemma_page_insert_shape(s: Seq<u8>, bs: Seq<u8>)
    requires
        slots_wf(s, 0),
        terminator_of(s, 0) + 1 + bs.len() <= s.len(),
        1 <= bs.len() <= SMALL_MAX,
        valid_utf8(bs),
    ensures
        insert_shape(s, page_insert(s, bs), bs, terminator_of(s, 0)),
        page_insert(s, bs).len() == s.len(),
{
    lemma_terminator(s, 0);
}

/// A page of the small tier: the slot space of one 1024-byte block.
#[derive(Debug)]
pub struct Page {
    pub entries: Vec<u8>,
}

/// No slot of a later page would have fit into an earlier page: interning
/// places a string in the first page with room, so a string sitting in a
/// later page witnesses that every earlier page was too full for it. This
/// is what lets a later intern of the same string find the existing slot
/// before it would reserve a new one.
pub open spec fn pages_no_fit(ps: Seq<Page>) -> bool {
    forall|j2: int, o: int|
        0 <= j2 < ps.len() && #[trigger] is_slot_at(ps[j2].entries@, 0, o) ==> forall|j1: int|
            0 <= j1 < j2 ==> terminator_of((#[trigger] ps[j1]).entries@, 0) + 1
                + ps[j2].entries@[o] > PAGE_CAPACITY
}

/// The page that interning a small string of byte length `len` would
/// extend: the first page from index `j` on with room for one more slot of
/// that length, or the list length when none has room and a fresh page is
/// chained at the tail.
pub open spec fn first_page_with_room(ps: Seq<Page>, len: int, j: int) -> int
    decreases ps.len() - j,
{
    if j < 0 || j >= ps.len() {
        ps.len() as int
    } else if terminator_of(ps[j].entries@, 0) + 1 + len <= PAGE_CAPACITY {
        j
    } else {
        first_page_with_room(ps, len, j + 1)
    }
}

/// The page index and slot offset of the first slot holding `bs` in the
/// page list from index `j` on, the order in which a search walks a shard.
pub open spec fn find_small_in(ps: Seq<Page>, bs: Seq<u8>, j: int) -> Option<(int, int)>
    decreases ps.len() - j,
{
    if j < 0 || j >= ps.len() {
        None
    } else {
        match page_find_at(ps[j].entries@, 0, bs) {
            Some(o) => Some((j, o)),
            None => find_small_in(ps, bs, j + 1),
        }
    }
}

/// A successful shard search names a page whose own search finds the query.
pub proof fn lemma_find_small_some(ps: Seq<Page>, bs: Seq<u8>, j: int)
    requires
        find_small_in(ps, bs, j) is Some,
    ensures
        ({
            let (j2, o) = find_small_in(ps, bs, j)->0;
            &&& j <= j2 < ps.len()
            &&& page_find_at(ps[j2].entries@, 0, bs) == Some(o)
        }),
    decreases ps.len() - j,
{
    if !(j < 0 || j >= ps.len()) && page_find_at(ps[j].entries@, 0, bs) is None {
        lemma_find_small_some(ps, bs, j + 1);
    }
}

/// A failed shard search means no page from `j` on finds the query.
pub proof fn lemma_find_small_none(ps: Seq<Page>, bs: Seq<u8>, j: int)
    requires
        0 <= j,
        find_small_in(ps, bs, j) is None,
    ensures
        forall|j2: int| j <= j2 < ps.len() ==> page_find_at((#[trigger] ps[j2]).entries@, 0, bs) is None,
    decreases ps.len() - j,
{
    if j < ps.len() {
        lemma_find_small_none(ps, bs, j + 1);
    }
}

/// A shard search stops at the first page that finds the query.
pub proof fn lemma_find_small_first(ps: Seq<Page>, bs: Seq<u8>, i: int, j: int, o: int)
    requires
        0 <= i <= j < ps.len(),
        forall|j1: int| i <= j1 < j ==> page_find_at((#[trigger] ps[j1]).entries@, 0, bs) is None,
        page_find_at(ps[j].entries@, 0, bs) == Some(o),
    ensures
        find_small_in(ps, bs, i) == Some((j, o)),
    decreases j - i,
{
    if i < j {
        lemma_find_small_first(ps, bs, i + 1, j, o);
    }
}

/// Replacing a page with one that answers every search for `cs` the same
/// way leaves the shard's search for `cs` unchanged.
pub proof fn lemma_find_small_update(ps: Seq<Page>, pg: Page, j: int, cs: Seq<u8>, i: int)
    requires
        0 <= i <= ps.len(),
        0 <= j < ps.len(),
        page_find_at(pg.entries@, 0, cs) == page_find_at(ps[j].entries@, 0, cs),
    ensures
        find_small_in(ps.update(j, pg), cs, i) == find_small_in(ps, cs, i),
    decreases ps.len() - i,
{
    if i < ps.len() {
        assert(ps.update(j, pg)[i] == (if i == j { pg } else { ps[i] }));
        lemma_find_small_update(ps, pg, j, cs, i + 1);
    }
}

/// How a shard search reads the list after a page is appended: queries the
/// old pages answered keep their answer, and the new page answers only what
/// its own search finds.
pub proof fn lemma_find_small_push(ps: Seq<Page>, pg: Page, cs: Seq<u8>, i: int)
    requires
        0 <= i <= ps.len(),
    ensures
        find_small_in(ps.push(pg), cs, i) == (match find_small_in(ps, cs, i) {
            Some(jo) => Some(jo),
            None => match page_find_at(pg.entries@, 0, cs) {
                Some(o) => Some((ps.len() as int, o)),
                None => None,
            },
        }),
    decreases ps.len() - i,
{
    if i == ps.len() {
        assert(ps.push(pg)[i] == pg);
        assert(find_small_in(ps.push(pg), cs, i + 1) is None);
    } else {
        assert(ps.push(pg)[i] == ps[i]);
        lemma_find_small_push(ps, pg, cs, i + 1);
    }
}

impl Page {
    pub open spec fn wf(self) -> bool {
        &&& self.entries@.len() == PAGE_CAPACITY
        &&& slots_wf(self.entries@, 0)
    }

    /// A fresh zero-filled page: no slots, terminator at offset zero.
    pub fn new() -> (r: Self)
        ensures
            r.wf(),
            r.entries@ == Seq::new(PAGE_CAPACITY as nat, |j: int| 0u8),
            terminator_of(r.entries@, 0) == 0,
            forall|bs: Seq<u8>| page_find_at(r.entries@, 0, bs) is None,
            forall|o: int| !is_slot_at(r.entries@, 0, o),
    {
        let mut entries: Vec<u8> = Vec::new();
        let mut i: usize = 0;
        while i < PAGE_CAPACITY
            invariant
                i <= PAGE_CAPACITY,
                entries@.len() == i,
                forall|j: int| 0 <= j < i ==> entries@[j] == 0u8,
            decreases PAGE_CAPACITY - i,
        {
            entries.push(0u8);
            i = i + 1;
        }
        let r = Page { entries };
        proof {
            assert(r.entries@ =~= Seq::new(PAGE_CAPACITY as nat, |j: int| 0u8));
        }
        r
    }
}

/// Reads a slot's length byte: the encoded length and whether the slot is
/// ready (bit 7 clear).
pub fn read_slot_len(entries: &Vec<u8>, i: usize) -> (r: (usize, bool))
    requires
        i < entries@.len(),
    ensures
        r.1 <==> entries@[i as int] < 128,
        r.1 ==> r.0 == entries@[i as int],
        !r.1 ==> r.0 == (entries@[i as int] & LEN_MASK),
{
    let len = entries[i];
    proof {
        assert((len & NOT_READY) == 0 <==> len < 128) by (bit_vector);
        assert((len & LEN_MASK) == len || len >= 128) by (bit_vector);
    }
    match len & NOT_READY {
        0 => (len as usize, true),
        _ => ((len & LEN_MASK) as usize, false),
    }
}

/// Sets a slot's length byte if it still holds the expected value: the
/// compare-and-swap that reserves and publishes a slot.
pub fn try_set_len(entries: &mut Vec<u8>, i: usize, prev: u8, new: u8) -> (r: bool)
    requires
        i < old(entries)@.len(),
    ensures
        r <==> old(entries)@[i as int] == prev,
        r ==> final(entries)@ == old(entries)@.update(i as int, new),
        !r ==> final(entries)@ == old(entries)@,
{
    if entries[i] == prev {
        entries[i] = new;
        true
    } else {
        false
    }
}

/// Compares `bs` with the page bytes starting at `start`.
fn bytes_match(entries: &Vec<u8>, start: usize, bs: &[u8]) -> (r: bool)
    requires
        start + bs@.len() <= entries@.len(),
    ensures
        r <==> entries@.subrange(start as int, start + bs@.len()) == bs@,
{
    let cap = entries.len();
    let n = bs.len();
    let mut j: usize = 0;
    while j < n
        invariant
            n == bs@.len(),
            start + n <= entries@.len(),
            cap == entries@.len(),
            start + n <= cap,
            j <= n,
            forall|m: int| 0 <= m < j ==> entries@[start + m] == bs@[m],
        decreases n - j,
    {
        if entries[start + j] != bs[j] {
            proof {
                assert(entries@.subrange(start as int, start + bs@.len())[j as int] != bs@[j as int]);
            }
            return false;
        }
        j = j + 1;
    }
    proof {
        assert(entries@.subrange(start as int, start + bs@.len()) =~= bs@);
    }
    true
}

impl Page {
    /// Searches the page for `bs`, returning the offset of the first slot
    /// holding it.
    pub fn find(&self, bs: &[u8]) -> (r: Option<usize>)
        requires
            self.wf(),
            1 <= bs@.len() <= SMALL_MAX,
        ensures
            match r {
                Some(o) => page_find_at(self.entries@, 0, bs@) == Some(o as int),
                None => page_find_at(self.entries@, 0, bs@) is None,
            },
    {
        let ghost s = self.entries@;
        let mut i: usize = 0;
        while i < PAGE_CAPACITY
            invariant
                self.wf(),
                s == self.entries@,
                1 <= bs@.len() <= SMALL_MAX,
                i <= PAGE_CAPACITY,
                slots_wf(s, i as int),
                page_find_at(s, 0, bs@) == page_find_at(s, i as int, bs@),
            decreases PAGE_CAPACITY - i,
        {
            let (len, ready) = read_slot_len(&self.entries, i);
            if ready {
                if len == 0 {
                    return None;
                }
                if len == bs.len() {
                    if bytes_match(&self.entries, i + 1, bs) {
                        proof {
                            assert(slot_bytes(s, i as int) =~= bs@);
                        }
                        return Some(i);
                    }
                }
                proof {
                    // a non-matching length rules the slot out
                    if slot_bytes(s, i as int) == bs@ {
                        assert(slot_bytes(s, i as int).len() == bs@.len());
                    }
                }
                i = i + 1 + len;
            } else {
                // a page at rest holds only ready slots
                proof {
                    assert(false);
                }
                i = i + 1 + len;
            }
        }
        None
    }

    /// Interns `bs` into this page: returns the offset of an existing equal
    /// slot, or appends a new slot at the terminator when there is room for
    /// it, or leaves the page unchanged when there is not.
    pub fn try_intern(&mut self, bs: &[u8]) -> (r: Option<usize>)
        requires
            old(self).wf(),
            1 <= bs@.len() <= SMALL_MAX,
            valid_utf8(bs@),
        ensures
            final(self).wf(),
            ({
                let s = old(self).entries@;
                let t = terminator_of(s, 0);
                match page_find_at(s, 0, bs@) {
                    Some(o) => r == Some(o as usize) && *final(self) == *old(self),
                    None => if t + 1 + bs@.len() <= PAGE_CAPACITY {
                        r == Some(t as usize) && final(self).entries@ == page_insert(s, bs@)
                    } else {
                        r is None && *final(self) == *old(self)
                    },
                }
            }),
    {
        let ghost s = self.entries@;
        let slice_len = bs.len();
        let mut i: usize = 0;
        while i < PAGE_CAPACITY
            invariant
                self.wf(),
                self.entries@ == s,
                old(self).entries@ == s,
                *self == *old(self),
                slice_len == bs@.len(),
                1 <= slice_len <= SMALL_MAX,
                valid_utf8(bs@),
                i <= PAGE_CAPACITY,
                slots_wf(s, i as int),
                page_find_at(s, 0, bs@) == page_find_at(s, i as int, bs@),
                terminator_of(s, 0) == terminator_of(s, i as int),
            decreases PAGE_CAPACITY - i,
        {
            let (len, ready) = read_slot_len(&self.entries, i);
            if ready {
                if len == 0 {
                    // the terminator: every earlier slot differs from `bs`
                    proof {
                        assert(terminator_of(s, i as int) == i as int);
                        assert(page_find_at(s, i as int, bs@) is None);
                    }
                    if i + 1 + slice_len <= PAGE_CAPACITY {
                        let ghost t = i as int;
                        // reserve the slot, then copy, then mark it ready
                        let not_ready_len = slice_len as u8 | NOT_READY;
                        let reserved = try_set_len(&mut self.entries, i, 0, not_ready_len);
                        proof {
                            assert(reserved);
                        }
                        let mut j: usize = 0;
                        while j < slice_len
                            invariant
                                self.entries@.len() == PAGE_CAPACITY,
                                old(self).entries@ == s,
                                j <= slice_len,
                                slice_len == bs@.len(),
                                1 <= slice_len <= SMALL_MAX,
                                t == i as int,
                                i + 1 + slice_len <= PAGE_CAPACITY,
                                self.entries@[t] == not_ready_len,
                                forall|m: int|
                                    0 <= m < PAGE_CAPACITY && m != t && !(t < m < t + 1 + j)
                                        ==> self.entries@[m] == s[m],
                                forall|m: int| 0 <= m < j ==> self.entries@[t + 1 + m] == bs@[m],
                            decreases slice_len - j,
                        {
                            self.entries[i + 1 + j] = bs[j];
                            j = j + 1;
                        }
                        let published = try_set_len(
                            &mut self.entries,
                            i,
                            not_ready_len,
                            not_ready_len & LEN_MASK,
                        );
                        proof {
                            assert(published);
                            let l = slice_len as u8;
                            assert((l | 0x80) & 0x7f == l && (l | 0x80) != 0) by (bit_vector)
                                requires
                                    l <= 127,
                            ;
                            lemma_terminator(s, 0);
                            lemma_page_insert_shape(s, bs@);
                            assert(self.entries@ =~= page_insert(s, bs@));
                            lemma_insert_wf(s, self.entries@, bs@, t, 0);
                            assert(page_find_at(s, 0, bs@) is None);
                            assert(terminator_of(s, 0) == t);
                        }
                        return Some(i);
                    } else {
                        proof {
                            assert(page_find_at(s, 0, bs@) is None);
                            assert(terminator_of(s, 0) == i as int);
                        }
                        return None;
                    }
                }
                if len == slice_len {
                    if bytes_match(&self.entries, i + 1, bs) {
                        proof {
                            assert(slot_bytes(s, i as int) =~= bs@);
                            assert(page_find_at(s, i as int, bs@) == Some(i as int));
                        }
                        return Some(i);
                    }
                }
                proof {
                    if slot_bytes(s, i as int) == bs@ {
                        assert(slot_bytes(s, i as int).len() == bs@.len());
                    }
                }
                i = i + 1 + len;
            } else {
                // a page at rest holds only ready slots
                proof {
                    assert(false);
                }
                i = i + 1 + len;
            }
        }
        proof {
            assert(page_find_at(s, PAGE_CAPACITY as int, bs@) is None);
            assert(terminator_of(s, PAGE_CAPACITY as int) == PAGE_CAPACITY as int);
        }
        None
    }

    /// Reads the slot whose length byte sits at `len_index`, for listing a
    /// page's contents: the slot's text — present once the slot is ready,
    /// which at rest every slot is — and the offset just past the slot.
    /// Nothing at the terminator or the page end.
    pub fn debug_slot(&self, len_index: usize) -> (r: Option<(Option<String>, usize)>)
        requires
            self.wf(),
            slots_wf(self.entries@, len_index as int),
        ensures
            ({
                let s = self.entries@;
                if len_index < PAGE_CAPACITY && s[len_index as int] != 0 {
                    match r {
                        Some(p) => {
                            &&& p.0 is Some
                            &&& p.0->0@ == vstd::utf8::decode_utf8(
                                slot_bytes(s, len_index as int),
                            )
                            &&& p.1 == len_index + 1 + s[len_index as int]
                        },
                        None => false,
                    }
                } else {
                    r is None
                }
            }),
    {
        let ghost s = self.entries@;
        if len_index < PAGE_CAPACITY {
            let (len, ready) = read_slot_len(&self.entries, len_index);
            if len != 0 {
                let string = if ready {
                    let mut bytes: Vec<u8> = Vec::new();
                    let mut m: usize = 0;
                    while m < len
                        invariant
                            m <= len,
                            s == self.entries@,
                            s.len() == PAGE_CAPACITY,
                            len_index + 1 + len <= PAGE_CAPACITY,
                            len == s[len_index as int],
                            bytes@.len() == m,
                            forall|i: int| 0 <= i < m ==> bytes@[i] == s[len_index + 1 + i],
                        decreases len - m,
                    {
                        bytes.push(self.entries[len_index + 1 + m]);
                        m = m + 1;
                    }
                    proof {
                        assert(bytes@ =~= slot_bytes(s, len_index as int));
                    }
                    Some(crate::string_from_utf8(bytes))
                } else {
                    None
                };
                proof {
                    assert(ready);
                }
                Some((string, len_index + 1 + len))
            } else {
                None
            }
        } else {
            None
        }
    }
}

/// Searches a shard's page list for `bs`: the page index and slot offset
/// of the first slot holding it.
pub fn small_shard_find(pages: &Vec<Page>, bs: &[u8]) -> (r: Option<(usize, usize)>)
    requires
        forall|j: int| 0 <= j < pages@.len() ==> (#[trigger] pages@[j]).wf(),
        1 <= bs@.len() <= SMALL_MAX,
    ensures
        match r {
            Some(jo) => find_small_in(pages@, bs@, 0) == Some((jo.0 as int, jo.1 as int)),
            None => find_small_in(pages@, bs@, 0) is None,
        },
{
    let n = pages.len();
    let mut j: usize = 0;
    while j < n
        invariant
            forall|j1: int| 0 <= j1 < pages@.len() ==> (#[trigger] pages@[j1]).wf(),
            1 <= bs@.len() <= SMALL_MAX,
            n == pages@.len(),
            j <= n,
            find_small_in(pages@, bs@, 0) == find_small_in(pages@, bs@, j as int),
        decreases n - j,
    {
        match pages[j].find(bs) {
            Some(o) => {
                return Some((j, o));
            },
            None => {},
        }
        j = j + 1;
    }
    None
}

/// Interns `bs` into a shard's page list: reuses the first slot already
/// holding it, else appends a slot to the first page with room, else chains
/// a fresh page holding it. Returns the page index and slot offset.
pub fn small_shard_intern(pages: &mut Vec<Page>, bs: &[u8]) -> (r: (usize, usize))
    requires
        forall|j: int| 0 <= j < old(pages)@.len() ==> (#[trigger] old(pages)@[j]).wf(),
        pages_no_fit(old(pages)@),
        1 <= bs@.len() <= SMALL_MAX,
        valid_utf8(bs@),
    ensures
        forall|j: int| 0 <= j < final(pages)@.len() ==> (#[trigger] final(pages)@[j]).wf(),
        pages_no_fit(final(pages)@),
        old(pages)@.len() <= final(pages)@.len() <= old(pages)@.len() + 1,
        // the result names the slot now holding `bs`, and it is the slot a
        // search finds
        find_small_in(final(pages)@, bs@, 0) == Some((r.0 as int, r.1 as int)),
        r.0 < final(pages)@.len(),
        is_slot_at(final(pages)@[r.0 as int].entries@, 0, r.1 as int),
        slot_bytes(final(pages)@[r.0 as int].entries@, r.1 as int) == bs@,
        // deduplication: an existing slot is reused and nothing changes
        find_small_in(old(pages)@, bs@, 0) is Some ==> {
            &&& find_small_in(old(pages)@, bs@, 0) == Some((r.0 as int, r.1 as int))
            &&& final(pages)@ == old(pages)@
        },
        // searches for every other string are unchanged
        forall|cs: Seq<u8>| cs != bs@ ==> #[trigger] find_small_in(final(pages)@, cs, 0)
            == find_small_in(old(pages)@, cs, 0),
        // every existing slot is kept, with its bytes
        forall|j: int, o: int|
            0 <= j < old(pages)@.len() && #[trigger] is_slot_at(old(pages)@[j].entries@, 0, o)
                ==> is_slot_at(final(pages)@[j].entries@, 0, o)
                    && slot_bytes(final(pages)@[j].entries@, o)
                        == slot_bytes(old(pages)@[j].entries@, o),
        // every slot is an existing slot or holds the interned bytes
        forall|j: int, o: int|
            0 <= j < final(pages)@.len() && #[trigger] is_slot_at(final(pages)@[j].entries@, 0, o)
                ==> (j < old(pages)@.len() && is_slot_at(old(pages)@[j].entries@, 0, o))
                    || slot_bytes(final(pages)@[j].entries@, o) == bs@,
        // a fresh slot goes to the first page with room, at its terminator,
        // or to a fresh page chained at the tail
        find_small_in(old(pages)@, bs@, 0) is None ==> {
            &&& r.0 == first_page_with_room(old(pages)@, bs@.len() as int, 0)
            &&& r.0 < old(pages)@.len() ==> r.1 == terminator_of(
                old(pages)@[r.0 as int].entries@,
                0,
            ) && final(pages)@.len() == old(pages)@.len()
            &&& r.0 == old(pages)@.len() ==> r.1 == 0 && final(pages)@.len() == old(
                pages,
            )@.len() + 1
        },
{
    let ghost ps0 = old(pages)@;
    let n = pages.len();
    let mut j: usize = 0;
    while j < n
        invariant
            pages@ == ps0,
            ps0 == old(pages)@,
            forall|j1: int| 0 <= j1 < ps0.len() ==> (#[trigger] ps0[j1]).wf(),
            pages_no_fit(ps0),
            1 <= bs@.len() <= SMALL_MAX,
            valid_utf8(bs@),
            n == ps0.len(),
            j <= n,
            find_small_in(ps0, bs@, 0) == find_small_in(ps0, bs@, j as int),
            first_page_with_room(ps0, bs@.len() as int, 0) == first_page_with_room(
                ps0,
                bs@.len() as int,
                j as int,
            ),
            forall|j1: int|
                0 <= j1 < j ==> terminator_of((#[trigger] ps0[j1]).entries@, 0) + 1 + bs@.len()
                    > PAGE_CAPACITY,
        decreases n - j,
    {
        let ghost s = ps0[j as int].entries@;
        let ghost t = terminator_of(s, 0);
        let res = pages[j].try_intern(bs);
        match res {
            Some(o) => {
                proof {
                    assert(ps0[j as int].wf());
                    lemma_terminator(s, 0);
                    if page_find_at(s, 0, bs@) is Some {
                        // reuse of an existing slot: nothing changed
                        lemma_find_some(s, 0, bs@);
                        lemma_slot_in_range(s, 0, page_find_at(s, 0, bs@)->0);
                        assert(pages@ =~= ps0);
                        assert(page_find_at(s, 0, bs@) == Some(o as int));
                        assert(find_small_in(ps0, bs@, j as int) == Some((j as int, o as int)));
                        assert(is_slot_at(ps0[j as int].entries@, 0, o as int));
                        assert(slot_bytes(ps0[j as int].entries@, o as int) == bs@);
                    } else {
                        // a new slot was appended at the terminator of page j
                        assert(o as int == t);
                        lemma_small_shard_insert(ps0, pages@, bs@, j as int, t);
                    }
                }
                return (j, o);
            },
            None => {
                proof {
                    assert(pages@ =~= ps0);
                    assert(find_small_in(ps0, bs@, j as int) == find_small_in(
                        ps0,
                        bs@,
                        j as int + 1,
                    ));
                }
                j = j + 1;
            },
        }
    }
    // every page lacked both the string and the room for it: chain a fresh
    // page and intern into it
    let mut page = Page::new();
    let res = page.try_intern(bs);
    proof {
        assert(res == Some(0usize));
    }
    pages.push(page);
    proof {
        lemma_small_shard_append(ps0, pages@, bs@);
    }
    (n, 0)
}

/// What holds of a shard after `try_intern` appended a slot to page `j`.
proof fn lemma_small_shard_insert(ps0: Seq<Page>, ps1: Seq<Page>, bs: Seq<u8>, j: int, t: int)
    requires
        forall|j1: int| 0 <= j1 < ps0.len() ==> (#[trigger] ps0[j1]).wf(),
        pages_no_fit(ps0),
        1 <= bs.len() <= SMALL_MAX,
        valid_utf8(bs),
        0 <= j < ps0.len(),
        t == terminator_of(ps0[j].entries@, 0),
        page_find_at(ps0[j].entries@, 0, bs) is None,
        t + 1 + bs.len() <= PAGE_CAPACITY,
        find_small_in(ps0, bs, 0) == find_small_in(ps0, bs, j),
        forall|j1: int|
            0 <= j1 < j ==> terminator_of((#[trigger] ps0[j1]).entries@, 0) + 1 + bs.len()
                > PAGE_CAPACITY,
        ps1.len() == ps0.len(),
        forall|j1: int| 0 <= j1 < ps0.len() && j1 != j ==> ps1[j1] == ps0[j1],
        ps1[j].wf(),
        ps1[j].entries@ == page_insert(ps0[j].entries@, bs),
    ensures
        forall|j1: int| 0 <= j1 < ps1.len() ==> (#[trigger] ps1[j1]).wf(),
        pages_no_fit(ps1),
        find_small_in(ps1, bs, 0) == Some((j, t)),
        is_slot_at(ps1[j].entries@, 0, t),
        slot_bytes(ps1[j].entries@, t) == bs,
        find_small_in(ps0, bs, 0) is None,
        forall|cs: Seq<u8>| cs != bs ==> #[trigger] find_small_in(ps1, cs, 0) == find_small_in(
            ps0,
            cs,
            0,
        ),
        forall|j1: int, o: int|
            0 <= j1 < ps0.len() && #[trigger] is_slot_at(ps0[j1].entries@, 0, o) ==> is_slot_at(
                ps1[j1].entries@,
                0,
                o,
            ) && slot_bytes(ps1[j1].entries@, o) == slot_bytes(ps0[j1].entries@, o),
        forall|j1: int, o: int|
            0 <= j1 < ps1.len() && #[trigger] is_slot_at(ps1[j1].entries@, 0, o) ==> (0 <= j1
                < ps0.len() && is_slot_at(ps0[j1].entries@, 0, o)) || slot_bytes(
                ps1[j1].entries@,
                o,
            ) == bs,
{
    let s = ps0[j].entries@;
    let s2 = ps1[j].entries@;
    assert(ps0[j].wf());
    lemma_terminator(s, 0);
    lemma_page_insert_shape(s, bs);
    lemma_insert_wf(s, s2, bs, t, 0);
    // `bs` was nowhere in the shard: pages before `j` had no room for it,
    // pages from `j` on were searched without a match
    if find_small_in(ps0, bs, j) is Some {
        lemma_find_small_some(ps0, bs, j);
        let (j2, o2) = find_small_in(ps0, bs, j)->0;
        lemma_find_some(ps0[j2].entries@, 0, bs);
        if j2 == j {
            assert(false);
        } else {
            lemma_slot_in_range(ps0[j2].entries@, 0, o2);
            assert(terminator_of(ps0[j].entries@, 0) + 1 + ps0[j2].entries@[o2] > PAGE_CAPACITY);
            assert(false);
        }
    }
    lemma_find_small_none(ps0, bs, 0);
    // the new slot is what a search now finds
    lemma_insert_find(s, s2, bs, t, 0, bs);
    assert(page_find_at(s2, 0, bs) == Some(t));
    assert(ps1 =~= ps0.update(j, ps1[j]));
    lemma_find_small_first(ps1, bs, 0, j, t);
    // searches for other strings are unchanged
    assert forall|cs: Seq<u8>| cs != bs implies #[trigger] find_small_in(ps1, cs, 0)
        == find_small_in(ps0, cs, 0) by {
        lemma_insert_find(s, s2, bs, t, 0, cs);
        lemma_find_small_update(ps0, ps1[j], j, cs, 0);
    }
    // slots are preserved, and the one new slot holds `bs`
    assert forall|j1: int, o: int|
        0 <= j1 < ps0.len() && #[trigger] is_slot_at(ps0[j1].entries@, 0, o) implies is_slot_at(
        ps1[j1].entries@,
        0,
        o,
    ) && slot_bytes(ps1[j1].entries@, o) == slot_bytes(ps0[j1].entries@, o) by {
        if j1 == j {
            lemma_insert_slots(s, s2, bs, t, 0, o);
        }
    }
    assert forall|j1: int, o: int|
        0 <= j1 < ps1.len() && #[trigger] is_slot_at(ps1[j1].entries@, 0, o) implies (0 <= j1
        < ps0.len() && is_slot_at(ps0[j1].entries@, 0, o)) || slot_bytes(ps1[j1].entries@, o)
        == bs by {
        if j1 == j {
            lemma_insert_slots(s, s2, bs, t, 0, o);
        }
    }
    // the one new slot could not have fit into any earlier page, and the
    // old slots keep their witnesses
    assert forall|j2: int, o: int|
        0 <= j2 < ps1.len() && #[trigger] is_slot_at(ps1[j2].entries@, 0, o) implies forall|
        j1: int,
    |
        0 <= j1 < j2 ==> terminator_of((#[trigger] ps1[j1]).entries@, 0) + 1 + ps1[j2].entries@[o]
            > PAGE_CAPACITY by {
        if j2 == j {
            lemma_insert_slots(s, s2, bs, t, 0, o);
            if is_slot_at(s, 0, o) {
                lemma_slot_in_range(s, 0, o);
                assert(s2[o] == s[o]);
                assert forall|j1: int| 0 <= j1 < j2 implies terminator_of(
                    (#[trigger] ps1[j1]).entries@,
                    0,
                ) + 1 + ps1[j2].entries@[o] > PAGE_CAPACITY by {
                    assert(ps1[j1] == ps0[j1]);
                }
            } else {
                assert(o == t);
                assert(s2[o] == bs.len() as u8);
                assert forall|j1: int| 0 <= j1 < j2 implies terminator_of(
                    (#[trigger] ps1[j1]).entries@,
                    0,
                ) + 1 + ps1[j2].entries@[o] > PAGE_CAPACITY by {
                    assert(ps1[j1] == ps0[j1]);
                }
            }
        } else {
            assert(ps1[j2] == ps0[j2]);
            assert forall|j1: int| 0 <= j1 < j2 implies terminator_of(
                (#[trigger] ps1[j1]).entries@,
                0,
            ) + 1 + ps1[j2].entries@[o] > PAGE_CAPACITY by {
                assert(terminator_of(ps0[j1].entries@, 0) + 1 + ps0[j2].entries@[o]
                    > PAGE_CAPACITY);
                if j1 == j {
                    lemma_terminator(s, 0);
                    assert(terminator_of(s2, 0) == t + 1 + bs.len());
                }
            }
        }
    }
}

/// What holds of a shard after a fresh page holding only `bs` was chained
/// onto it.
proof fn lemma_small_shard_append(ps0: Seq<Page>, ps1: Seq<Page>, bs: Seq<u8>)
    requires
        forall|j1: int| 0 <= j1 < ps0.len() ==> (#[trigger] ps0[j1]).wf(),
        pages_no_fit(ps0),
        1 <= bs.len() <= SMALL_MAX,
        valid_utf8(bs),
        find_small_in(ps0, bs, 0) is None,
        forall|j1: int|
            0 <= j1 < ps0.len() ==> terminator_of((#[trigger] ps0[j1]).entries@, 0) + 1 + bs.len()
                > PAGE_CAPACITY,
        ps1.len() == ps0.len() + 1,
        forall|j1: int| 0 <= j1 < ps0.len() ==> ps1[j1] == ps0[j1],
        ps1[ps0.len() as int].wf(),
        ps1[ps0.len() as int].entries@ == page_insert(
            Seq::new(PAGE_CAPACITY as nat, |m: int| 0u8),
            bs,
        ),
    ensures
        forall|j1: int| 0 <= j1 < ps1.len() ==> (#[trigger] ps1[j1]).wf(),
        pages_no_fit(ps1),
        find_small_in(ps1, bs, 0) == Some((ps0.len() as int, 0int)),
        is_slot_at(ps1[ps0.len() as int].entries@, 0, 0),
        slot_bytes(ps1[ps0.len() as int].entries@, 0) == bs,
        forall|cs: Seq<u8>| cs != bs ==> #[trigger] find_small_in(ps1, cs, 0) == find_small_in(
            ps0,
            cs,
            0,
        ),
        forall|j1: int, o: int|
            0 <= j1 < ps0.len() && #[trigger] is_slot_at(ps0[j1].entries@, 0, o) ==> is_slot_at(
                ps1[j1].entries@,
                0,
                o,
            ) && slot_bytes(ps1[j1].entries@, o) == slot_bytes(ps0[j1].entries@, o),
        forall|j1: int, o: int|
            0 <= j1 < ps1.len() && #[trigger] is_slot_at(ps1[j1].entries@, 0, o) ==> (0 <= j1
                < ps0.len() && is_slot_at(ps0[j1].entries@, 0, o)) || slot_bytes(
                ps1[j1].entries@,
                o,
            ) == bs,
{
    let z = Seq::new(PAGE_CAPACITY as nat, |m: int| 0u8);
    let pg = ps1[ps0.len() as int];
    let s2 = pg.entries@;
    assert(slots_wf(z, 0));
    assert(terminator_of(z, 0) == 0);
    lemma_page_insert_shape(z, bs);
    lemma_insert_wf(z, s2, bs, 0, 0);
    lemma_insert_find(z, s2, bs, 0, 0, bs);
    assert(page_find_at(z, 0, bs) is None);
    assert(page_find_at(s2, 0, bs) == Some(0int));
    assert(ps1 =~= ps0.push(pg));
    lemma_find_small_none(ps0, bs, 0);
    lemma_find_small_first(ps1, bs, 0, ps0.len() as int, 0);
    assert forall|cs: Seq<u8>| cs != bs implies #[trigger] find_small_in(ps1, cs, 0)
        == find_small_in(ps0, cs, 0) by {
        lemma_insert_find(z, s2, bs, 0, 0, cs);
        assert(page_find_at(z, 0, cs) is None);
        assert(page_find_at(s2, 0, cs) is None);
        lemma_find_small_push(ps0, pg, cs, 0);
    }
    assert forall|j1: int, o: int|
        0 <= j1 < ps1.len() && #[trigger] is_slot_at(ps1[j1].entries@, 0, o) implies (0 <= j1
        < ps0.len() && is_slot_at(ps0[j1].entries@, 0, o)) || slot_bytes(ps1[j1].entries@, o)
        == bs by {
        if j1 == ps0.len() as int {
            lemma_insert_slots(z, s2, bs, 0, 0, o);
            assert(!is_slot_at(z, 0, o));
            assert(o == 0);
        }
    }
    assert forall|j2: int, o: int|
        0 <= j2 < ps1.len() && #[trigger] is_slot_at(ps1[j2].entries@, 0, o) implies forall|
        j1: int,
    |
        0 <= j1 < j2 ==> terminator_of((#[trigger] ps1[j1]).entries@, 0) + 1 + ps1[j2].entries@[o]
            > PAGE_CAPACITY by {
        if j2 == ps0.len() as int {
            lemma_insert_slots(z, s2, bs, 0, 0, o);
            assert(o == 0);
            assert(s2[0] == bs.len() as u8);
            assert forall|j1: int| 0 <= j1 < j2 implies terminator_of(
                (#[trigger] ps1[j1]).entries@,
                0,
            ) + 1 + ps1[j2].entries@[o] > PAGE_CAPACITY by {
                assert(ps1[j1] == ps0[j1]);
            }
        } else {
            assert(ps1[j2] == ps0[j2]);
            assert forall|j1: int| 0 <= j1 < j2 implies terminator_of(
                (#[trigger] ps1[j1]).entries@,
                0,
            ) + 1 + ps1[j2].entries@[o] > PAGE_CAPACITY by {
                assert(ps1[j1] == ps0[j1]);
            }
        }
    }
}

impl<const P: usize> PoolInner<P> {
    /// Searches the small tier for the string, in the shard its hash
    /// selects. A found handle counts one more reference.
    pub(crate) fn find_small(&mut self, string: &str) -> (r: Option<PoolStr<P>>)
        requires
            old(self).wf(),
            old(self).ref_count < usize::MAX,
            1 <= string.spec_bytes().len() <= SMALL_MAX,
        ensures
            final(self).wf(),
            final(self).pages == old(self).pages,
            final(self).large == old(self).large,
            r == old(self).find_small_spec(string.spec_bytes()),
            r is Some ==> r->0.loc is Small,
            r is Some ==> final(self).handle_valid(r->0) && final(self).handle_bytes(r->0)
                == string.spec_bytes(),
            final(self).ref_count as int == old(self).ref_count + (if r is Some {
                1int
            } else {
                0int
            }),
    {
        let bs = string.as_bytes();
        let k = Self::index_for(string);
        proof {
            assert(old(self).small_shard_wf(k as int));
        }
        let found = small_shard_find(&self.pages[k], bs);
        match found {
            Some((j, o)) => {
                proof {
                    lemma_find_small_some(self.pages[k as int]@, bs@, 0);
                    lemma_find_some(self.pages[k as int]@[j as int].entries@, 0, bs@);
                }
                self.inc_ref_count();
                Some(PoolStr { loc: Loc::Small { shard: k, page: j, offset: o } })
            },
            None => None,
        }
    }

    /// Interns the string into the small tier, in the shard its hash
    /// selects: reuses the first slot already holding its bytes, else
    /// appends a slot to the first page with room, else chains a fresh
    /// page. The handle counts one more reference.
    pub(crate) fn intern_small(&mut self, string: &str) -> (r: PoolStr<P>)
        requires
            old(self).wf(),
            old(self).ref_count < usize::MAX,
            1 <= string.spec_bytes().len() <= SMALL_MAX,
        ensures
            final(self).wf(),
            final(self).large == old(self).large,
            final(self).ref_count as int == old(self).ref_count + 1,
            r.loc is Small,
            final(self).handle_valid(r),
            final(self).handle_bytes(r) == string.spec_bytes(),
            final(self).find_small_spec(string.spec_bytes()) == Some(r),
            old(self).find_small_spec(string.spec_bytes()) is Some ==> Some(r) == old(self).find_small_spec(string.spec_bytes()),
            old(self).find_small_spec(string.spec_bytes()) is None ==> r == old(
                self,
            ).small_intern_target(string.spec_bytes()),
            forall|cs: Seq<u8>| cs != string.spec_bytes() ==> #[trigger] final(self).find_small_spec(cs) == old(self).find_small_spec(cs),
            forall|g: PoolStr<P>| #[trigger] old(self).handle_valid(g) ==> final(self).handle_valid(g) && final(self).handle_bytes(g) == old(self).handle_bytes(g),
            forall|k: int|
                0 <= k < P ==> old(self).pages[k]@.len() <= (#[trigger] final(self).pages[k]@.len()) <= old(self).pages[k]@.len() + 1,
            old(self).find_small_spec(string.spec_bytes()) is Some ==> forall|k: int|
                0 <= k < P ==> (#[trigger] final(self).pages[k]@.len()) == old(self).pages[k]@.len(),
            // pages grow only in the string's own shard, and only when no
            // page there held an equal slot or had room for one
            forall|k: int|
                0 <= k < P && k != shard_of::<P>(string.spec_bytes()) ==> final(self).pages[k]
                    == old(self).pages[k],
            ({
                let bs = string.spec_bytes();
                let k = shard_of::<P>(bs);
                let ps0 = old(self).pages[k]@;
                final(self).pages[k]@.len() == ps0.len() + (if old(self).find_small_spec(bs)
                    is None && first_page_with_room(ps0, bs.len() as int, 0) == ps0.len() {
                    1int
                } else {
                    0int
                })
            }),
    {
        let ghost bsg = string.spec_bytes();
        let ghost inner0 = *old(self);
        let bs = string.as_bytes();
        let k = Self::index_for(string);
        proof {
            assert(inner0.small_shard_wf(k as int));
            vstd::utf8::encode_utf8_valid_utf8(string@);
        }
        let ghost ps0 = self.pages[k as int]@;
        let (j, o) = small_shard_intern(&mut self.pages[k], bs);
        self.inc_ref_count();
        let r = PoolStr { loc: Loc::Small { shard: k, page: j, offset: o } };
        proof {
            let ps1 = self.pages[k as int]@;
            assert(self.pages@ =~= inner0.pages@.update(k as int, self.pages@[k as int]));
            assert(forall|k1: int|
                0 <= k1 < P && k1 != k ==> self.pages[k1] == inner0.pages[k1]);
            // the shard stays well-formed: its new slot, if any, holds the
            // interned bytes, which hash to this shard
            assert forall|j1: int, o1: int|
                0 <= j1 < ps1.len() && #[trigger] is_slot_at(ps1[j1].entries@, 0, o1) implies
                shard_of::<P>(slot_bytes(ps1[j1].entries@, o1)) == k as int by {
                if j1 < ps0.len() && is_slot_at(ps0[j1].entries@, 0, o1) {
                    assert(shard_of::<P>(slot_bytes(ps0[j1].entries@, o1)) == k as int);
                } else {
                    assert(slot_bytes(ps1[j1].entries@, o1) == bsg);
                }
            }
            assert(self.small_shard_wf(k as int));
            assert forall|k1: int| 0 <= k1 < P implies self.small_shard_wf(k1) by {
                if k1 != k {
                    assert(inner0.small_shard_wf(k1));
                }
            }
            assert forall|k1: int| 0 <= k1 < P implies self.large_shard_wf(k1) by {
                assert(inner0.large_shard_wf(k1));
            }
            // the handle and the search agree
            assert(final(self).find_small_spec(bsg) == Some(r));
            // searches for other strings are unchanged
            assert forall|cs: Seq<u8>| cs != bsg implies #[trigger] final(self).find_small_spec(cs) == inner0.find_small_spec(cs) by {
                if shard_of::<P>(cs) != k as int {
                    crate::lemma_shard_of_bound::<P>(cs);
                    assert(self.pages[shard_of::<P>(cs)] == inner0.pages[shard_of::<P>(cs)]);
                } else {
                    assert(find_small_in(ps1, cs, 0) == find_small_in(ps0, cs, 0));
                }
            }
            // live handles stay live, with their bytes
            assert forall|g: PoolStr<P>| #[trigger] inner0.handle_valid(g) implies final(self).handle_valid(g) && final(self).handle_bytes(g) == inner0.handle_bytes(g) by {
                match g.loc {
                    Loc::Empty => {},
                    Loc::Small { shard, page, offset } => {
                        if shard == k {
                            assert(is_slot_at(ps0[page as int].entries@, 0, offset as int));
                        } else {
                            assert(self.pages[shard as int] == inner0.pages[shard as int]);
                        }
                    },
                    Loc::Large { shard, index } => {},
                }
            }
            if inner0.find_small_spec(bsg) is Some {
                assert(find_small_in(ps0, bsg, 0) is Some);
                assert forall|k1: int| 0 <= k1 < P implies (#[trigger] final(self).pages[k1]@.len()) == inner0.pages[k1]@.len() by {
                    if k1 != k as int {
                        assert(self.pages[k1] == inner0.pages[k1]);
                    }
                }
            }
        }
        r
    }
}

} // verus!
