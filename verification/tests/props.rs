use strpool::{Loc, Pool, PoolStr};

#[test]
fn empty_string_sentinel() {
    let mut pool: Pool<1> = Pool::new();
    assert_eq!(pool.find(""), Some(PoolStr::empty()));
    let h = pool.intern("");
    assert_eq!(h, PoolStr::empty());
    assert_eq!(h.deref(&pool), "");
    assert_eq!(pool.ref_count(), 1);
    // cloning and releasing the empty handle changes no refcount
    let c = pool.clone_handle(h);
    assert_eq!(pool.ref_count(), 1);
    pool.release(c);
    pool.release(h);
    assert_eq!(pool.ref_count(), 1);
    assert_eq!(pool.find(""), Some(PoolStr::empty()));
}

#[test]
fn content_fidelity_and_dedup() {
    let mut pool: Pool<1> = Pool::new();
    let h1 = pool.intern("abc");
    let h2 = pool.intern("abc");
    assert_eq!(h1.deref(&pool), "abc");
    assert_eq!(h2.deref(&pool), "abc");
    // sequential interning of the same string yields the same slot
    assert_eq!(h1, h2);
    assert!(pool.handle_eq(h1, h2));
}

#[test]
fn equality_soundness() {
    let mut pool: Pool<1> = Pool::new();
    let a = pool.intern("alpha");
    let b = pool.intern("beta");
    let a2 = pool.intern("alpha");
    assert!(pool.handle_eq(a, a2));
    assert!(!pool.handle_eq(a, b));
    // the empty handle equals only handles of empty content
    let e = pool.intern("");
    assert!(pool.handle_eq(e, PoolStr::empty()));
    assert!(!pool.handle_eq(e, a));
}

#[test]
fn find_does_not_insert() {
    let mut pool: Pool<1> = Pool::new();
    assert_eq!(pool.find("missing"), None);
    assert_eq!(pool.inner.pages[0].len(), 0);
    assert_eq!(pool.inner.large[0].len(), 0);
    // still absent: find never inserts
    assert_eq!(pool.find("missing"), None);
    let h = pool.intern("missing");
    let f = pool.find("missing").unwrap();
    assert_eq!(f, h);
    assert_eq!(f.deref(&pool), "missing");
}

#[test]
fn boundary_lengths() {
    let mut pool: Pool<1> = Pool::new();
    let s0 = "";
    let s1 = "x";
    let s126 = "a".repeat(126);
    let s127 = "b".repeat(127);
    let s1000 = "c".repeat(1000);

    let h0 = pool.intern(s0);
    let h1 = pool.intern(s1);
    let h126 = pool.intern(&s126);
    let h127 = pool.intern(&s127);
    let h1000 = pool.intern(&s1000);

    assert!(matches!(h0.loc, Loc::Empty));
    assert!(matches!(h1.loc, Loc::Small { .. }));
    assert!(matches!(h126.loc, Loc::Small { .. }));
    assert!(matches!(h127.loc, Loc::Large { .. }));
    assert!(matches!(h1000.loc, Loc::Large { .. }));

    assert_eq!(h0.deref(&pool), s0);
    assert_eq!(h1.deref(&pool), s1);
    assert_eq!(h126.deref(&pool), s126.as_str());
    assert_eq!(h127.deref(&pool), s127.as_str());
    assert_eq!(h1000.deref(&pool), s1000.as_str());

    assert!(pool.find(&s126).is_some());
    assert!(pool.find(&s127).is_some());
}

#[test]
fn slot_layout_is_packed() {
    let mut pool: Pool<1> = Pool::new();
    let a = pool.intern("abc");
    assert_eq!(a.loc, Loc::Small { shard: 0, page: 0, offset: 0 });
    // the next slot starts right after [len]["abc"]
    let b = pool.intern("de");
    assert_eq!(b.loc, Loc::Small { shard: 0, page: 0, offset: 4 });
    let a2 = pool.find("abc").unwrap();
    assert_eq!(a2.loc, Loc::Small { shard: 0, page: 0, offset: 0 });
}

#[test]
fn page_filled_to_the_byte() {
    // eight strings of length 125 fill the 1008 slot bytes exactly:
    // 8 * (1 + 125) = 1008
    let mut pool: Pool<1> = Pool::new();
    let mut handles = Vec::new();
    let mut strings = Vec::new();
    for i in 0..8 {
        let s = format!("{}", i).repeat(125);
        let h = pool.intern(&s);
        handles.push(h);
        strings.push(s);
    }
    assert_eq!(pool.inner.pages[0].len(), 1);
    // a short string must go into a fresh page, never straddling pages
    let yikes = pool.intern("yikes");
    assert_eq!(pool.inner.pages[0].len(), 2);
    assert_eq!(yikes.loc, Loc::Small { shard: 0, page: 1, offset: 0 });
    for (h, s) in handles.iter().zip(strings.iter()) {
        assert_eq!(h.deref(&pool), s.as_str());
    }
    assert_eq!(yikes.deref(&pool), "yikes");
    assert!(pool.find("yikes").is_some());
}

#[test]
fn large_tier_roundtrip() {
    let mut pool: Pool<1> = Pool::new();
    let s = "x".repeat(250);
    let h = pool.intern(&s);
    assert!(matches!(h.loc, Loc::Large { .. }));
    let f = pool.find(&s).unwrap();
    assert_eq!(f, h);
    assert_eq!(f.deref(&pool), s.as_str());
    // interning again reuses the entry
    let h2 = pool.intern(&s);
    assert_eq!(h2, h);
    assert_eq!(pool.inner.large[0].len(), 1);
}

#[test]
fn repeated_intern_stays_bounded() {
    let mut pool: Pool<1> = Pool::new();
    let small = "again";
    let large = "y".repeat(300);
    let h0 = pool.intern(small);
    let g0 = pool.intern(&large);
    for _ in 0..10_000 {
        let h = pool.intern(small);
        assert_eq!(h, h0);
        let g = pool.intern(&large);
        assert_eq!(g, g0);
    }
    assert_eq!(pool.inner.pages[0].len(), 1);
    assert_eq!(pool.inner.large[0].len(), 1);
}

#[test]
fn refcount_closure() {
    let mut pool: Pool<1> = Pool::new();
    assert_eq!(pool.ref_count(), 1);
    let small = pool.intern("little");
    assert_eq!(pool.ref_count(), 2);
    let large_s = "z".repeat(200);
    let large = pool.intern(&large_s);
    assert_eq!(pool.ref_count(), 3);
    let found = pool.find("little").unwrap();
    assert_eq!(pool.ref_count(), 4);
    let cloned = pool.clone_handle(small);
    assert_eq!(pool.ref_count(), 5);
    // releasing in an arbitrary order returns to the baseline
    pool.release(cloned);
    pool.release(small);
    pool.release(large);
    pool.release(found);
    assert_eq!(pool.ref_count(), 1);
    // the storage survives releases: handles were references, not owners
    assert!(pool.find("little").is_some());
}

#[test]
fn sharded_pool_many_strings() {
    let mut pool: Pool<4> = Pool::new();
    let mut handles = Vec::new();
    let mut strings = Vec::new();
    for i in 0..100 {
        let s = format!("string-number-{}", i);
        handles.push(pool.intern(&s));
        strings.push(s);
    }
    // with four shards, 100 strings land on few shards: some shard holds
    // many of them, and every one is found again
    for (h, s) in handles.iter().zip(strings.iter()) {
        assert_eq!(h.deref(&pool), s.as_str());
        let f = pool.find(s).unwrap();
        assert_eq!(f, *h);
        if let Loc::Small { shard, .. } = h.loc {
            assert!(shard < 4);
        } else {
            panic!("short strings belong to the small tier");
        }
    }
    // distinct strings never share a handle, even within one shard
    for i in 0..handles.len() {
        for j in 0..handles.len() {
            if i != j {
                assert_ne!(handles[i], handles[j]);
            }
        }
    }
    let used: Vec<usize> = (0..4).filter(|k| !pool.inner.pages[*k].is_empty()).collect();
    assert!(!used.is_empty());
    // pages are chained only when needed: far fewer pages than strings
    let total_pages: usize = (0..4).map(|k| pool.inner.pages[k].len()).sum();
    assert!(total_pages <= 5);
    let total_large: usize = (0..4).map(|k| pool.inner.large[k].len()).sum();
    assert_eq!(total_large, 0);
}

#[test]
fn debug_slot_walks_a_page() {
    let mut pool: Pool<1> = Pool::new();
    pool.intern("abc");
    pool.intern("de");
    let page = &pool.inner.pages[0][0];
    let (text, next) = page.debug_slot(0).unwrap();
    assert_eq!(text.unwrap(), "abc");
    assert_eq!(next, 4);
    let (text, next) = page.debug_slot(4).unwrap();
    assert_eq!(text.unwrap(), "de");
    assert_eq!(next, 7);
    assert!(page.debug_slot(7).is_none());
}

#[test]
fn older_constructor_name() {
    let mut pool: Pool<1> = Pool::get_static_pool();
    assert_eq!(pool.ref_count(), 1);
    let h = pool.intern("legacy");
    assert_eq!(h.deref(&pool), "legacy");
}

#[test]
fn pool_cell_lazy_init() {
    let mut cell: strpool::PoolCell<1> = strpool::PoolCell::new();
    let p = cell.pool();
    assert_eq!(p.ref_count(), 1);
    let mut fresh: Pool<1> = Pool::new();
    fresh.intern("prepared");
    cell.swap(fresh);
    let p = cell.pool();
    assert!(p.inner.pages[0].len() > 0);
}
