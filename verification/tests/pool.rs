use strpool::{Pool, PoolStr};

#[test]
fn edge_case_1() {
    let small_string_1 = "00000000000000000000000000000000000000000000000000000000000000000000000000000000000000000000000000000000000000000000000000001";
    let small_string_2 = "00000000000000000000000000000000000000000000000000000000000000000000000000000000000000000000000000000000000000000000000000002";
    let small_string_3 = "00000000000000000000000000000000000000000000000000000000000000000000000000000000000000000000000000000000000000000000000000003";
    let small_string_4 = "00000000000000000000000000000000000000000000000000000000000000000000000000000000000000000000000000000000000000000000000000004";
    let small_string_5 = "00000000000000000000000000000000000000000000000000000000000000000000000000000000000000000000000000000000000000000000000000005";
    let small_string_6 = "00000000000000000000000000000000000000000000000000000000000000000000000000000000000000000000000000000000000000000000000000006";
    let small_string_7 = "00000000000000000000000000000000000000000000000000000000000000000000000000000000000000000000000000000000000000000000000000007";
    let small_string_8 = "00000000000000000000000000000000000000000000000000000000000000000000000000000000000000000000000000000000000000000000000000008";
    // now we have 8*(1+125) bytes taken = one page;
    let small_string_9 = "yikes";

    let mut pool: Pool<1> = Pool::new();
    pool.intern(small_string_1);
    pool.intern(small_string_2);
    pool.intern(small_string_3);
    pool.intern(small_string_4);
    pool.intern(small_string_5);
    pool.intern(small_string_6);
    pool.intern(small_string_7);
    pool.intern(small_string_8);

    // would previously fail
    pool.intern(small_string_9);

    println!("EDGE CASE: {:#?}", pool);
}

#[test]
fn various_tests() {
    let small_string_1 = "gjnberguieriu";
    let small_string_2 = "krjgegyhergyeurgyeyrg";
    let small_string_3 = "ryjtyjty";
    let large_string_1 = "gjnberguieriugjnberguieriugjnberguieriugjnberguieriugjnberguieriugjnberguieriugjnberguieriugjnberguieriugjnberguieriugjnberguieriugjnberguieriugjnberguieriugjnberguieriugjnberguieriugjnberguieriugjnberguieriugjnberguieriugjnberguieriu";
    let large_string_2 = "rgyeurgyeyrgrgyeurgyeyrgrgyeurgyeyrgrgyeurgyeyrgrgyeurgyeyrgrgyeurgyeyrgrgyeurgyeyrgrgyeurgyeyrgrgyeurgyeyrgrgyeurgyeyrgrgyeurgyeyrgrgyeurgyeyrg";
    let large_string_3 = "rjuebuinh99€€rjuebuinh99€€rjuebuinh99€€rjuebuinh99€€rjuebuinh99€€rjuebuinh99€€rjuebuinh99€€rjuebuinh99€€rjuebuinh99€€rjuebuinh99€€";

    let mut pool: Pool<4> = Pool::new();
    println!("BEFORE VARIOUS TESTS: {:#?}", pool);

    // check that they're not present initially
    assert_eq!(pool.find(""), Some(PoolStr::empty()));
    assert_eq!(pool.find(small_string_1), None);
    assert_eq!(pool.find(large_string_1), None);
    assert_eq!(pool.find(small_string_2), None);
    assert_eq!(pool.find(large_string_2), None);
    assert_eq!(pool.find(small_string_3), None);
    assert_eq!(pool.find(large_string_3), None);

    // insert them
    // check that they're present

    pool.intern(large_string_1);
    let h = pool.find(large_string_1).unwrap();
    assert_eq!(h.deref(&pool), large_string_1);

    pool.intern(small_string_1);
    let h = pool.find(small_string_1).unwrap();
    assert_eq!(h.deref(&pool), small_string_1);

    pool.intern(large_string_2);
    let h = pool.find(large_string_2).unwrap();
    assert_eq!(h.deref(&pool), large_string_2);

    pool.intern(small_string_2);
    let h = pool.find(small_string_2).unwrap();
    assert_eq!(h.deref(&pool), small_string_2);

    pool.intern(large_string_3);
    let h = pool.find(large_string_3).unwrap();
    assert_eq!(h.deref(&pool), large_string_3);

    pool.intern(small_string_3);
    let h = pool.find(small_string_3).unwrap();
    assert_eq!(h.deref(&pool), small_string_3);

    // check that they're still present
    let h = pool.find(large_string_1).unwrap();
    assert_eq!(h.deref(&pool), large_string_1);
    let h = pool.find(small_string_1).unwrap();
    assert_eq!(h.deref(&pool), small_string_1);
    let h = pool.find(large_string_2).unwrap();
    assert_eq!(h.deref(&pool), large_string_2);
    let h = pool.find(small_string_2).unwrap();
    assert_eq!(h.deref(&pool), small_string_2);
    let h = pool.find(large_string_3).unwrap();
    assert_eq!(h.deref(&pool), large_string_3);
    let h = pool.find(small_string_3).unwrap();
    assert_eq!(h.deref(&pool), small_string_3);

    println!("AFTER VARIOUS TESTS: {:#?}", pool);
}
