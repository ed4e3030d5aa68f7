use tchdb::db::{DbState, OCREAT, OREADER, OTRUNC, OWRITER, TCH};
use tchdb::errors::ErrorCode;

fn bv(s: &str) -> Vec<u8> {
    s.as_bytes().to_vec()
}

/// Opens a fresh writable database, the in-memory stand-in for
/// `open(path, OWRITER|OCREAT)` on a missing file.
fn open_fresh(db: &mut TCH) {
    assert!(db.open(None, OWRITER | OCREAT));
}

fn lib_test_new_del() {
    let db = TCH::create();
    assert!(db.last_error().is_none());
}

#[test]
fn test_new_del() {
    lib_test_new_del();
}

#[test]
fn tchdb_test_new_del() {
    let db = TCH::create();
    assert!(db.last_error().is_none());
    drop(db);
}

#[test]
fn lib_test_create_tch() {
    let mut db = TCH::create();
    let res = db.open(None, OWRITER | OCREAT);
    assert_eq!(OWRITER, 2);
    assert_eq!(res, true);

    let err = !db.put(&bv("foo"), &bv("value")) || !db.put(&bv("bar"), &bv("step")) || !db.put(
        &bv("baz"),
        &bv("jump"),
    );
    assert_eq!(err, false);

    let v2 = db.get(&bv("foo"));
    println!("{:?}", v2);
    assert_eq!(v2, Some(bv("value")));

    db.iter_init();
    while let Some(key) = db.iter_next() {
        let v2 = db.get(&key);
        println!("traverse :: {:?}:{:?}", key, v2);
    }
    let image = db.close().unwrap();

    let mut db = TCH::create();
    let res = db.open(Some(image), OREADER);
    assert_eq!(res, true);
    let v2 = db.get(&bv("foo"));
    println!("{:?}", v2);
    assert_eq!(v2, Some(bv("value")));

    db.iter_init();
    while let Some(key) = db.iter_next() {
        let v2 = db.get(&key);
        println!("traverse :: {:?}:{:?}", key, v2);
    }
    assert!(db.close().is_some());
}

#[test]
fn tchdb_test_create_tch() {
    let mut db = TCH::create();
    let res = db.tune(16777213, -1, -1, 1);
    assert_eq!(res, true);
    let res = db.set_cache_capacity(100000);
    assert_eq!(res, true);
    let res = db.open(None, (OWRITER | OCREAT) as u32);
    assert_eq!(OWRITER, 2);
    assert_eq!(res, true);

    assert!(db.put(&bv("foo"), &bv("value")));
    let v2 = db.get(&bv("foo"));
    println!("{:?}", v2);
    assert_eq!(v2, Some(bv("value")));

    db.iter_init();
    while let Some(key) = db.iter_next() {
        let v2 = db.get(&key);
        println!("traverse1 :: {:?}:{:?}", key, v2);
    }
    let image = db.close().unwrap();

    let mut db = TCH::create();
    let res = db.open(Some(image), OREADER as u32);
    assert_eq!(res, true);
    let v2 = db.get(&bv("foo"));
    println!("{:?}", v2);

    db.iter_init();
    while let Some(key) = db.iter_next() {
        let v2 = db.get(&key);
        println!("traverse2 :: {:?}:{:?}", key, v2);
    }
    assert!(db.close().is_some());
}

#[test]
#[allow(non_snake_case)]
fn test_TCH() {
    let mut db = TCH::create();
    db.tune(16777213, -1, -1, 1);
    db.set_cache_capacity(100000);
    db.open(None, (OWRITER | OCREAT) as u32);
    db.put(&bv("foo"), &bv("value"));
    let v = db.get(&bv("foo")).unwrap();
    assert_eq!(v, bv("value"));
    db.close();
}

/// The concrete three-record scenario: bucket count 1000, three records,
/// iteration pairs each key with its value, and a reader-mode reopen still
/// answers from the persisted image.
#[test]
fn test_three_records_scenario() {
    let mut db = TCH::create();
    assert!(db.tune(1000, -1, -1, 0));
    open_fresh(&mut db);
    assert!(db.put(&bv("foo"), &bv("value")));
    assert!(db.put(&bv("bar"), &bv("step")));
    assert!(db.put(&bv("baz"), &bv("jump")));
    assert_eq!(db.get(&bv("foo")), Some(bv("value")));
    assert_eq!(db.record_total(), 3);

    assert!(db.iter_init());
    let mut seen: Vec<(Vec<u8>, Vec<u8>)> = Vec::new();
    while let Some(key) = db.iter_next() {
        let value = db.get(&key).unwrap();
        seen.push((key, value));
    }
    assert_eq!(seen.len(), 3);
    let mut names: Vec<Vec<u8>> = seen.iter().map(|p| p.0.clone()).collect();
    names.sort();
    assert_eq!(names, vec![bv("bar"), bv("baz"), bv("foo")]);
    for (k, v) in &seen {
        let expect = if k == &bv("foo") {
            bv("value")
        } else if k == &bv("bar") {
            bv("step")
        } else {
            bv("jump")
        };
        assert_eq!(v, &expect);
    }

    let image = db.close().unwrap();
    let mut db = TCH::create();
    assert!(db.open(Some(image), OREADER));
    assert_eq!(db.get(&bv("bar")), Some(bv("step")));
}

/// Round trip: a put key is readable, in-session and across close/reopen.
#[test]
fn test_roundtrip_persistence() {
    let mut db = TCH::create();
    assert!(db.tune(8, 2, 3, 0));
    open_fresh(&mut db);
    assert!(db.put(&bv("alpha"), &bv("one")));
    assert!(db.put(&bv("beta"), &vec![]));
    assert_eq!(db.get(&bv("alpha")), Some(bv("one")));
    assert_eq!(db.get(&bv("beta")), Some(vec![]));
    let image = db.close().unwrap();

    let mut db = TCH::create();
    assert!(db.open(Some(image), OREADER));
    assert_eq!(db.get(&bv("alpha")), Some(bv("one")));
    assert_eq!(db.get(&bv("beta")), Some(vec![]));
    assert_eq!(db.get(&bv("gamma")), None);
}

/// Uniqueness: overwriting a key leaves exactly one record holding the
/// latest value.
#[test]
fn test_overwrite_unique() {
    let mut db = TCH::create();
    assert!(db.tune(4, -1, -1, 0));
    open_fresh(&mut db);
    assert!(db.put(&bv("k"), &bv("first")));
    assert!(db.put(&bv("k"), &bv("second-and-much-longer-than-the-first")));
    assert_eq!(db.get(&bv("k")), Some(bv("second-and-much-longer-than-the-first")));
    assert_eq!(db.record_total(), 1);
    assert!(db.iter_init());
    let mut count = 0;
    while let Some(key) = db.iter_next() {
        assert_eq!(key, bv("k"));
        count += 1;
    }
    assert_eq!(count, 1);
    // shrink back in place: the padding of the relocated record absorbs it
    assert!(db.put(&bv("k"), &bv("s")));
    assert_eq!(db.get(&bv("k")), Some(bv("s")));
    assert_eq!(db.record_total(), 1);
}

/// Removal: a removed key is gone from `get` and from a full iteration, and
/// its space is reused by a later write.
#[test]
fn test_remove() {
    let mut db = TCH::create();
    assert!(db.tune(4, -1, -1, 0));
    open_fresh(&mut db);
    assert!(db.put(&bv("stay"), &bv("here")));
    assert!(db.put(&bv("doomed"), &bv("gone")));
    assert!(db.remove(&bv("doomed")));
    assert_eq!(db.get(&bv("doomed")), None);
    assert!(!db.remove(&bv("doomed")));
    assert_eq!(db.last_error(), Some(ErrorCode::NotFound));
    assert!(db.iter_init());
    while let Some(key) = db.iter_next() {
        assert_ne!(key, bv("doomed"));
    }
    assert_eq!(db.record_total(), 1);
    // a same-sized record slots into the reclaimed span
    assert!(db.put(&bv("doome2"), &bv("gone")));
    assert_eq!(db.get(&bv("doome2")), Some(bv("gone")));
}

/// Iteration completeness: N distinct keys over few buckets come out
/// exactly once each.
#[test]
fn test_iteration_complete() {
    let mut db = TCH::create();
    assert!(db.tune(7, -1, -1, 0));
    open_fresh(&mut db);
    let n = 50;
    for i in 0..n {
        let key = bv(&format!("key-{}", i));
        let value = bv(&format!("value-{}", i));
        assert!(db.put(&key, &value));
    }
    assert_eq!(db.record_total(), n);
    assert!(db.iter_init());
    let mut seen: Vec<Vec<u8>> = Vec::new();
    while let Some(key) = db.iter_next() {
        seen.push(key);
    }
    assert_eq!(seen.len() as u64, n);
    let mut sorted = seen.clone();
    sorted.sort();
    sorted.dedup();
    assert_eq!(sorted.len() as u64, n, "every key exactly once");
    for i in 0..n {
        assert!(seen.contains(&bv(&format!("key-{}", i))));
    }
}

/// Read-only enforcement: `put` on a reader-mode handle fails with
/// `ReadOnly` and the file image is unchanged.
#[test]
fn test_readonly_enforced() {
    let mut db = TCH::create();
    assert!(db.tune(16, -1, -1, 0));
    open_fresh(&mut db);
    assert!(db.put(&bv("key"), &bv("val")));
    let image = db.close().unwrap();

    let mut db = TCH::create();
    assert!(db.open(Some(image.clone()), OREADER));
    assert!(!db.put(&bv("key"), &bv("other")));
    assert_eq!(db.last_error(), Some(ErrorCode::ReadOnly));
    assert!(!db.remove(&bv("key")));
    assert_eq!(db.last_error(), Some(ErrorCode::ReadOnly));
    assert_eq!(db.get(&bv("key")), Some(bv("val")));
    let image2 = db.close().unwrap();
    assert_eq!(image, image2, "reader session leaves the image unchanged");
}

/// Cache transparency: the same operations give the same answers at cache
/// capacity zero and at a positive capacity small enough to force eviction.
#[test]
fn test_cache_transparency() {
    let mut plain = TCH::create();
    let mut cached = TCH::create();
    assert!(plain.tune(5, -1, -1, 0));
    assert!(cached.tune(5, -1, -1, 0));
    assert!(cached.set_cache_capacity(2));
    open_fresh(&mut plain);
    open_fresh(&mut cached);
    let keys = ["a", "b", "c", "d", "e"];
    for (i, k) in keys.iter().enumerate() {
        let v = bv(&format!("v{}", i));
        assert!(plain.put(&bv(k), &v));
        assert!(cached.put(&bv(k), &v));
    }
    assert!(plain.remove(&bv("c")));
    assert!(cached.remove(&bv("c")));
    for k in keys.iter() {
        assert_eq!(plain.get(&bv(k)), cached.get(&bv(k)));
        // read twice: the second answer may come from the cache
        assert_eq!(plain.get(&bv(k)), cached.get(&bv(k)));
    }
}

/// Lifecycle errors: operations outside the opened state fail with
/// `InvalidState`, and tuning is frozen after the first open.
#[test]
fn test_lifecycle_errors() {
    let mut db = TCH::create();
    assert!(!db.put(&bv("k"), &bv("v")));
    assert_eq!(db.last_error(), Some(ErrorCode::InvalidState));
    assert_eq!(db.get(&bv("k")), None);
    assert!(db.close().is_none());
    open_fresh(&mut db);
    assert!(!db.tune(32, -1, -1, 0));
    assert_eq!(db.last_error(), Some(ErrorCode::InvalidState));
    assert!(!db.open(None, OWRITER | OCREAT), "open while already open");
    let image = db.close().unwrap();
    assert!(!db.tune(32, -1, -1, 0), "tuning stays frozen after a close");
    assert!(db.open(Some(image), OREADER), "a closed handle reopens");
}

/// Missing-file and corrupt-file opens.
#[test]
fn test_open_failures() {
    let mut db = TCH::create();
    assert!(!db.open(None, OREADER));
    assert_eq!(db.last_error(), Some(ErrorCode::NotFound));
    assert!(!db.open(Some(bv("not a database image")), OWRITER));
    assert_eq!(db.last_error(), Some(ErrorCode::CorruptFile));
    assert!(!db.open(None, 0), "some access mode is required");
    assert_eq!(db.last_error(), Some(ErrorCode::InvalidState));

    // flip one byte of a valid image: the open must reject it
    let mut good = TCH::create();
    assert!(good.tune(3, -1, -1, 0));
    open_fresh(&mut good);
    assert!(good.put(&bv("x"), &bv("y")));
    let mut image = good.close().unwrap();
    let last = image.len() - 20;
    image[last] ^= 0xff;
    assert!(!db.open(Some(image), OREADER));
    assert_eq!(db.last_error(), Some(ErrorCode::CorruptFile));
}

/// Truncation: `OWRITER|OTRUNC` discards the old contents.
#[test]
fn test_truncate() {
    let mut db = TCH::create();
    assert!(db.tune(3, -1, -1, 0));
    open_fresh(&mut db);
    assert!(db.put(&bv("old"), &bv("data")));
    let image = db.close().unwrap();

    let mut db = TCH::create();
    assert!(db.tune(3, -1, -1, 0));
    assert!(db.open(Some(image), OWRITER | OTRUNC));
    assert_eq!(db.get(&bv("old")), None);
    assert_eq!(db.record_total(), 0);
}

/// Tuning normalization: negative hints take defaults, oversized hints are
/// clamped, and an invalid option set is rejected.
#[test]
fn test_tuning_normalization() {
    let mut db = TCH::create();
    assert!(db.tune(-5, -1, -1, 0));
    assert_eq!(db.tuning.bucket_count, 131071);
    assert_eq!(db.tuning.align_pow, 4);
    assert_eq!(db.tuning.free_pow, 10);
    assert!(db.tune(i64::MAX, 100, 100, 1));
    assert_eq!(db.tuning.bucket_count, 1048576);
    assert_eq!(db.tuning.align_pow, 16);
    assert_eq!(db.tuning.free_pow, 20);
    assert!(!db.tune(8, -1, -1, 2 | 4), "two compression codecs at once");
    assert_eq!(db.last_error(), Some(ErrorCode::InvalidState));
    assert!(!db.tune(8, -1, -1, 0x40), "unknown option bit");
    assert_eq!(db.state, DbState::Unopened);
}

/// The iterator survives the end of the table and an unopened handle.
#[test]
fn test_iterator_edges() {
    let mut db = TCH::create();
    assert!(!db.iter_init());
    assert!(db.iter_next().is_none());
    assert_eq!(db.last_error(), Some(ErrorCode::InvalidState));
    assert!(db.tune(2, -1, -1, 0));
    open_fresh(&mut db);
    assert!(db.iter_init());
    assert!(db.iter_next().is_none(), "an empty table iterates to nothing");
    assert!(db.put(&bv("only"), &bv("one")));
    assert!(db.iter_init());
    assert_eq!(db.iter_next(), Some(bv("only")));
    assert!(db.iter_next().is_none());
    assert!(db.iter_next().is_none(), "the cursor stays at the end");
}
