use tchdb::db::{DbState, OCREAT, OREADER, OWRITER, TCH};

fn bv(s: &str) -> Vec<u8> {
    s.as_bytes().to_vec()
}

fn read_u64_at(image: &[u8], pos: usize) -> u64 {
    let mut v: u64 = 0;
    for i in (0..8).rev() {
        v = v * 256 + image[pos + i] as u64;
    }
    v
}

/// The documented header layout: magic, version, parameters, record count,
/// file size; then one 8-byte slot per bucket and the pool section.
#[test]
fn test_header_layout() {
    let mut db = TCH::create();
    assert!(db.tune(5, 3, 2, 1));
    assert!(db.open(None, OWRITER | OCREAT));
    assert!(db.put(&bv("k"), &bv("v")));
    let image = db.close().unwrap();

    assert_eq!(image[0..8].to_vec(), b"TCHBKV01".to_vec());
    assert_eq!(image[8], 1, "format version");
    assert_eq!(read_u64_at(&image, 12), 5, "bucket count");
    assert_eq!(image[20], 3, "alignment power");
    assert_eq!(image[21], 2, "free-block-pool power");
    assert_eq!(image[22], 1, "option bits");
    assert_eq!(read_u64_at(&image, 24), 1, "record count");
    assert_eq!(read_u64_at(&image, 32), image.len() as u64, "file size");
    // bucket array: 5 slots; exactly one non-zero head, pointing at the
    // record region, which starts after the 4-byte pool section
    let region = 44 + 5 * 8;
    let mut heads: Vec<u64> = (0..5).map(|b| read_u64_at(&image, 40 + 8 * b)).collect();
    heads.retain(|h| *h != 0);
    assert_eq!(heads, vec![region as u64]);
    assert_eq!(image[region as usize], 0xc8, "record tag");
}

/// Alignment rounding: with alignment power 4, a record's span is a multiple
/// of 16 bytes, visible as the distance between two chunks of one bucket.
#[test]
fn test_alignment_quantum() {
    let mut db = TCH::create();
    assert!(db.tune(1, 4, -1, 0));
    assert!(db.open(None, OWRITER | OCREAT));
    assert!(db.put(&bv("a"), &bv("x")));
    assert!(db.put(&bv("b"), &bv("y")));
    let image = db.close().unwrap();
    let region = 44 + 8;
    // first chunk: tag, klen=1, vlen=1 -> needs 23 bytes, padded to 32
    let next = read_u64_at(&image, region + 13);
    assert_eq!(next, (region + 32) as u64);
}

/// Removing and re-adding records cycles spans through the free-block pool;
/// the table stays exact throughout.
#[test]
fn test_pool_reuse_cycles() {
    let mut db = TCH::create();
    assert!(db.tune(16, 2, 4, 0));
    assert!(db.open(None, OWRITER | OCREAT));
    for round in 0..20 {
        for i in 0..30 {
            let key = bv(&format!("key-{}", i));
            let value = bv(&format!("value-{}-{}", round, i));
            assert!(db.put(&key, &value));
        }
        for i in (0..30).step_by(2) {
            assert!(db.remove(&bv(&format!("key-{}", i))));
        }
        for i in 0..30 {
            let got = db.get(&bv(&format!("key-{}", i)));
            if i % 2 == 0 {
                assert_eq!(got, None);
            } else {
                assert_eq!(got, Some(bv(&format!("value-{}-{}", round, i))));
            }
        }
        assert_eq!(db.record_total(), 15);
        for i in (0..30).step_by(2) {
            assert!(db.put(&bv(&format!("key-{}", i)), &bv("back")));
        }
        assert_eq!(db.record_total(), 30);
    }
    // the image still round-trips after all that churn
    let image = db.close().unwrap();
    let mut db = TCH::create();
    assert!(db.open(Some(image), OREADER));
    assert_eq!(db.record_total(), 30);
    assert_eq!(db.get(&bv("key-2")), Some(bv("back")));
    assert_eq!(db.get(&bv("key-3")), Some(bv("value-19-3")));
}

/// Growing and shrinking one value: in-place overwrite while it fits the
/// padding, relocation when it does not.
#[test]
fn test_value_resize() {
    let mut db = TCH::create();
    assert!(db.tune(2, 4, -1, 0));
    assert!(db.open(None, OWRITER | OCREAT));
    let key = bv("resized");
    for len in [0usize, 1, 7, 100, 3, 5000, 2, 0, 64] {
        let value: Vec<u8> = std::iter::repeat(0xabu8).take(len).collect();
        assert!(db.put(&key, &value));
        assert_eq!(db.get(&key), Some(value));
        assert_eq!(db.record_total(), 1);
    }
}

/// A mutation during an active scan neither crashes nor corrupts the rest
/// of the table (positions are otherwise unspecified).
#[test]
fn test_mutation_during_iteration() {
    let mut db = TCH::create();
    assert!(db.tune(4, -1, -1, 0));
    assert!(db.open(None, OWRITER | OCREAT));
    for i in 0..10 {
        assert!(db.put(&bv(&format!("k{}", i)), &bv("v")));
    }
    assert!(db.iter_init());
    let mut walked = 0;
    while let Some(key) = db.iter_next() {
        if walked == 3 {
            db.remove(&bv("k0"));
            db.remove(&bv("k9"));
            db.put(&bv("fresh"), &bv("new"));
        }
        assert!(!key.is_empty());
        walked += 1;
        assert!(walked < 100, "the scan terminates");
    }
    assert_eq!(db.get(&bv("fresh")), Some(bv("new")));
    assert_eq!(db.get(&bv("k0")), None);
}

/// The lifecycle enum reads back consistently around open and close.
#[test]
fn test_state_transitions() {
    let mut db = TCH::create();
    assert_eq!(db.state, DbState::Unopened);
    assert!(db.open(None, OWRITER | OCREAT));
    assert_eq!(db.state, DbState::Opened);
    let image = db.close().unwrap();
    assert_eq!(db.state, DbState::Closed);
    assert!(db.open(Some(image), OREADER));
    assert_eq!(db.state, DbState::Opened);
}
