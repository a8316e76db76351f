use zhtta::cache::PageCache;

#[test]
fn lookup_finds_what_was_stored() {
    let mut c = PageCache::new();
    assert_eq!(c.lookup(&b"/a".to_vec()), None);
    c.store(b"/a".to_vec(), b"alpha".to_vec());
    assert_eq!(c.lookup(&b"/a".to_vec()), Some(b"alpha".to_vec()));
    c.store(b"/a".to_vec(), b"beta".to_vec());
    assert_eq!(c.lookup(&b"/a".to_vec()), Some(b"beta".to_vec()));
}

#[test]
fn least_recently_used_leaves_first() {
    let mut c = PageCache::new();
    for i in 0..10u8 {
        c.store(vec![i], vec![i]);
    }
    // Touch entry 0 so that entry 1 becomes the least recently used.
    assert_eq!(c.lookup(&vec![0]), Some(vec![0]));
    c.store(vec![100], vec![100]);
    assert_eq!(c.lookup(&vec![1]), None);
    assert_eq!(c.lookup(&vec![0]), Some(vec![0]));
    assert_eq!(c.lookup(&vec![100]), Some(vec![100]));
    for i in 2..10u8 {
        assert_eq!(c.lookup(&vec![i]), Some(vec![i]));
    }
}
