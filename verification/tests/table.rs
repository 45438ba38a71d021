use onebrc::hash_table::Table;

#[test]
fn test_hash() {
    let a = "Cardinal".as_bytes();
    let b = "Greater Manchester".as_bytes();
    let c = "Ur".as_bytes();

    let a_hash = Table::hash(a);
    let b_hash = Table::hash(b);
    let c_hash = Table::hash(c);

    assert_eq!(a_hash, a_hash);
    assert_eq!(b_hash, b_hash);
    assert_eq!(c_hash, c_hash);

    assert_ne!(a_hash, b_hash);
    assert_ne!(a_hash, c_hash);
    assert_ne!(b_hash, c_hash);
}

#[test]
fn test_lookup() {
    let tbl = Table::new(16);

    let key1 = "Cardinal".as_bytes();
    let key2 = "Wolsey".as_bytes();

    let (hash1, prefix1) = Table::hash(key1);
    let (hash2, prefix2) = Table::hash(key2);

    assert_ne!(tbl.lookup(hash1, prefix1), tbl.lookup(hash2, prefix2));
}

#[test]
fn test_lookup_and_update() {
    let mut tbl = Table::new(16);

    let key1 = "Cardinal".as_bytes();
    let key2 = "Wolsey".as_bytes();

    let (hash1, prefix1) = Table::hash(key1);
    let (hash2, prefix2) = Table::hash(key2);

    let slot1 = tbl.lookup(hash1, prefix1);
    let slot2 = tbl.lookup(hash2, prefix2);

    tbl.update(slot1, hash1, prefix1, key1, 300);
    tbl.update(slot2, hash2, prefix2, key2, 20);

    assert_eq!(tbl.slot_entry(slot1).sum, 300);
    assert_eq!(tbl.slot_entry(slot2).sum, 20);
}

#[test]
fn test_hash_nonzero_on_stations() {
    for name in [
        "Hamburg",
        "Bulawayo",
        "Palembang",
        "St. Johns",
        "Cracow",
        "Bridgetown",
        "Istanbul",
        "Roseau",
        "Conakry",
        "Llanfairpwllgwyngyllgogerychwyrndrobwllllantysiliogogogoch",
    ] {
        let (h, _) = Table::hash(name.as_bytes());
        assert_ne!(h, 0, "hash of {} is zero", name);
    }
}

#[test]
fn test_hash_prefix_padding() {
    // the prefix is the first eight bytes, zero-padded and little-endian
    let (_, p) = Table::hash(b"AB");
    assert_eq!(p, 0x4241);
    let (_, p) = Table::hash(b"ABCDEFGH");
    assert_eq!(p, 0x4847464544434241);
    let (_, p) = Table::hash(b"ABCDEFGHIJ");
    assert_eq!(p, 0x4847464544434241);
    assert_eq!(Table::prefix(b"AB"), 0x4241);
}

#[test]
fn test_entries_after_updates() {
    let mut tbl = Table::new(16);
    let key = "Cardinal".as_bytes();
    let (hash, prefix) = Table::hash(key);

    let slot = tbl.lookup(hash, prefix);
    tbl.update(slot, hash, prefix, key, 300);
    let slot = tbl.lookup(hash, prefix);
    tbl.update(slot, hash, prefix, key, -100);

    let entries = tbl.entries();
    assert_eq!(entries.len(), 1);
    let (name, e) = &entries[0];
    assert_eq!(name.as_slice(), key);
    assert_eq!(e.sum, 200);
    assert_eq!(e.count, 2);
    assert_eq!(e.min, -100);
    assert_eq!(e.max, 300);
    assert_eq!(e.len, 8);
}

#[test]
fn test_new_table_is_empty() {
    let tbl = Table::new(8);
    assert_eq!(tbl.capacity(), 8);
    assert!(tbl.entries().is_empty());
}
