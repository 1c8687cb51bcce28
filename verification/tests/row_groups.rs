use gbtrace::column_store::ColumnStore;
use gbtrace::header::{BootRom, TraceHeader, Trigger};
use gbtrace::row_groups::{LruCache, RowGroupIndex};

fn store(n_fields: usize) -> ColumnStore {
    let mut fields = vec!["cy".to_string()];
    for i in 1..n_fields {
        fields.push(format!("m{i}"));
    }
    ColumnStore::new(TraceHeader {
        _header: true,
        format_version: "0.1.0".into(),
        emulator: "test".into(),
        emulator_version: "1.0".into(),
        rom_sha256: "0000".into(),
        model: "DMG".into(),
        boot_rom: BootRom::Skip,
        profile: "cpu".into(),
        fields,
        trigger: Trigger::Instruction,
        notes: String::new(),
    })
}

fn tag(s: Option<&ColumnStore>) -> Option<usize> {
    s.map(|s| s.header().fields.len())
}

#[test]
fn rows_are_located_in_their_groups() {
    let idx = RowGroupIndex::new(&vec![3, 0, 5]);
    assert_eq!(idx.num_row_groups(), 3);
    assert_eq!(idx.total_rows(), 8);
    assert_eq!(idx.locate(0), (0, 0));
    assert_eq!(idx.locate(2), (0, 2));
    // the empty group holds no row
    assert_eq!(idx.locate(3), (2, 0));
    assert_eq!(idx.locate(7), (2, 4));
    // past the end
    assert_eq!(idx.locate(8), (3, 0));
    assert_eq!(idx.row_group_start(0), 0);
    assert_eq!(idx.row_group_start(2), 3);
    assert_eq!(idx.row_group_len(0), 3);
    assert_eq!(idx.row_group_len(1), 0);
    assert_eq!(idx.row_group_len(2), 5);
    let empty = RowGroupIndex::new(&vec![]);
    assert_eq!(empty.total_rows(), 0);
    assert_eq!(empty.locate(5), (0, 5));
}

#[test]
fn the_least_recently_used_group_leaves_first() {
    let mut cache = LruCache::new();
    assert!(cache.get(1).is_none());
    cache.insert(1, store(1));
    cache.insert(2, store(2));
    cache.insert(3, store(3));
    // a hit makes group 1 the most recently used
    assert_eq!(tag(cache.get(1)), Some(1));
    cache.insert(4, store(4));
    // group 2 was the least recently used
    assert_eq!(tag(cache.get(2)), None);
    assert_eq!(tag(cache.get(3)), Some(3));
    assert_eq!(tag(cache.get(1)), Some(1));
    assert_eq!(tag(cache.get(4)), Some(4));
    // inserting a cached group replaces it without evicting another
    cache.insert(3, store(2));
    assert_eq!(tag(cache.get(3)), Some(2));
    assert_eq!(tag(cache.get(1)), Some(1));
    assert_eq!(tag(cache.get(4)), Some(4));
}
