use std::sync::Arc;

use zerostash_files::{
    ChunkPointer, Entry, FieldBuffer, FieldCursor, FieldError, FieldReader, FieldWriter,
    FileStore,
};

fn chunk(byte: u8) -> Arc<ChunkPointer> {
    Arc::new(ChunkPointer::new([byte; 32]))
}

fn entry_a() -> Entry {
    let mut e = Entry::from_metadata((1000, 0), 0o644, 1, 1, 10, false, "a.txt".to_string());
    e.chunks.push((0, chunk(1)));
    e
}

fn entry_b() -> Entry {
    let mut e = Entry::from_metadata((2000, 5), 0o600, 2, 3, 20, true, "b.txt".to_string());
    e.chunks.push((0, chunk(2)));
    e.chunks.push((16, chunk(3)));
    e
}

fn read_all(store: &FileStore) -> Vec<Entry> {
    let mut buf = FieldBuffer::new();
    store.serialize(&mut buf);
    let mut reader = buf.into_reader();
    let mut out = Vec::new();
    while let Ok(e) = reader.read_next() {
        out.push((*e).clone());
    }
    out
}

#[test]
fn scenario_change_detection() {
    let a = entry_a();
    let mut store = FileStore::default();
    assert!(store.has_changed(&a));
    store.push(a.clone());
    assert!(!store.has_changed(&a));
    let mut a2 = a.clone();
    a2.size = 11;
    assert!(store.has_changed(&a2));
}

#[test]
fn scenario_serialize_round_trip() {
    let (a, b) = (entry_a(), entry_b());
    let mut store = FileStore::default();
    store.push(a.clone());
    store.push(b.clone());

    let mut buf = FieldBuffer::new();
    store.serialize(&mut buf);
    assert_eq!(buf.len(), 2);

    let mut fresh = FileStore::default();
    let mut reader = buf.into_reader();
    assert_eq!(fresh.deserialize(&mut reader), Ok(()));
    assert!(!fresh.has_changed(&a));
    assert!(!fresh.has_changed(&b));

    let back = read_all(&fresh);
    assert_eq!(back.len(), 2);
    assert!(back.contains(&a));
    assert!(back.contains(&b));
}

#[test]
fn push_twice_same_as_once() {
    let a = entry_a();
    let mut once = FileStore::default();
    once.push(a.clone());
    let mut twice = FileStore::default();
    twice.push(a.clone());
    twice.push(a.clone());
    assert_eq!(once.index().len(), 1);
    assert_eq!(twice.index().len(), 1);
    assert!(!twice.has_changed(&a));
}

#[test]
fn fresh_store_reports_every_entry_changed() {
    let store = FileStore::default();
    assert_eq!(store.index().len(), 0);
    assert!(store.has_changed(&entry_a()));
    assert!(store.has_changed(&entry_b()));
}

#[test]
fn differing_mtime_is_a_new_snapshot() {
    let a = entry_a();
    let mut later = a.clone();
    later.unix_secs = 1001;
    assert!(a != later);
    let mut store = FileStore::default();
    store.push(a.clone());
    assert!(store.has_changed(&later));
    store.push(later.clone());
    assert_eq!(store.index().len(), 2);
}

#[test]
fn every_attribute_takes_part_in_equality() {
    let a = entry_a();
    assert!(a == entry_a());
    let mut v = a.clone();
    v.unix_nanos = 1;
    assert!(a != v);
    let mut v = a.clone();
    v.unix_perm = 0o600;
    assert!(a != v);
    let mut v = a.clone();
    v.unix_uid = 7;
    assert!(a != v);
    let mut v = a.clone();
    v.unix_gid = 7;
    assert!(a != v);
    let mut v = a.clone();
    v.readonly = true;
    assert!(a != v);
    let mut v = a.clone();
    v.name = "b.txt".to_string();
    assert!(a != v);
    let mut v = a.clone();
    v.chunks[0].0 = 4;
    assert!(a != v);
    let mut v = a.clone();
    v.chunks[0].1 = chunk(9);
    assert!(a != v);
    let mut v = a.clone();
    v.chunks.push((10, chunk(1)));
    assert!(a != v);
}

#[test]
fn equal_digests_are_equal_pointers() {
    assert!(ChunkPointer::new([7; 32]) == ChunkPointer::new([7; 32]));
    let mut d = [7; 32];
    d[31] = 8;
    assert!(ChunkPointer::new([7; 32]) != ChunkPointer::new(d));
    let mut a = entry_a();
    a.chunks[0].1 = Arc::new(ChunkPointer::new([1; 32]));
    assert!(a == entry_a());
}

#[test]
fn round_trip_of_several_entries() {
    let mut entries = Vec::new();
    for i in 0..5u64 {
        let mut e = Entry::from_metadata((i, 0), 0o644, 0, 0, i * 3, false, format!("f{}", i));
        e.chunks.push((0, chunk(i as u8)));
        entries.push(e);
    }
    let mut store = FileStore::default();
    for e in &entries {
        store.push(e.clone());
    }
    store.push(entries[2].clone());
    let mut buf = FieldBuffer::new();
    store.serialize(&mut buf);
    assert_eq!(buf.len(), 5);
    let mut fresh = FileStore::default();
    assert_eq!(fresh.deserialize(&mut buf.into_reader()), Ok(()));
    assert_eq!(fresh.index().len(), 5);
    for e in &entries {
        assert!(!fresh.has_changed(e));
    }
}

#[test]
fn empty_store_writes_no_record() {
    let store = FileStore::default();
    let mut buf = FieldBuffer::new();
    store.serialize(&mut buf);
    assert_eq!(buf.len(), 0);
    let mut fresh = FileStore::default();
    assert_eq!(fresh.deserialize(&mut buf.into_reader()), Ok(()));
    assert_eq!(fresh.index().len(), 0);
}

#[test]
fn serialize_appends_after_earlier_records() {
    let mut buf = FieldBuffer::new();
    buf.write_next(&Arc::new(entry_b()));
    let mut store = FileStore::default();
    store.push(entry_a());
    store.serialize(&mut buf);
    assert_eq!(buf.len(), 2);
    let mut reader = buf.into_reader();
    assert!(*reader.read_next().unwrap() == entry_b());
    assert!(*reader.read_next().unwrap() == entry_a());
    assert_eq!(reader.read_next().err(), Some(FieldError::End));
}

#[test]
fn corrupt_record_stops_loading() {
    let (a, b) = (entry_a(), entry_b());
    let mut reader =
        FieldCursor::from_records(vec![Some(Arc::new(a.clone())), None, Some(Arc::new(b.clone()))]);
    let mut store = FileStore::default();
    assert_eq!(store.deserialize(&mut reader), Err(FieldError::Corrupt));
    assert!(!store.has_changed(&a));
    assert!(store.has_changed(&b));
    assert!(*reader.read_next().unwrap() == b);
    assert_eq!(reader.read_next().err(), Some(FieldError::End));
}

#[test]
fn end_is_reported_once_records_run_out() {
    let mut reader: FieldCursor<Entry> = FieldCursor::from_records(vec![]);
    assert_eq!(reader.read_next().err(), Some(FieldError::End));
    assert_eq!(reader.read_next().err(), Some(FieldError::End));
}

#[test]
fn field_key_is_files() {
    assert_eq!(FileStore::key(), "files");
}

#[test]
fn portable_metadata_has_no_owner() {
    let e = Entry::from_portable_metadata((12, 34), 56, true, "c".to_string());
    assert_eq!(
        (e.unix_secs, e.unix_nanos, e.unix_perm, e.unix_uid, e.unix_gid, e.size, e.readonly),
        (12, 34, 0, 0, 0, 56, true)
    );
    assert_eq!(e.name, "c");
    assert!(e.chunks.is_empty());
    let p = Entry::from_metadata((12, 34), 0o755, 5, 6, 56, false, "c".to_string());
    assert_eq!((p.unix_perm, p.unix_uid, p.unix_gid, p.readonly), (0o755, 5, 6, false));
}

#[test]
fn shared_handles_see_one_index() {
    let (a, b) = (entry_a(), entry_b());
    let mut store = FileStore::default();
    let mut other = store.share();
    store.push(a.clone());
    assert!(!other.has_changed(&a));
    other.push(b.clone());
    assert!(!store.has_changed(&b));
    assert_eq!(store.index().len(), 2);
    assert_eq!(other.index().len(), 2);
    let mut buf = FieldBuffer::new();
    other.serialize(&mut buf);
    assert_eq!(buf.len(), 2);
}

#[test]
fn push_grows_by_one_only_for_new_entries() {
    let mut store = FileStore::default();
    store.push(entry_a());
    assert_eq!(store.index().len(), 1);
    store.push(entry_b());
    assert_eq!(store.index().len(), 2);
    store.push(entry_a());
    assert_eq!(store.index().len(), 2);
}

#[test]
fn index_reads_what_was_pushed() {
    let (a, b) = (entry_a(), entry_b());
    let mut store = FileStore::default();
    store.push(a.clone());
    let index = store.index();
    assert!(index.contains(&a));
    assert!(!index.contains(&b));
    let all = index.snapshot();
    assert_eq!(all.len(), 1);
    assert!(*all[0] == a);
    assert_eq!(index.len(), 1);
}
