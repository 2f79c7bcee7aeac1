use ferro::storage::backend::resolve_paths;
use ferro::storage::ShardedJson;
use ferro::storage::migration::StoragePhase;

fn store() -> ShardedJson {
    ShardedJson::new("/tmp/ferro_shards".to_string(), 16)
}

#[test]
fn put_then_get_reads_back_the_value() {
    let s = store();
    let text = s.put("key_1".to_string(), "val_1".to_string(), None).unwrap();
    assert_eq!(s.get("key_1", Some(text.clone())).unwrap(), Some("val_1".to_string()));
    assert_eq!(s.get("key_2", Some(text)).unwrap(), None);
}

#[test]
fn put_overwrites_and_keeps_other_keys() {
    let s = store();
    let t1 = s.put("a".to_string(), "1".to_string(), None).unwrap();
    let t2 = s.put("b".to_string(), "2".to_string(), Some(t1)).unwrap();
    let t3 = s.put("a".to_string(), "3".to_string(), Some(t2)).unwrap();
    assert_eq!(s.get("a", Some(t3.clone())).unwrap(), Some("3".to_string()));
    assert_eq!(s.get("b", Some(t3)).unwrap(), Some("2".to_string()));
}

#[test]
fn unreadable_or_foreign_shard_counts_as_empty() {
    let s = store();
    assert_eq!(s.get("k", None).unwrap(), None);
    assert_eq!(s.get("k", Some("not json".to_string())).unwrap(), None);
    assert_eq!(s.get("k", Some("{\"k\": 5}".to_string())).unwrap(), None);
    let t = s.put("k".to_string(), "v".to_string(), Some("[1,2]".to_string())).unwrap();
    assert_eq!(s.get("k", Some(t)).unwrap(), Some("v".to_string()));
}

#[test]
fn remove_reports_and_drops_the_key() {
    let s = store();
    let t = s.put("x".to_string(), "1".to_string(), None).unwrap();
    let t = s.put("y".to_string(), "2".to_string(), Some(t)).unwrap();
    let (removed, after) = s.remove("x", Some(t.clone())).unwrap();
    assert!(removed);
    let after = after.unwrap();
    assert_eq!(s.get("x", Some(after.clone())).unwrap(), None);
    assert_eq!(s.get("y", Some(after)).unwrap(), Some("2".to_string()));
    let (removed, none) = s.remove("zz", Some(t)).unwrap();
    assert!(!removed);
    assert!(none.is_none());
}

#[test]
fn text_with_escapes_round_trips() {
    let s = store();
    let value = "quote \" backslash \\ newline \n いぬ".to_string();
    let t = s.put("noun:いぬ".to_string(), value.clone(), None).unwrap();
    assert_eq!(s.get("noun:いぬ", Some(t)).unwrap(), Some(value));
}

#[test]
fn len_and_entries_span_the_shards() {
    let s = ShardedJson::new("/tmp/ferro_shards".to_string(), 3);
    let mut shards: Vec<Option<String>> = vec![None, None, None];
    for (k, v) in [("key_1", "val_1"), ("key_2", "val_2"), ("key_3", "val_3"), ("key_4", "val_4")] {
        let i = s.shard_index(k);
        assert!(i < 3);
        let text = s.put(k.to_string(), v.to_string(), shards[i].take()).unwrap();
        shards[i] = Some(text);
    }
    assert_eq!(s.len(&shards), 4);
    assert!(!s.is_empty(&shards));
    let mut all = s.get_all_entries(&shards);
    all.sort();
    assert_eq!(all, vec![
        ("key_1".to_string(), "val_1".to_string()),
        ("key_2".to_string(), "val_2".to_string()),
        ("key_3".to_string(), "val_3".to_string()),
        ("key_4".to_string(), "val_4".to_string()),
    ]);
    assert!(s.is_empty(&vec![None, Some("{}".to_string()), Some("junk".to_string())]));
}

#[test]
fn later_shards_win_in_all_entries() {
    let s = ShardedJson::new("/m".to_string(), 2);
    let shards = vec![Some("{\"k\":\"old\"}".to_string()), Some("{\"k\":\"new\"}".to_string())];
    assert_eq!(s.len(&shards), 2);
    assert_eq!(s.get_all_entries(&shards), vec![("k".to_string(), "new".to_string())]);
}

#[test]
fn shard_files_are_named_by_index() {
    let s = store();
    assert_eq!(s.shard_file(0), "/tmp/ferro_shards/shard_0.json");
    assert_eq!(s.shard_file(15), "/tmp/ferro_shards/shard_15.json");
    let p = s.shard_path("key_1");
    assert_eq!(p, s.shard_file(s.shard_index("key_1")));
    assert_eq!(s.shard_index("key_1"), s.shard_index("key_1"));
    let slash = ShardedJson::new("/tmp/d/".to_string(), 1);
    assert_eq!(slash.shard_file(7), "/tmp/d/shard_7.json");
}

#[test]
fn resolve_paths_shards_by_first_two_bytes() {
    let (dir, file) = resolve_paths("/tmp/ferro_test_storage", "test_node_id");
    assert_eq!(dir, "/tmp/ferro_test_storage/te");
    assert_eq!(file, "/tmp/ferro_test_storage/te/test_node_id.json");
    let (dir, file) = resolve_paths("/base/", "éx");
    assert_eq!(dir, "/base/é");
    assert_eq!(file, "/base/é/éx.json");
    let (dir, file) = resolve_paths("", "ab");
    assert_eq!(dir, "ab");
    assert_eq!(file, "ab/ab.json");
}

#[test]
fn migration_starts_at_the_threshold_and_ends_after_the_copy() {
    let p = StoragePhase::ShardedJson;
    assert!(!p.migration_due(49, 50));
    assert_eq!(p.after_write(49, 50), StoragePhase::ShardedJson);
    assert!(p.migration_due(50, 50));
    let m = p.after_write(50, 50);
    assert_eq!(m, StoragePhase::Migrating);
    assert!(!m.migration_due(1000, 50));
    assert_eq!(m.after_write(1000, 50), StoragePhase::Migrating);
    assert_eq!(p.after_copy(), StoragePhase::ShardedJson);
    let r = m.after_copy();
    assert_eq!(r, StoragePhase::Redb);
    assert_eq!(r.after_copy(), StoragePhase::Redb);
}

#[test]
fn every_phase_reads_from_a_backend_it_writes() {
    for p in [StoragePhase::ShardedJson, StoragePhase::Migrating, StoragePhase::Redb] {
        if p.reads_redb() {
            assert!(p.writes_redb());
        } else {
            assert!(p.writes_json());
        }
    }
    assert!(StoragePhase::Migrating.writes_json() && StoragePhase::Migrating.writes_redb());
    assert!(!StoragePhase::Migrating.reads_redb());
    assert!(!StoragePhase::ShardedJson.writes_redb());
    assert!(!StoragePhase::Redb.writes_json());
}

#[test]
fn whole_store_len_and_entries_agree_with_get() {
    let s = ShardedJson::new("/tmp/ferro_store".to_string(), 4);
    let mut shards: Vec<Option<String>> = vec![None, None, None, None];
    let keys = ["a", "b", "c", "d", "e", "f", "g"];
    for (n, k) in keys.iter().enumerate() {
        let i = s.shard_index(k);
        shards[i] = Some(s.put(k.to_string(), format!("v{}", n), shards[i].take()).unwrap());
        assert_eq!(s.len(&shards), n + 1);
    }
    let i = s.shard_index("c");
    shards[i] = Some(s.put("c".to_string(), "again".to_string(), shards[i].take()).unwrap());
    assert_eq!(s.len(&shards), keys.len());
    let all = s.get_all_entries(&shards);
    assert_eq!(all.len(), s.len(&shards));
    for (k, v) in &all {
        assert_eq!(s.get(k, shards[s.shard_index(k)].clone()).unwrap(), Some(v.clone()));
    }
    let i = s.shard_index("e");
    let (removed, text) = s.remove("e", shards[i].clone()).unwrap();
    assert!(removed);
    shards[i] = text;
    assert_eq!(s.len(&shards), keys.len() - 1);
    assert_eq!(s.get("e", shards[i].clone()).unwrap(), None);
    assert_eq!(s.get("c", shards[s.shard_index("c")].clone()).unwrap(), Some("again".to_string()));
}

#[test]
fn removing_a_present_key_always_succeeds() {
    let s = store();
    let t = s.put("k".to_string(), "v".to_string(), None).unwrap();
    assert_eq!(s.remove("k", Some(t)), Ok((true, Some("{}".to_string()))));
    assert_eq!(s.remove("k", None), Ok((false, None)));
    assert_eq!(s.remove("k", Some("junk".to_string())), Ok((false, None)));
}

#[test]
fn resolve_paths_accepts_absolute_ids_under_the_base() {
    let (dir, file) = resolve_paths("/", "/c/rest");
    assert_eq!(dir, "/c");
    assert_eq!(file, "/c/rest.json");
    assert!(std::path::Path::new(&dir).starts_with("/"));
    assert!(std::path::Path::new(&file).starts_with(&dir));
}
