use std::collections::BTreeMap;

use overleaf_mcp::stamps::ReadStamps;
use overleaf_mcp::table::Table;

#[test]
fn table_behaves_as_a_sorted_map() {
    let mut table: Table<String> = Table::new();
    let mut map: BTreeMap<String, String> = BTreeMap::new();
    let mut seed: u64 = 7;
    for step in 0..300 {
        seed = seed.wrapping_mul(6364136223846793005).wrapping_add(1442695040888963407);
        let key = format!("k{}", (seed >> 33) % 40);
        if (seed >> 20) % 3 == 0 {
            assert_eq!(table.remove(&key), map.remove(&key));
        } else {
            table.insert(key.clone(), format!("v{step}"));
            map.insert(key, format!("v{step}"));
        }
        assert_eq!(table.len(), map.len());
    }
    for (i, (key, value)) in map.iter().enumerate() {
        assert_eq!(table.key_at(i), key);
        assert_eq!(table.value_at(i), value);
        assert_eq!(table.get(key), Some(value));
    }
    assert_eq!(table.get("absent"), None);
}

#[test]
fn stamps_are_kept_by_project_and_path() {
    let mut stamps = ReadStamps::new();
    assert_eq!(stamps.read_stamp("p", "/a"), None);
    stamps.stamp_read("p", "/a", "one");
    stamps.stamp_read("q", "/a", "other");
    stamps.stamp_read("p", "/a", "two");
    assert_eq!(stamps.read_stamp("p", "/a"), Some("two".to_string()));
    assert_eq!(stamps.read_stamp("q", "/a"), Some("other".to_string()));
}

#[test]
fn stamps_under_a_path_are_dropped_and_no_others() {
    let mut stamps = ReadStamps::new();
    for path in ["/a", "/a/b", "/a/b/c", "/ab", "/b"] {
        stamps.stamp_read("p", path, path);
        stamps.stamp_read("q", path, path);
    }
    stamps.drop_stamps_under("p", "/a");
    for path in ["/a", "/a/b", "/a/b/c"] {
        assert_eq!(stamps.read_stamp("p", path), None);
        assert_eq!(stamps.read_stamp("q", path), Some(path.to_string()));
    }
    for path in ["/ab", "/b"] {
        assert_eq!(stamps.read_stamp("p", path), Some(path.to_string()));
    }
}
