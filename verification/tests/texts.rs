//! Paths, texts, dates and what the command line computes.

use fsm_core::cache::BlockCache;
use fsm_core::catalog::{Catalog, FileEntry, Snapshot};
use fsm_core::chunking::cdc_params;
use fsm_core::clock::{date_of, fmt_time, Date};
use fsm_core::console::{
    gen_pseudo_random, list_files, password_of_line, quota_bytes, snapshot_size,
};
use fsm_core::naming::{
    empty_to_none, join, join_logical, leaf_name, parent_path, to_windows, win_to_logical,
};
use fsm_core::paths::normalize_path;
use fsm_core::sorted::{SortedMap, SortedSet};
use fsm_core::text::{is_whitespace, trim};
use fsm_core::uri::{normalize_drop_path, percent_decode};
use fsm_core::vault::Vault;
use std::sync::Arc;

#[test]
fn normalize_drop_path_handles_uri() {
    assert_eq!(normalize_drop_path("C:\\Users\\x\\Teste", false), "C:\\Users\\x\\Teste");
    assert_eq!(normalize_drop_path("C:\\Users\\x\\Teste", true), "C:\\Users\\x\\Teste");
    assert_eq!(
        normalize_drop_path("file:///C:/Users/x/Nova%20Pasta", true),
        "C:/Users/x/Nova Pasta"
    );
    assert_eq!(normalize_drop_path("file:///home/x/a%20b", false), "/home/x/a b");
}

#[test]
fn percent_decoding_takes_what_is_an_escape() {
    assert_eq!(percent_decode("a%20b"), "a b");
    assert_eq!(percent_decode("%C3%A9"), "é");
    assert_eq!(percent_decode("%+f"), "\u{f}");
    assert_eq!(percent_decode("%-f%++"), "%-f%++");
    assert_eq!(percent_decode("100%"), "100%");
    assert_eq!(percent_decode("%4"), "%4");
    assert_eq!(percent_decode("%zz%41"), "%zzA");
    assert_eq!(percent_decode("%FF"), "\u{fffd}");
    assert_eq!(percent_decode("sem escapes é"), "sem escapes é");
    assert_eq!(percent_decode("%aé"), "%aé");
    assert_eq!(percent_decode("%é"), "%é");
    assert_eq!(normalize_drop_path("file://%aé", false), "%aé");
    assert_eq!(normalize_drop_path("  /tmp/x \n", false), "/tmp/x");
}

#[test]
fn white_space_is_that_of_char() {
    for n in 0..=0x10ffffu32 {
        if let Some(c) = char::from_u32(n) {
            assert_eq!(is_whitespace(c), c.is_whitespace());
        }
    }
    assert_eq!(trim(" \t a b \u{a0}"), "a b");
}

#[test]
fn paths_are_normalized() {
    assert_eq!(normalize_path("a/b"), "/a/b");
    assert_eq!(normalize_path("\\a\\b"), "/a/b");
    assert_eq!(normalize_path("././x"), "/x");
    assert_eq!(normalize_path("//x"), "/x");
    assert_eq!(normalize_path(""), "/");
    for p in ["a/b", ".//./x", "\\.\\y", "/", "/a/"] {
        let n = normalize_path(p);
        assert_eq!(normalize_path(&n), n);
    }
}

#[test]
fn names_are_put_together_and_taken_apart() {
    let root = "/".to_string();
    let dir = "/a".to_string();
    assert_eq!(join(&root, "x"), "/x");
    assert_eq!(join(&dir, "x"), "/a/x");
    assert_eq!(join_logical(&String::new(), "x"), "/x");
    assert_eq!(join_logical(&"/a//".to_string(), "x"), "/a/x");
    assert_eq!(leaf_name(&"/a/b.txt".to_string()), "b.txt");
    assert_eq!(leaf_name(&"/a/".to_string()), "");
    assert_eq!(leaf_name(&"b".to_string()), "b");
    assert_eq!(parent_path(&"/a/b".to_string()), Some("/a".to_string()));
    assert_eq!(parent_path(&"/a".to_string()), Some("/".to_string()));
    assert_eq!(parent_path(&"a".to_string()), None);
    assert_eq!(to_windows("/a/b"), "\\a\\b");
    assert_eq!(win_to_logical("\\a\\b"), "/a/b");
    assert_eq!(empty_to_none(Some(String::new())), None);
    assert_eq!(empty_to_none(Some("s".to_string())), Some("s".to_string()));
    assert_eq!(empty_to_none(None), None);
}

#[test]
fn times_are_dates() {
    assert_eq!(fmt_time(0), "-");
    assert_eq!(fmt_time(-5), "-");
    assert_eq!(fmt_time(1), "1970-01-01 00:00:01");
    assert_eq!(fmt_time(951_827_696), "2000-02-29 12:34:56");
    assert_eq!(fmt_time(951_782_400), "2000-02-29 00:00:00");
    assert_eq!(fmt_time(1_700_000_000), "2023-11-14 22:13:20");
    assert_eq!(fmt_time(4_107_542_399), "2100-02-28 23:59:59");
    assert_eq!(fmt_time(4_107_542_400), "2100-03-01 00:00:00");
    assert_eq!(fmt_time(253_402_300_800), "10000-01-01 00:00:00");
    assert_eq!(date_of(0), Date { year: 1970, month: 1, day: 1 });
    assert_eq!(date_of(364), Date { year: 1970, month: 12, day: 31 });
    assert_eq!(date_of(365), Date { year: 1971, month: 1, day: 1 });
}

fn catalog_with(paths: &[(&str, u64)]) -> Catalog {
    let mut c = Catalog::default();
    for (p, size) in paths {
        c.files.insert(p.to_string(), FileEntry { size: *size, mtime: 0, chunks: vec![] });
    }
    c
}

#[test]
fn files_are_listed_under_a_prefix() {
    let c = catalog_with(&[("/a", 1), ("/docs/x", 2), ("/docs/y/z", 3), ("/docs2", 4)]);
    let names = |prefix: Option<&str>| -> Vec<(String, u64)> { list_files(&c, prefix) };
    assert_eq!(names(None).len(), 4);
    assert_eq!(
        names(Some("docs")),
        vec![("/docs/x".to_string(), 2), ("/docs/y/z".to_string(), 3)]
    );
    assert_eq!(names(Some("\\docs\\")).len(), 2);
    assert_eq!(names(Some("/a")), vec![("/a".to_string(), 1)]);
    assert_eq!(names(Some("/")).len(), 4);
    assert!(names(Some("nada")).is_empty());
}

#[test]
fn quota_stops_at_the_largest_number() {
    assert_eq!(quota_bytes(3), 3 * 1024 * 1024);
    assert_eq!(quota_bytes(u64::MAX), u64::MAX);
    assert_eq!(quota_bytes(u64::MAX / 1_048_576), (u64::MAX / 1_048_576) * 1_048_576);
}

#[test]
fn snapshot_sizes_add_up() {
    let s = Snapshot {
        name: "s".to_string(),
        created: 1,
        files: catalog_with(&[("/a", u64::MAX), ("/b", 1)]).files,
        dirs: SortedSet::new(),
    };
    assert_eq!(snapshot_size(&s), u64::MAX as u128 + 1);
}

#[test]
fn test_data_is_that_of_the_generator() {
    let mut expected = vec![0u8; 21];
    let mut x: u64 = 0x2545_F491_4F6C_DD1D;
    for chunk in expected.chunks_mut(8) {
        x ^= x << 13;
        x ^= x >> 7;
        x ^= x << 17;
        let b = x.to_le_bytes();
        chunk.copy_from_slice(&b[..chunk.len()]);
    }
    assert_eq!(gen_pseudo_random(21), expected);
    assert_eq!(gen_pseudo_random(16), &expected[..16]);
    assert!(gen_pseudo_random(0).is_empty());
}

#[test]
fn password_line_is_cleaned() {
    assert_eq!(password_of_line(b"senha"), Some("senha".to_string()));
    assert_eq!(password_of_line(b"\xEF\xBB\xBFsenha\r"), Some("senha".to_string()));
    assert_eq!(password_of_line(b"\r"), None);
    assert_eq!(password_of_line(b""), None);
    assert_eq!(password_of_line(b"a\xFFb"), Some("a\u{fffd}b".to_string()));
}

#[test]
fn chunk_sizes_follow_the_target() {
    let p = cdc_params(65_536);
    assert_eq!((p.min, p.avg, p.max), (16_384, 65_536, 262_144));
    let p = cdc_params(1);
    assert_eq!((p.min, p.avg, p.max), (64, 256, 1024));
    let p = cdc_params(u32::MAX);
    assert_eq!((p.min, p.avg, p.max), (1_048_576, 4_194_304, 16_777_216));
    let data = gen_pseudo_random(10_000);
    let mut out = Vec::new();
    let chunks = Vault::create(256).store_data(&data, &mut out).unwrap();
    assert!(chunks.len() > 9);
    assert!(chunks.iter().all(|c| c.len <= 1024));
    assert_eq!(chunks.iter().map(|c| c.len as usize).sum::<usize>(), data.len());
    assert_eq!(chunks[0].hash, *blake3::hash(&data[..chunks[0].len as usize]).as_bytes());
    assert!(Vault::create(256).store_data(&[], &mut out).unwrap().is_empty());
}

#[test]
fn cache_forgets_the_oldest() {
    let mut c = BlockCache::new(10);
    c.put([1; 32], Arc::new(vec![1; 6]));
    c.put([2; 32], Arc::new(vec![2; 4]));
    assert!(c.contains(&[1; 32]));
    c.put([3; 32], Arc::new(vec![3; 3]));
    assert!(!c.contains(&[1; 32]));
    assert_eq!(*c.get(&[2; 32]).unwrap(), vec![2; 4]);
    assert_eq!(*c.get(&[3; 32]).unwrap(), vec![3; 3]);
    assert!(c.get(&[4; 32]).is_none());
    c.put([5; 32], Arc::new(vec![5; 50]));
    assert!(c.contains(&[5; 32]) || c.get(&[5; 32]).is_none());
}

#[test]
fn sorted_map_keeps_its_order() {
    let mut m: SortedMap<String, u64> = SortedMap::new();
    for (k, v) in [("b", 2), ("a", 1), ("c", 3), ("b", 4)] {
        m.insert(k.to_string(), v);
    }
    assert_eq!(m.len(), 3);
    assert_eq!(m.key_at(0), "a");
    assert_eq!(m.get(&"b".to_string()), Some(&4));
    assert_eq!(m.remove(&"a".to_string()), Some(1));
    assert_eq!(m.key_at(0), "b");
    assert_eq!(m.remove(&"a".to_string()), None);
}

#[test]
fn texts_of_times_are_in_order() {
    let times: [i64; 8] = [
        1, 59, 3_600, 86_400, 951_827_696, 951_868_800, 4_107_542_399, 253_402_300_799,
    ];
    for w in times.windows(2) {
        assert!(fmt_time(w[0]) < fmt_time(w[1]));
    }
}
