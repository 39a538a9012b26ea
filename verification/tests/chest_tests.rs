use docdelve::chest::{Chest, ChestListEntry};
use docdelve::error::ChestError;
use docdelve::progress::ProgressEvent;

#[test]
fn write_then_list_and_read() {
    let mut chest = Chest::new();
    chest.write("a/b.txt", &[0x41]).unwrap();

    let root = chest.list_dir("/").unwrap();
    assert_eq!(root.len(), 1);
    match &root[0] {
        ChestListEntry::Directory(name) => assert_eq!(name, "a"),
        ChestListEntry::File(name) => panic!("expected a directory, found file {}", name),
    }

    let sub = chest.list_dir("/a").unwrap();
    assert_eq!(sub.len(), 1);
    match &sub[0] {
        ChestListEntry::File(name) => assert_eq!(name, "b.txt"),
        ChestListEntry::Directory(name) => {
            panic!("expected a file, found directory {}", name)
        }
    }

    assert_eq!(chest.read("a/b.txt").unwrap(), vec![0x41]);
}

#[test]
fn find_all_single_match() {
    let mut chest = Chest::new();
    chest.write("a/b.txt", &[0x41]).unwrap();
    assert_eq!(chest.find_all("b.txt"), vec!["a/b.txt".to_string()]);
}

#[test]
fn find_all_multiple_matches_in_tree_order() {
    let mut chest = Chest::new();
    chest.write("x/chrome.css", &[1]).unwrap();
    chest.write("a/b/chrome.css", &[2]).unwrap();
    chest.write("chrome.css", &[3]).unwrap();
    chest.write("a/readme.txt", &[4]).unwrap();
    let found = chest.find_all("chrome.css");
    assert_eq!(
        found,
        vec![
            "a/b/chrome.css".to_string(),
            "chrome.css".to_string(),
            "x/chrome.css".to_string()
        ]
    );
}

#[test]
fn transform_path_cases() {
    assert_eq!(
        Chest::transform_path("x/y/z.css", "z.css", "w.css"),
        Some("x/y/w.css".to_string())
    );
    assert_eq!(
        Chest::transform_path("x/y/z.css", "z.css", "/q.css"),
        Some("q.css".to_string())
    );
    assert_eq!(
        Chest::transform_path("x/y/z.css", "/x/y/z.css", "q.css"),
        Some("q.css".to_string())
    );
    assert_eq!(Chest::transform_path("x/y/z.css", "a.css", "b.css"), None);
}

#[test]
fn contains_tolerates_leading_slash() {
    let mut chest = Chest::new();
    chest.write("a/b.txt", &[7]).unwrap();
    assert!(chest.contains("a/b.txt"));
    assert!(chest.contains("/a/b.txt"));
    assert!(!chest.contains("a/b.txt/"));
    assert!(!chest.contains("a"));
    assert!(!chest.contains("b.txt"));
}

#[test]
fn write_rejects_invalid_names() {
    let bad = [
        "\u{0}", "\u{1f}", "\\", "<", ">", "\"", ":", "|", "?", "*", "",
    ];
    for name in bad {
        let mut chest = Chest::new();
        let path = format!("a/x{}y", name);
        let path = if name.is_empty() {
            "a/".to_string()
        } else {
            path
        };
        let result = chest.write(&path, &[1]);
        assert_eq!(result, Err(ChestError::InvalidName), "name {:?}", name);
    }
}

#[test]
fn write_conflicts_with_existing_file() {
    let mut chest = Chest::new();
    chest.write("a", &[1]).unwrap();
    assert_eq!(chest.write("a/b", &[2]), Err(ChestError::TypeConflict));
    assert_eq!(chest.write("a", &[3]), Ok(()));
    // a directory cannot be overwritten by a file
    let mut chest2 = Chest::new();
    chest2.write("d/f", &[1]).unwrap();
    assert_eq!(chest2.write("d", &[2]), Err(ChestError::TypeConflict));
}

#[test]
fn read_missing_is_not_found() {
    let chest = Chest::new();
    assert_eq!(chest.read("nope.txt"), Err(ChestError::NotFound));
}

#[test]
fn remove_file_and_subtree() {
    let mut chest = Chest::new();
    chest.write("a/b.txt", &[1]).unwrap();
    chest.write("a/c/d.txt", &[2]).unwrap();
    chest.remove("a/b.txt").unwrap();
    assert!(!chest.contains("a/b.txt"));
    assert!(chest.contains("a/c/d.txt"));
    chest.remove("a").unwrap();
    assert!(!chest.contains("a/c/d.txt"));
    assert_eq!(chest.remove("a"), Err(ChestError::NotFound));
}

#[test]
fn save_and_open_round_trip() {
    let mut chest = Chest::new();
    chest.write("a/b.txt", &[0x41, 0x42]).unwrap();
    chest.write("top.bin", &[0, 1, 2, 3, 255]).unwrap();
    let (bytes, events) = chest.save("out.ddchest").unwrap();
    // one event per file in tree order: a/b.txt then top.bin
    assert_eq!(events.len(), 2);
    assert!(matches!(events[0], ProgressEvent::CompressChest(2, 7)));
    assert!(matches!(events[1], ProgressEvent::CompressChest(7, 7)));
    assert_eq!(chest.path().map(|p| p.as_str()), Some("out.ddchest"));

    let reopened = Chest::open(bytes, Some("out.ddchest".to_string())).unwrap();
    assert_eq!(reopened.read("a/b.txt").unwrap(), vec![0x41, 0x42]);
    assert_eq!(reopened.read("/a/b.txt").unwrap(), vec![0x41, 0x42]);
    assert_eq!(reopened.read("top.bin").unwrap(), vec![0, 1, 2, 3, 255]);
    assert!(reopened.contains("a/b.txt"));
    assert_eq!(reopened.read("missing"), Err(ChestError::NotFound));

    // a chest with archive backed files can be saved again
    let mut reopened = reopened;
    reopened.write("fresh.txt", &[9]).unwrap();
    let (bytes2, _) = reopened.save("out2.ddchest").unwrap();
    let again = Chest::open(bytes2, None).unwrap();
    assert_eq!(again.read("a/b.txt").unwrap(), vec![0x41, 0x42]);
    assert_eq!(again.read("fresh.txt").unwrap(), vec![9]);
}

#[test]
fn open_rejects_garbage() {
    let result = Chest::open(vec![1, 2, 3, 4], None);
    assert!(matches!(result, Err(ChestError::CorruptArchive)));
}

#[test]
fn total_size_counts_all_files() {
    let mut chest = Chest::new();
    chest.write("a/b.txt", &[1, 2, 3]).unwrap();
    chest.write("c.txt", &[4, 5]).unwrap();
    assert_eq!(chest.total_size(), 5);
    let (bytes, _) = chest.save("t.ddchest").unwrap();
    let reopened = Chest::open(bytes, None).unwrap();
    assert_eq!(reopened.total_size(), 5);
}

#[test]
fn extract_yields_all_files() {
    let mut chest = Chest::new();
    chest.write("a/b.txt", &[1]).unwrap();
    chest.write("c.txt", &[2]).unwrap();
    let (files, dirs, events) = chest.extract().unwrap();
    assert_eq!(files.len(), 2);
    assert_eq!(dirs, vec!["a".to_string()]);
    // one event per file: running byte count out of the total size
    assert_eq!(events.len(), 2);
    assert!(matches!(events[0], ProgressEvent::ExtractChest(1, 2)));
    assert!(matches!(events[1], ProgressEvent::ExtractChest(2, 2)));
    let mut seen = std::collections::BTreeMap::new();
    for f in &files {
        seen.insert(f.path.clone(), f.data.clone());
    }
    assert_eq!(seen.get("a/b.txt"), Some(&vec![1]));
    assert_eq!(seen.get("c.txt"), Some(&vec![2]));
}

#[test]
fn patch_applies_unified_diff() {
    let mut chest = Chest::new();
    chest
        .write("doc.txt", "hello\nworld\n".as_bytes())
        .unwrap();
    let diff = "--- doc.txt\n+++ doc.txt\n@@ -1,2 +1,2 @@\n hello\n-world\n+there\n";
    chest.patch("doc.txt", diff).unwrap();
    assert_eq!(chest.read("doc.txt").unwrap(), "hello\nthere\n".as_bytes());
}

#[test]
fn patch_conflict_is_reported() {
    let mut chest = Chest::new();
    chest.write("doc.txt", "abc\n".as_bytes()).unwrap();
    let diff = "--- doc.txt\n+++ doc.txt\n@@ -1 +1 @@\n-zzz\n+yyy\n";
    assert_eq!(
        chest.patch("doc.txt", diff),
        Err(ChestError::PatchConflict)
    );
    // the file is unchanged after a failed patch
    assert_eq!(chest.read("doc.txt").unwrap(), "abc\n".as_bytes());
}

#[test]
fn patch_rejects_non_text() {
    let mut chest = Chest::new();
    chest.write("bin", &[0xff, 0xfe, 0x80]).unwrap();
    let diff = "--- bin\n+++ bin\n@@ -1 +1 @@\n-a\n+b\n";
    assert_eq!(chest.patch("bin", diff), Err(ChestError::NotText));
}

#[test]
fn patch_missing_file_is_not_found() {
    let mut chest = Chest::new();
    let diff = "--- x\n+++ x\n@@ -1 +1 @@\n-a\n+b\n";
    assert_eq!(chest.patch("nope", diff), Err(ChestError::NotFound));
}

#[test]
fn delete_requires_a_path() {
    let chest = Chest::new();
    assert_eq!(chest.delete(), Err(ChestError::NotFound));
    let mut chest2 = Chest::new();
    chest2.write("f", &[1]).unwrap();
    let _ = chest2.save("somewhere.ddchest").unwrap();
    assert_eq!(chest2.delete(), Ok("somewhere.ddchest".to_string()));
}

#[test]
fn listings_are_sorted_by_name() {
    let mut chest = Chest::new();
    chest.write("b", &[1]).unwrap();
    chest.write("a", &[2]).unwrap();
    chest.write("c/x", &[3]).unwrap();
    let names: Vec<String> = chest
        .list_dir("")
        .unwrap()
        .into_iter()
        .map(|e| match e {
            ChestListEntry::File(n) => n,
            ChestListEntry::Directory(n) => n,
        })
        .collect();
    assert_eq!(
        names,
        vec!["a".to_string(), "b".to_string(), "c".to_string()]
    );
}
