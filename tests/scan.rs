use media_scanner::discover::{group_into_batches, CandidateEntry, DirBatch};
use media_scanner::fingerprint::fingerprint_content;
use media_scanner::pipeline::{file_record, process_directory_batch};
use media_scanner::record::FileMeta;
use media_scanner::registry::ScanState;

fn entry(path: &str, parent: &str, name: &str, size: u64) -> CandidateEntry {
    CandidateEntry {
        path: path.to_string(),
        parent: parent.to_string(),
        file_name: name.to_string(),
        size,
    }
}

fn scan(entries: Vec<CandidateEntry>, contents: &dyn Fn(&str) -> Vec<u8>) -> Vec<FileMeta> {
    let batches = group_into_batches(entries);
    let mut state = ScanState::new();
    for batch in &batches {
        let results: Vec<Option<FileMeta>> = batch
            .files
            .iter()
            .map(|e| Some(file_record(e, fingerprint_content(&contents(&e.path)))))
            .collect();
        process_directory_batch(&mut state, results);
    }
    state.finish()
}

#[test]
fn duplicate_pair_keeps_one_and_small_file_is_dropped() {
    let x = vec![7u8; 2000];
    let entries = vec![
        entry("/r/a.txt", "/r", "a.txt", 2000),
        entry("/r/b.txt", "/r", "b.txt", 2000),
        entry("/r/c.jpg", "/r", "c.jpg", 50),
    ];
    let xc = x.clone();
    let inv = scan(entries, &move |p: &str| if p.ends_with(".jpg") { vec![1u8; 50] } else { xc.clone() });
    assert_eq!(inv.len(), 1);
    assert!(inv[0].filename == "/r/a.txt" || inv[0].filename == "/r/b.txt");
    assert_eq!(inv[0].filetype, "other");
    assert_eq!(inv[0].size, 2000);
    assert_eq!(inv[0].hash, blake3::hash(&x).to_hex().to_string());
}

#[test]
fn empty_root_gives_empty_inventory() {
    let batches = group_into_batches(Vec::new());
    assert!(batches.is_empty());
    let inv = scan(Vec::new(), &|_p: &str| Vec::new());
    assert!(inv.is_empty());
}

#[test]
fn hidden_and_small_files_never_reach_the_inventory() {
    let entries = vec![
        entry("/r/.secret", "/r", ".secret", 5000),
        entry("/r/tiny.png", "/r", "tiny.png", 1023),
        entry("/r/ok.png", "/r", "ok.png", 1024),
    ];
    let batches = group_into_batches(entries);
    assert_eq!(batches.len(), 1);
    assert_eq!(batches[0].files.len(), 1);
    assert_eq!(batches[0].files[0].path, "/r/ok.png");
    let inv = scan(
        vec![
            entry("/r/.secret", "/r", ".secret", 5000),
            entry("/r/tiny.png", "/r", "tiny.png", 1023),
            entry("/r/ok.png", "/r", "ok.png", 1024),
        ],
        &|p: &str| p.as_bytes().iter().cycle().take(2048).cloned().collect(),
    );
    assert_eq!(inv.len(), 1);
    assert_eq!(inv[0].filename, "/r/ok.png");
    assert_eq!(inv[0].mime, "image/png");
    assert_eq!(inv[0].filetype, "image");
}

#[test]
fn batches_partition_the_filtered_entries() {
    let entries = vec![
        entry("/r/a/1.mp4", "/r/a", "1.mp4", 4096),
        entry("/r/2.mp4", "/r", "2.mp4", 4096),
        entry("/r/a/b/3.mp4", "/r/a/b", "3.mp4", 4096),
        entry("/r/a/4.mp4", "/r/a", "4.mp4", 4096),
        entry("/r/a/.5.mp4", "/r/a", ".5.mp4", 4096),
    ];
    let batches: Vec<DirBatch> = group_into_batches(entries);
    assert_eq!(batches.len(), 3);
    let depths: Vec<usize> = batches.iter().map(|b| b.depth).collect();
    assert_eq!(depths, vec![4, 3, 2]);
    assert_eq!(batches[0].path, "/r/a/b");
    assert_eq!(batches[1].path, "/r/a");
    assert_eq!(batches[2].path, "/r");
    let mut all: Vec<String> = Vec::new();
    for b in &batches {
        for f in &b.files {
            assert_eq!(f.parent, b.path);
            all.push(f.path.clone());
        }
    }
    all.sort();
    assert_eq!(all, vec!["/r/2.mp4", "/r/a/1.mp4", "/r/a/4.mp4", "/r/a/b/3.mp4"]);
}

#[test]
fn dedup_leaves_one_record_per_fingerprint() {
    let entries = vec![
        entry("/r/1.bin", "/r", "1.bin", 2000),
        entry("/r/2.bin", "/r", "2.bin", 2000),
        entry("/r/s/3.bin", "/r/s", "3.bin", 2000),
        entry("/r/s/4.bin", "/r/s", "4.bin", 2000),
        entry("/r/t/5.bin", "/r/t", "5.bin", 2000),
    ];
    let content = |p: &str| -> Vec<u8> {
        let tag: u8 = if p.ends_with("1.bin") || p.ends_with("3.bin") {
            1
        } else if p.ends_with("5.bin") {
            3
        } else {
            2
        };
        vec![tag; 2000]
    };
    let inv = scan(entries, &content);
    assert_eq!(inv.len(), 3);
    let mut hashes: Vec<String> = inv.iter().map(|m| m.hash.clone()).collect();
    hashes.sort();
    hashes.dedup();
    assert_eq!(hashes.len(), 3);
}

#[test]
fn rescan_in_another_order_gives_same_summary() {
    let make = || {
        vec![
            entry("/r/x/a.jpg", "/r/x", "a.jpg", 3000),
            entry("/r/y/b.jpg", "/r/y", "b.jpg", 3000),
            entry("/r/y/c.mov", "/r/y", "c.mov", 5000),
        ]
    };
    let content = |p: &str| -> Vec<u8> { if p.ends_with(".mov") { vec![9u8; 5000] } else { vec![4u8; 3000] } };
    let first = scan(make(), &content);
    let mut reversed = make();
    reversed.reverse();
    let second = scan(reversed, &content);
    let summary = |inv: &Vec<FileMeta>| {
        let mut v: Vec<(String, u64, String, String)> =
            inv.iter().map(|m| (m.hash.clone(), m.size, m.mime.clone(), m.filetype.clone())).collect();
        v.sort();
        v
    };
    assert_eq!(summary(&first), summary(&second));
    assert_eq!(first.len(), 2);
}

#[test]
fn inventory_is_sorted_by_path() {
    let entries = vec![
        entry("/r/z.dat", "/r", "z.dat", 1500),
        entry("/r/m/a.dat", "/r/m", "a.dat", 1500),
        entry("/r/b.dat", "/r", "b.dat", 1500),
        entry("/r/A.dat", "/r", "A.dat", 1500),
    ];
    let inv = scan(entries, &|p: &str| p.as_bytes().iter().cycle().take(1500).cloned().collect());
    let paths: Vec<&str> = inv.iter().map(|m| m.filename.as_str()).collect();
    assert_eq!(paths, vec!["/r/A.dat", "/r/b.dat", "/r/m/a.dat", "/r/z.dat"]);
}

#[test]
fn batch_counts_processed_files_and_skips_failures() {
    let mut state = ScanState::new();
    let e1 = entry("/r/1.gif", "/r", "1.gif", 2048);
    let e2 = entry("/r/2.gif", "/r", "2.gif", 2048);
    let results = vec![
        Some(file_record(&e1, "aa".to_string())),
        None,
        Some(file_record(&e2, "aa".to_string())),
    ];
    assert_eq!(process_directory_batch(&mut state, results), 2);
    let inv = state.finish();
    assert_eq!(inv.len(), 1);
    assert_eq!(inv[0].filename, "/r/1.gif");
}

#[test]
fn registry_admits_each_fingerprint_once() {
    let mut state = ScanState::new();
    let a = file_record(&entry("/r/a", "/r", "a", 2000), "f1".to_string());
    let b = file_record(&entry("/r/b", "/r", "b", 2000), "f1".to_string());
    let c = file_record(&entry("/r/c", "/r", "c", 2000), "f2".to_string());
    assert!(state.admit_record(a));
    assert!(!state.admit_record(b));
    assert!(state.admit_record(c));
    assert_eq!(state.admit_all(vec![
        file_record(&entry("/r/d", "/r", "d", 2000), "f2".to_string()),
        file_record(&entry("/r/e", "/r", "e", 2000), "f3".to_string()),
        file_record(&entry("/r/f", "/r", "f", 2000), "f3".to_string()),
    ]), 1);
    let inv = state.finish();
    let paths: Vec<&str> = inv.iter().map(|m| m.filename.as_str()).collect();
    assert_eq!(paths, vec!["/r/a", "/r/c", "/r/e"]);
}

#[test]
fn file_record_guesses_type_from_path() {
    let e = entry("/media/trip/clip.mp4", "/media/trip", "clip.mp4", 90000);
    let m = file_record(&e, "abc".to_string());
    assert_eq!(m.filename, "/media/trip/clip.mp4");
    assert_eq!(m.folder, "/media/trip");
    assert_eq!(m.size, 90000);
    assert_eq!(m.mime, "video/mp4");
    assert_eq!(m.hash, "abc");
    assert_eq!(m.filetype, "video");
    let n = file_record(&entry("/x/noext", "/x", "noext", 2000), "h".to_string());
    assert_eq!(n.mime, "application/octet-stream");
    assert_eq!(n.filetype, "other");
}
