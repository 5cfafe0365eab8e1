use media_scanner::csv::generate_csv;
use media_scanner::filter::{path_depth, should_process_file};
use media_scanner::fingerprint::{
    compute_sample_hash, fingerprint_content, sample_windows, select_strategy, SampleWindow, Strategy,
};
use media_scanner::pipeline::{determine_optimal_thread_count, worker_count};
use media_scanner::record::{build_upload_request, classify, Category, FileMeta};

const MIB: u64 = 1024 * 1024;

fn meta(path: &str, folder: &str, size: u64) -> FileMeta {
    FileMeta {
        filename: path.to_string(),
        folder: folder.to_string(),
        size,
        mime: "text/plain".to_string(),
        hash: "ff".to_string(),
        filetype: "other".to_string(),
    }
}

#[test]
fn filter_rejects_hidden_and_small() {
    assert!(!should_process_file(".hidden", 5000));
    assert!(!should_process_file("a.txt", 1023));
    assert!(should_process_file("a.txt", 1024));
    assert!(should_process_file("a.b", u64::MAX));
    assert!(!should_process_file("", 10));
    assert!(should_process_file("", 1024));
}

#[test]
fn depth_counts_components() {
    assert_eq!(path_depth("/"), 1);
    assert_eq!(path_depth("/a/b"), 3);
    assert_eq!(path_depth("a/b"), 2);
    assert_eq!(path_depth("."), 1);
    assert_eq!(path_depth("./x"), 2);
    assert_eq!(path_depth(""), 0);
    assert_eq!(path_depth("a//b/"), 2);
    assert_eq!(path_depth("/home/ü/bilder"), 4);
}

#[test]
fn strategy_tiers_at_their_boundaries() {
    assert_eq!(select_strategy(0), Strategy::Direct);
    assert_eq!(select_strategy(10 * MIB), Strategy::Direct);
    assert_eq!(select_strategy(10 * MIB + 1), Strategy::Mapped);
    assert_eq!(select_strategy(100 * MIB), Strategy::Mapped);
    assert_eq!(select_strategy(100 * MIB + 1), Strategy::Sampled);
}

#[test]
fn sample_windows_by_size() {
    assert_eq!(sample_windows(100), vec![SampleWindow { offset: 0, len: 100 }]);
    assert_eq!(sample_windows(65536), vec![SampleWindow { offset: 0, len: 65536 }]);
    assert_eq!(
        sample_windows(65537),
        vec![SampleWindow { offset: 0, len: 65536 }, SampleWindow { offset: 1, len: 65536 }]
    );
    assert_eq!(
        sample_windows(200 * MIB),
        vec![
            SampleWindow { offset: 0, len: 65536 },
            SampleWindow { offset: 100 * MIB, len: 65536 },
            SampleWindow { offset: 200 * MIB - 65536, len: 65536 },
        ]
    );
}

#[test]
fn sample_hash_is_digest_of_windows_and_size() {
    let samples = vec![vec![1u8; 65536], vec![2u8; 65536], vec![3u8; 65536]];
    let size: u64 = 200 * MIB;
    let mut hasher = blake3::Hasher::new();
    for s in &samples {
        hasher.update(s);
    }
    hasher.update(&size.to_le_bytes());
    let expected = hasher.finalize().to_hex().to_string();
    assert_eq!(compute_sample_hash(&samples, size), expected);
    assert_eq!(expected.len(), 64);
    assert_ne!(compute_sample_hash(&samples, size + 1), expected);
}

#[test]
fn end_window_difference_changes_fingerprint() {
    let size: u64 = 200 * MIB;
    let a = vec![vec![0u8; 65536], vec![0u8; 65536], vec![0u8; 65536]];
    let mut b = a.clone();
    b[2][65535] = 1;
    assert_ne!(compute_sample_hash(&a, size), compute_sample_hash(&b, size));
}

#[test]
fn identical_content_same_fingerprint_in_each_tier() {
    for size in [2000usize, (10 * MIB + 5) as usize] {
        let a: Vec<u8> = (0..size).map(|i| (i % 251) as u8).collect();
        let b = a.clone();
        assert_eq!(fingerprint_content(&a), fingerprint_content(&b));
        assert_eq!(fingerprint_content(&a), blake3::hash(&a).to_hex().to_string());
    }
}

#[test]
fn very_large_content_is_sampled() {
    let size = (100 * MIB + 1) as usize;
    let mut a = vec![5u8; size];
    let fa = fingerprint_content(&a);
    assert_eq!(fa, fingerprint_content(&a.clone()));
    let windows = vec![a[0..65536].to_vec(), a[size / 2..size / 2 + 65536].to_vec(), a[size - 65536..].to_vec()];
    assert_eq!(fa, compute_sample_hash(&windows, size as u64));
    // A byte outside every window leaves the fingerprint as it was.
    a[1_000_000] = 9;
    assert_eq!(fingerprint_content(&a), fa);
    a[size - 1] = 9;
    assert_ne!(fingerprint_content(&a), fa);
}

#[test]
fn classify_by_top_level_type() {
    assert_eq!(classify("image/png"), Category::Image);
    assert_eq!(classify("video/mp4"), Category::Video);
    assert_eq!(classify("text/plain"), Category::Other);
    assert_eq!(classify("imagex/png"), Category::Other);
    assert_eq!(classify("image"), Category::Other);
    assert_eq!(classify(""), Category::Other);
    assert_eq!(Category::Image.label(), "image");
    assert_eq!(Category::Video.label(), "video");
    assert_eq!(Category::Other.label(), "other");
}

#[test]
fn worker_count_formula() {
    assert_eq!(worker_count(1, 1), 4);
    assert_eq!(worker_count(8, 4), 16);
    assert_eq!(worker_count(16, 2), 8);
    assert_eq!(worker_count(3, 8), 6);
    assert_eq!(worker_count(usize::MAX, usize::MAX), usize::MAX);
    assert!(determine_optimal_thread_count() >= 4);
}

#[test]
fn csv_quotes_and_escapes() {
    let files = vec![meta("/r/say \"hi\".txt", "/r", 2048), meta("/r/b.txt", "/r", 0)];
    let csv = generate_csv(&files);
    assert_eq!(
        csv,
        "filename,folder,size,mime,hash,filetype\n\
         \"/r/say \"\"hi\"\".txt\",\"/r\",2048,\"text/plain\",\"ff\",\"other\"\n\
         \"/r/b.txt\",\"/r\",0,\"text/plain\",\"ff\",\"other\"\n"
    );
    assert_eq!(generate_csv(&[]), "filename,folder,size,mime,hash,filetype\n");
}

#[test]
fn upload_request_totals() {
    let req = build_upload_request(vec![meta("/a", "/", 1500), meta("/b", "/", 2500)], "t".to_string()).unwrap();
    assert_eq!(req.total_files, 2);
    assert_eq!(req.total_size, 4000);
    assert_eq!(req.scan_timestamp, "t");
    assert_eq!(req.files.len(), 2);
    let empty = build_upload_request(Vec::new(), "t".to_string()).unwrap();
    assert_eq!(empty.total_size, 0);
    assert!(build_upload_request(vec![meta("/a", "/", u64::MAX), meta("/b", "/", 1)], "t".to_string()).is_none());
    assert_eq!(
        build_upload_request(vec![meta("/a", "/", u64::MAX)], "t".to_string()).unwrap().total_size,
        u64::MAX
    );
}
