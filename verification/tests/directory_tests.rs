use urso_capture::directory::{
    build_directory_report, file_item, resolve_target, DirEntryInfo, EntryMetadata,
};

fn entry(name: &str, meta: Option<(bool, u64, Option<u64>)>) -> DirEntryInfo {
    DirEntryInfo {
        name: name.to_string(),
        path: format!("/data/{}", name),
        metadata: meta.map(|(is_dir, len, modified_secs)| EntryMetadata { is_dir, len, modified_secs }),
    }
}

#[test]
fn lines_of_entries() {
    let item = file_item(entry("b.txt", Some((false, 2048, Some(90061)))));
    assert_eq!(item.name, "b.txt");
    assert_eq!(item.path, "/data/b.txt");
    assert!(!item.is_dir);
    assert_eq!(item.size_bytes, 2048);
    assert_eq!(item.formatted_size, "2.0 KB");
    assert_eq!(item.modified_time, "3661s atrás");

    let item = file_item(entry("docs", Some((true, 4096, None))));
    assert!(item.is_dir);
    assert_eq!(item.size_bytes, 0);
    assert_eq!(item.formatted_size, "Pasta");
    assert_eq!(item.modified_time, "Recente");

    let item = file_item(entry("broken", None));
    assert!(!item.is_dir);
    assert_eq!(item.size_bytes, 0);
    assert_eq!(item.formatted_size, "0 B");
    assert_eq!(item.modified_time, "Recente");
}

#[test]
fn report_orders_folders_first_then_names() {
    let entries = vec![
        entry("b.txt", Some((false, 2048, Some(90061)))),
        entry("Zeta", Some((true, 0, Some(10)))),
        entry("a.txt", Some((false, 100, Some(5)))),
        entry("c", None),
        entry("alpha", Some((true, 0, None))),
        entry("Readme", Some((false, 1, None))),
        entry("README", Some((false, 2, None))),
    ];
    let r = build_directory_report("/data".to_string(), entries, 77);
    let names: Vec<&str> = r.items.iter().map(|i| i.name.as_str()).collect();
    assert_eq!(names, vec!["alpha", "Zeta", "a.txt", "b.txt", "c", "Readme", "README"]);
    assert_eq!(r.total_dirs, 2);
    assert_eq!(r.total_files, 5);
    assert_eq!(r.total_bytes, 2048 + 100 + 1 + 2);
    assert_eq!(r.formatted_total_size, "2.1 KB");
    assert_eq!(r.target_path, "/data");
    assert_eq!(r.scan_time_micros, 77);
}

#[test]
fn empty_directory() {
    let r = build_directory_report("/empty".to_string(), vec![], 0);
    assert_eq!(r.items.len(), 0);
    assert_eq!(r.total_files, 0);
    assert_eq!(r.total_dirs, 0);
    assert_eq!(r.formatted_total_size, "0 B");
}

#[test]
fn order_matches_case_blind_comparison() {
    let names = ["éclair", "Zoo", "apple", "Éclair", "zoo", "Apple", "ß", "banana", "Ω"];
    let entries: Vec<DirEntryInfo> = names.iter().map(|n| entry(n, Some((false, 1, None)))).collect();
    let r = build_directory_report(".".to_string(), entries, 0);
    let got: Vec<String> = r.items.iter().map(|i| i.name.clone()).collect();
    let mut expected: Vec<String> = names.iter().map(|n| n.to_string()).collect();
    expected.sort_by(|a, b| a.to_lowercase().cmp(&b.to_lowercase()));
    assert_eq!(got, expected);
}

#[test]
fn target_defaults_to_current_directory() {
    assert_eq!(resolve_target(None), ".");
    assert_eq!(resolve_target(Some(String::new())), ".");
    assert_eq!(resolve_target(Some(" \t\n".to_string())), ".");
    assert_eq!(resolve_target(Some(" docs ".to_string())), " docs ");
    assert_eq!(resolve_target(Some("/tmp".to_string())), "/tmp");
}
