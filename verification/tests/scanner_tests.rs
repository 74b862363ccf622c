use toolkit::config::AppConfig;
use toolkit::error::DataError;
use toolkit::file_scanner::{
    csv_entries, csv_name, file_name_of, finish_entries, lossy_file_name_of, identify_directory_entries, identify_from_document, nested_identify_from_document,
    identify_json_name, sample_json_name, select_identify_files, text_entries, text_name, walk_step, FileEntry,
    FileKind, FileScanner, WalkStep,
};
use toolkit::json::JsonValue;
use toolkit::paths::path_key;
use toolkit::processing::{required_identify, text_identify};

fn s(x: &str) -> String {
    x.to_string()
}

fn b(x: &str) -> Vec<u8> {
    x.as_bytes().to_vec()
}

fn entry(path: &str, kind: FileKind) -> FileEntry {
    FileEntry { path: b(path), kind, identify: None }
}

#[test]
fn file_name_patterns() {
    assert!(identify_json_name("identifyData.json"));
    assert!(identify_json_name("old_identifyData_json.bak"));
    assert!(!identify_json_name("identifyData\njson"));
    assert!(!identify_json_name("identifydata.json"));
    assert!(sample_json_name("sampleJson.json"));
    assert!(!sample_json_name("sample.json"));
    assert!(csv_name("a.csv"));
    assert!(csv_name("A.CSV"));
    assert!(csv_name("x.cſv"));
    assert!(!csv_name("a.csv.bak"));
    assert!(!csv_name("csv"));
    assert!(text_name("notes.TxT"));
    assert!(!text_name("notes.text"));
}

#[test]
fn file_names_of_paths() {
    assert_eq!(file_name_of(b"/data/x/identifyData.json"), "identifyData.json");
    assert_eq!(file_name_of(b"a/b/"), "b");
    assert_eq!(file_name_of(b"a/b/."), "b");
    assert_eq!(file_name_of(b"a/.."), "");
    assert_eq!(file_name_of(b"/"), "");
    assert_eq!(file_name_of(b""), "");
    assert_eq!(file_name_of(b"/d/\xff.csv"), "");
    assert_eq!(lossy_file_name_of(b"/d/\xff.csv"), "\u{fffd}.csv");
    assert_eq!(lossy_file_name_of(b"/d/a.csv"), "a.csv");
    assert_eq!(lossy_file_name_of(b"/"), "");
}

#[test]
fn path_components() {
    let k = path_key(b"./a//b/./c/..");
    let tags: Vec<u8> = k.iter().map(|c| c.0).collect();
    assert_eq!(tags, vec![1, 3, 3, 3, 2]);
    let names: Vec<Vec<u8>> = k.iter().map(|c| c.1.clone()).collect();
    assert_eq!(names, vec![b(""), b("a"), b("b"), b("c"), b("")]);
    let root = path_key(b"/x");
    assert_eq!(root.len(), 2);
    assert_eq!(root[0].0, 0);
}

#[test]
fn entries_sorted_and_deduplicated() {
    let entries = vec![
        entry("/d/a.b", FileKind::CSVDATA),
        entry("/d/a/b", FileKind::TEXTDATA),
        entry("/d/z.txt", FileKind::TEXTDATA),
        entry("/d/a/b", FileKind::TEXTDATA),
        entry("/d//a/./b", FileKind::TEXTDATA),
        entry("/d/a/b", FileKind::CSVDATA),
    ];
    let out = finish_entries(entries);
    let got: Vec<(Vec<u8>, FileKind)> = out.iter().map(|e| (e.path.clone(), e.kind)).collect();
    assert_eq!(
        got,
        vec![
            (b("/d/a/b"), FileKind::TEXTDATA),
            (b("/d/a/b"), FileKind::CSVDATA),
            (b("/d/a.b"), FileKind::CSVDATA),
            (b("/d/z.txt"), FileKind::TEXTDATA),
        ]
    );
    let bytes = vec![
        FileEntry { path: b"/d/\xff".to_vec(), kind: FileKind::CSVDATA, identify: None },
        FileEntry { path: b"/d/\xc3\xa9".to_vec(), kind: FileKind::CSVDATA, identify: None },
        entry("/d/z", FileKind::CSVDATA),
    ];
    let order: Vec<Vec<u8>> = finish_entries(bytes).into_iter().map(|e| e.path).collect();
    assert_eq!(order, vec![b"/d/z".to_vec(), b"/d/\xc3\xa9".to_vec(), b"/d/\xff".to_vec()]);
}

#[test]
fn entries_keep_interleaved_kinds() {
    let entries = vec![
        entry("/p", FileKind::CSVDATA),
        entry("/p", FileKind::TEXTDATA),
        entry("/p", FileKind::CSVDATA),
    ];
    let kinds: Vec<FileKind> = finish_entries(entries).iter().map(|e| e.kind).collect();
    assert_eq!(kinds, vec![FileKind::CSVDATA, FileKind::TEXTDATA, FileKind::CSVDATA]);
}

#[test]
fn identify_files_once_per_directory() {
    let candidates = vec![
        b("/j/a/identifyData.json"),
        b("/j/a/other.json"),
        b("/j/a/./identifyData_json"),
        b("/j/b/identifyData.json"),
        b("/j/identifyData.json"),
        b"/j/\xff/identifyData.json".to_vec(),
        b"/j/c/identifyData\xff.json".to_vec(),
    ];
    assert_eq!(select_identify_files(&candidates), vec![0, 3, 4, 5]);
}

#[test]
fn identify_directory() {
    let files = vec![b("/j/a/sampleJson.json"), b("/j/a/readme.txt"), b("/j/a/identifyData.json")];
    let out = identify_directory_entries(&files, b"/j/a/identifyData.json", "ID7", true);
    assert_eq!(out.len(), 2);
    assert_eq!(out[0].path, b("/j/a/sampleJson.json"));
    assert_eq!(out[0].kind, FileKind::SAMPLEJSONDATA);
    assert_eq!(out[0].identify.as_deref(), Some("ID7"));
    assert_eq!(out[1].path, b("/j/a/identifyData.json"));
    assert_eq!(out[1].kind, FileKind::IDENTIFYJSONDATA);
    let without = identify_directory_entries(&files, b"/j/a/identifyData.json", "ID7", false);
    assert_eq!(without.len(), 1);
}

#[test]
fn text_and_csv_entries() {
    let files = vec![
        b("/t/a.txt"),
        b("/t/b.csv"),
        b("/t/c.TXT"),
        b"/t/\xff.csv".to_vec(),
        b"/t/\xff.txt".to_vec(),
        b"/\xfe/d.txt".to_vec(),
    ];
    let texts: Vec<Vec<u8>> = text_entries(&files).into_iter().map(|e| e.path).collect();
    assert_eq!(texts, vec![b("/t/a.txt"), b("/t/c.TXT"), b"/\xfe/d.txt".to_vec()]);
    let csvs = csv_entries(&files, FileKind::CSVDATA);
    assert_eq!(csvs.len(), 2);
    assert_eq!(csvs[0].path, b("/t/b.csv"));
    assert_eq!(csvs[1].path, b"/t/\xff.csv".to_vec());
    assert!(csvs[0].identify.is_none());
}

#[test]
fn walk_decisions() {
    assert!(matches!(walk_step(2, true), WalkStep::Descend(1)));
    assert!(matches!(walk_step(1, false), WalkStep::Collect));
    assert!(matches!(walk_step(2, false), WalkStep::Skip));
}

#[test]
fn identify_from_json_shapes() {
    let direct = JsonValue::Object(vec![(s("identify"), JsonValue::String(s("test1")))]);
    assert_eq!(identify_from_document("a/identifyData.json", &direct).unwrap(), "test1");
    let nested = JsonValue::Object(vec![(
        s("identify"),
        JsonValue::Array(vec![JsonValue::Object(vec![(s("identify"), JsonValue::String(s("test2")))])]),
    )]);
    assert_eq!(identify_from_document("a/identifyData.json", &nested).unwrap(), "test2");
    let wrong = JsonValue::Object(vec![(s("identify"), JsonValue::Number(s("1")))]);
    let err = identify_from_document("w/identifyData.json", &wrong).unwrap_err();
    assert_eq!(err.message(), "identify missing or invalid in w/identifyData.json");
    let empty = JsonValue::Object(vec![(s("identify"), JsonValue::Array(vec![]))]);
    assert!(matches!(identify_from_document("e.json", &empty), Err(DataError::IdentifyNotFound { .. })));
    assert_eq!(nested_identify_from_document("n.json", &nested).unwrap(), "test2");
    let err = nested_identify_from_document("d.json", &direct).unwrap_err();
    assert_eq!(err.message(), "identify missing in d.json");
}

#[test]
fn kind_labels() {
    assert_eq!(FileKind::IDENTIFYJSONDATA.label(), "IDENTIFY_JSON");
    assert_eq!(FileKind::SAMPLEJSONDATA.label(), "SAMPLE_JSON");
    assert_eq!(FileKind::CSVDATA.label(), "CSV");
    assert_eq!(FileKind::TEXTDATA.label(), "TXT");
}

#[test]
fn scanner_config_and_identify() {
    let config = AppConfig {
        root_csv_dir: b("/c"),
        root_json_dir: b("/j"),
        root_text_dir: b("/t"),
        database_path: b("/db.sqlite"),
    };
    let scanner = FileScanner::new(&config);
    assert_eq!(scanner.config().root_json_dir, b("/j"));
    let with = FileEntry { path: b("/j/x"), kind: FileKind::SAMPLEJSONDATA, identify: Some(s("ID")) };
    assert_eq!(required_identify(&with).unwrap(), "ID");
    assert_eq!(text_identify(&with), "ID");
    let without = entry("/t/x.txt", FileKind::TEXTDATA);
    let err = required_identify(&without).unwrap_err();
    assert!(matches!(err, DataError::MissingIdentify { .. }));
    assert_eq!(err.message(), "missing identify for /t/x.txt");
    let odd = FileEntry { path: b"/t/\xffx".to_vec(), kind: FileKind::SAMPLEJSONDATA, identify: None };
    assert_eq!(required_identify(&odd).unwrap_err().message(), "missing identify for /t/\u{fffd}x");
    assert_eq!(text_identify(&without), "");
}
