use toolkit::csv_io::{drsum_csv, parse_csv, shift_jis_csv, strip_utf8_bom, utf8_csv};
use toolkit::digest::{hashes_equal, md5_hex, parse_md5_args, to_hex_lower, Md5Command};
use toolkit::error::DataError;

fn rows(cells: &[&[&str]]) -> Vec<Vec<String>> {
    cells.iter().map(|r| r.iter().map(|c| c.to_string()).collect()).collect()
}

fn args(list: &[&str]) -> Vec<String> {
    list.iter().map(|a| a.to_string()).collect()
}

#[test]
fn md5_of_known_inputs() {
    assert_eq!(md5_hex(b""), "d41d8cd98f00b204e9800998ecf8427e");
    assert_eq!(md5_hex(b"abc"), "900150983cd24fb0d6963f7d28e17f72");
    assert_eq!(to_hex_lower(&[0x00, 0xab, 0x0f]), "00ab0f");
}

#[test]
fn md5_command_line() {
    assert!(matches!(parse_md5_args(&args(&["md5"])), Md5Command::Usage));
    assert!(matches!(parse_md5_args(&args(&["md5", "-h"])), Md5Command::Help));
    assert!(matches!(parse_md5_args(&args(&["md5", "--help", "x"])), Md5Command::Help));
    match parse_md5_args(&args(&["md5", "-f", "file.bin"])) {
        Md5Command::Digest { path } => assert_eq!(path, "file.bin"),
        _ => panic!("expected a digest command"),
    }
    assert!(matches!(parse_md5_args(&args(&["md5", "-f"])), Md5Command::DigestArgs));
    assert!(matches!(parse_md5_args(&args(&["md5", "-c", "ab", "ab"])), Md5Command::Compare { same: true }));
    assert!(matches!(parse_md5_args(&args(&["md5", "-c", "ab", "AB"])), Md5Command::Compare { same: false }));
    assert!(matches!(parse_md5_args(&args(&["md5", "-c", "ab"])), Md5Command::CompareArgs));
    match parse_md5_args(&args(&["md5", "-x"])) {
        Md5Command::InvalidOption { option } => assert_eq!(option, "-x"),
        _ => panic!("expected an invalid option"),
    }
    assert!(hashes_equal(&"a".to_string(), &"a".to_string()));
}

#[test]
fn csv_records() {
    assert_eq!(parse_csv(b"a,b\n1,2\n", true).unwrap(), rows(&[&["a", "b"], &["1", "2"]]));
    assert_eq!(parse_csv(b"\"x,y\",z", true).unwrap(), rows(&[&["x,y", "z"]]));
    assert_eq!(parse_csv(b"\"x,y\",z", false).unwrap(), rows(&[&["\"x", "y\"", "z"]]));
    assert_eq!(parse_csv(b"a\nb,c,d\n", true).unwrap(), rows(&[&["a"], &["b", "c", "d"]]));
    match parse_csv(&[b'a', b',', 0xff, b'\n'], true) {
        Err(DataError::Csv { message }) => assert!(message.contains("invalid utf-8"), "{message}"),
        other => panic!("expected a CSV error, got {other:?}"),
    }
    assert_eq!(utf8_csv("x,y", true).unwrap(), rows(&[&["x", "y"]]));
}

#[test]
fn shift_jis_csv_records() {
    let bytes = vec![0x82, 0xA0, b',', b'1', b'\n'];
    assert_eq!(shift_jis_csv("a.csv", &bytes, true).unwrap(), rows(&[&["あ", "1"]]));
    let err = shift_jis_csv("bad.csv", &[0x82], true).unwrap_err();
    assert!(matches!(err, DataError::ShiftJisFile { .. }));
    assert_eq!(err.message(), "failed to decode Shift_JIS file: bad.csv");
}

#[test]
fn drsum_records() {
    let utf8 = "\u{feff}h1,h2\nv1,v2\n".as_bytes().to_vec();
    assert_eq!(drsum_csv("d.csv", &utf8, true).unwrap(), rows(&[&["h1", "h2"], &["v1", "v2"]]));
    let sjis = vec![0x82, 0xA0, b',', b'x'];
    assert_eq!(drsum_csv("d.csv", &sjis, true).unwrap(), rows(&[&["あ", "x"]]));
}

#[test]
fn bom_stripping() {
    assert_eq!(strip_utf8_bom("\u{feff}abc"), "abc");
    assert_eq!(strip_utf8_bom("\u{feff}\u{feff}x"), "\u{feff}x");
    assert_eq!(strip_utf8_bom("abc"), "abc");
    assert_eq!(strip_utf8_bom(""), "");
}
