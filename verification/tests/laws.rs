use file_tools::batch::{
    batch_dir_name, is_inside_dir, paste_temp_name, sizes_fit, sum_sizes, zip_folder_name,
    zip_temp_name,
};
use file_tools::codec::{display_name, md5_hex, Base64Failure};
use file_tools::envelope::{encode_text, parse_decode_text, peek_decode_header, TextFormatError};
use file_tools::parts::merge_base_name;

fn comps(parts: &[&str]) -> Vec<String> {
    parts.iter().map(|s| s.to_string()).collect()
}

#[test]
fn base64_body_follows_rfc_4648() {
    let vectors: [(&[u8], &str); 7] = [
        (b"", ""),
        (b"f", "Zg=="),
        (b"fo", "Zm8="),
        (b"foo", "Zm9v"),
        (b"foob", "Zm9vYg=="),
        (b"fooba", "Zm9vYmE="),
        (b"foobar", "Zm9vYmFy"),
    ];
    for (data, b64) in vectors {
        let text = encode_text("v.bin", data);
        assert_eq!(text, format!("v.bin\n{}\n{}", md5_hex(data), b64));
    }
}

#[test]
fn labels_that_hold_on_every_platform() {
    assert_eq!(display_name("dir\\sub/x.bin"), "x.bin");
    assert_eq!(display_name("C:/data/x.bin"), "x.bin");
    assert_eq!(display_name("dir/a:b"), "a:b");
    assert_eq!(display_name("ab:c"), "ab:c");
    assert_eq!(display_name("."), ".");
    assert_eq!(display_name("/"), "/");
    assert_eq!(display_name(""), "");
    assert_eq!(display_name("x/.."), "x/..");

    let (name, data) = parse_decode_text(&encode_text(".", b"dot")).unwrap();
    assert_eq!(name, ".");
    assert_eq!(data, b"dot");
    let (name, _) = parse_decode_text(&encode_text("ab:c", b"")).unwrap();
    assert_eq!(name, "ab:c");
    let (name, _) = peek_decode_header(&encode_text("dir\\sub/x.bin", b"")).unwrap();
    assert_eq!(name, "x.bin");

    assert_eq!(merge_base_name("dir\\sub/x.bin.0001").unwrap(), "x.bin");
    assert_eq!(zip_folder_name("dir\\sub/payload").unwrap(), "payload");
}

#[test]
fn inserted_whitespace_in_body_is_ignored() {
    let head = format!("x.bin\n{}\n", md5_hex(b"hi"));
    let plain = parse_decode_text(&format!("{head}aGk=")).unwrap();
    assert_eq!(plain, ("x.bin".to_string(), b"hi".to_vec()));
    for body in ["aG\nk=", " aGk=\r\n", "a G\tk =", "aGk=\n\n"] {
        assert_eq!(parse_decode_text(&format!("{head}{body}")).unwrap(), plain);
    }
    // Other whitespace inside a body is handed to the engine, which refuses it.
    match parse_decode_text(&format!("{head}aG\u{3000}k=")) {
        Err(TextFormatError::Base64(Base64Failure::InvalidByte(2, 0xE3))) => {}
        other => panic!("unexpected {other:?}"),
    }
}

#[test]
fn digest_case_keeps_label_and_content() {
    let text = encode_text("dir/x.bin", b"hello");
    let upper = text.replace(&md5_hex(b"hello"), &md5_hex(b"hello").to_ascii_uppercase());
    assert_eq!(parse_decode_text(&text).unwrap(), parse_decode_text(&upper).unwrap());
    assert_eq!(peek_decode_header(&upper).unwrap().0, parse_decode_text(&text).unwrap().0);
}

#[test]
fn folder_size_grows_by_inserted_file() {
    let before = vec![3u64, 4, 5];
    let mut after = before.clone();
    after.insert(1, 10);
    assert_eq!(sum_sizes(&after), sum_sizes(&before) + 10);
    assert_eq!(sum_sizes(&before), 12);
    assert_eq!(sum_sizes(&Vec::new()), 0);
    assert!(sizes_fit(&vec![u64::MAX, 0]));
    assert!(!sizes_fit(&vec![u64::MAX, 1]));
}

#[test]
fn paste_cleanup_stays_inside_its_folder() {
    let base = comps(&["/", "tmp", "file-tools-paste"]);
    assert!(is_inside_dir(&comps(&["/", "tmp", "file-tools-paste", "a.bin"]), &base));
    assert!(is_inside_dir(&comps(&["/", "tmp", "file-tools-paste", "d", "a.bin"]), &base));
    assert!(!is_inside_dir(&comps(&["/", "tmp", "file-tools-paste", "..", "a.bin"]), &base));
    assert!(!is_inside_dir(&comps(&["/", "tmp", "file-tools-paste", "d", "..", ".."]), &base));
    assert!(!is_inside_dir(&base, &base));
    assert!(!is_inside_dir(&comps(&["/", "tmp", "other", "a.bin"]), &base));
    assert!(!is_inside_dir(&comps(&["tmp", "file-tools-paste", "a.bin"]), &base));
}

#[test]
fn temporary_names() {
    assert_eq!(batch_dir_name(42, 1_700_000_000_123_456_789), "42-1700000000123456789");
    assert_ne!(batch_dir_name(4, 21), batch_dir_name(42, 1));
    assert_ne!(batch_dir_name(1, 2), batch_dir_name(1, 3));
    assert_eq!(zip_temp_name(7, 1234), "file-tools-zip-7-1234.zip");
    assert_eq!(paste_temp_name(0), "paste-0.txt");
}

#[test]
fn labels_with_a_final_component_stay_in_their_folder() {
    for line in ["../x\\y", "a\\b/../c\\d", "dir/sub/./", "../../etc/x.bin/", "x\\..\\y"] {
        let label = display_name(line);
        assert!(!label.is_empty() && label != "." && label != "..", "{line}: {label}");
        assert!(!label.contains('/'), "{line}: {label}");
        let (name, _) = parse_decode_text(&encode_text(line, b"z")).unwrap();
        assert_eq!(name, label);
        assert_eq!(peek_decode_header(&encode_text(line, b"z")).unwrap().0, label);
    }
    assert_eq!(display_name("dir/sub/./"), "sub");
    // Where the path may have no final component, the line itself is shown.
    assert_eq!(display_name("a/b/.."), "a/b/..");
    assert_eq!(display_name("/./"), "/./");
}
