use file_tools::batch::{
    check_zip_source, copy_text_message, encoded_file_name, located_error, payload_name,
    zip_folder_name, PathKind,
};
use file_tools::codec::{display_name, md5_hex, Base64Failure};
use file_tools::envelope::{
    encode_text, parse_decode_text, paste_summary, peek_decode_header, TextFormatError,
};
use file_tools::parts::{
    check_merge_source, check_split_source, merge_base_name, part_path, PartSearch,
};

#[test]
fn names_from_paths_with_directories() {
    assert_eq!(display_name("/d/e"), "e");
    assert_eq!(display_name("dir/x.bin"), "x.bin");
    assert_eq!(display_name("../../etc/x.bin"), "x.bin");
    assert_eq!(display_name("a/.."), "a/..");
    assert_eq!(display_name(".."), "..");
    assert_eq!(
        payload_name("/tmp/filetools_tauri_test/test.bin", PathKind::File).unwrap(),
        "test.bin"
    );
    assert_eq!(
        payload_name("/tmp/filetools_tauri_folder/payload", PathKind::Directory).unwrap(),
        "payload.zip"
    );
    assert_eq!(merge_base_name("/d/a.b.0001").unwrap(), "a.b");
    assert_eq!(merge_base_name("d/a.b.0001").unwrap(), "a.b");
    assert_eq!(merge_base_name("/d/x.001").unwrap_err(), "Part file must end with .NNNN");
    assert_eq!(copy_text_message("", "/tmp/batch/base64-1.txt"), "Copied base64-1.txt to clipboard");
    assert_eq!(zip_folder_name("/data/payload").unwrap(), "payload");
    assert_eq!(zip_folder_name("/").unwrap_err(), "Invalid directory name: /");
    assert_eq!(check_zip_source("/x", false).unwrap_err(), "/x is not a directory.");
    assert!(check_zip_source("/x", true).is_ok());
}

#[test]
fn decoded_names_drop_directories() {
    let text = encode_text("../../etc/x.bin", b"hi");
    let (name, data) = parse_decode_text(&text).unwrap();
    assert_eq!(name, "x.bin");
    assert_eq!(data, b"hi");
    let (peek_name, md5) = peek_decode_header(&text).unwrap();
    assert_eq!(peek_name, "x.bin");
    assert_eq!(md5, md5_hex(b"hi"));
    assert_eq!(paste_summary(&text).unwrap().name, "x.bin");

    let (name, _) = parse_decode_text(&encode_text("..", b"")).unwrap();
    assert_eq!(name, "..");
}

#[test]
fn base64_failures_are_reported_exactly() {
    let bad = |body: &str| match parse_decode_text(&format!("x\n{}\n{}", md5_hex(b"hi"), body)) {
        Err(TextFormatError::Base64(f)) => f,
        _ => panic!("expected a Base64 error"),
    };
    assert_eq!(bad("aGk!"), Base64Failure::InvalidByte(3, b'!'));
    assert_eq!(bad("aGk"), Base64Failure::InvalidPadding);
    assert_eq!(bad("aGl="), Base64Failure::InvalidLastSymbol(2, b'l'));
    assert_eq!(bad("a"), Base64Failure::InvalidLength(1));
    assert_eq!(Base64Failure::InvalidByte(3, 33).message(), "Invalid symbol 33, offset 3.");
    assert_eq!(Base64Failure::InvalidLength(1).message(), "Invalid input length: 1");
    assert_eq!(
        Base64Failure::InvalidLastSymbol(2, 108).message(),
        "Invalid last symbol 108, offset 2."
    );
    assert_eq!(Base64Failure::InvalidPadding.message(), "Invalid padding");
    assert_eq!(
        TextFormatError::Base64(Base64Failure::InvalidPadding).message(),
        "Base64 decode failed: Invalid padding"
    );
}

#[test]
fn merge_search_and_checks() {
    let mut search = PartSearch::new("/d/a.b".to_string());
    assert_eq!(search.candidate(), "/d/a.b.0001");
    assert!(search.after_probe(true));
    assert_eq!(search.candidate(), "/d/a.b.0002");
    assert!(search.after_probe(true));
    assert_eq!(search.candidate(), "/d/a.b.0003");
    assert!(!search.after_probe(false));
    assert_eq!(search.count(), 2);
    assert_eq!(search.parts(), vec!["/d/a.b.0001".to_string(), "/d/a.b.0002".to_string()]);
    assert_eq!(part_path("/d/a.b", 2), search.parts()[1]);

    assert_eq!(check_merge_source(false).unwrap_err(), "Select a valid part file.");
    assert!(check_merge_source(true).is_ok());
    assert_eq!(check_split_source(false).unwrap_err(), "Select a valid file.");
    assert!(check_split_source(true).is_ok());
    assert_eq!(located_error("/x/y.txt", "boom"), "/x/y.txt: boom");
    assert_eq!(encoded_file_name(1), "base64-1.txt");
    assert_eq!(encoded_file_name(12), "base64-12.txt");
}
