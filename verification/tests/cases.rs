use base64::engine::general_purpose::STANDARD;
use base64::Engine;
use file_tools::batch::{
    check_decode_paths, check_encode_paths, copy_text_message, encode_result, path_byte_size,
    payload_name, restore_result, sizes_fit, zip_entry_name, EncodeItem, PathKind, PathStat,
};
use file_tools::codec::{base64_len_fits, display_name, md5_hex};
use file_tools::envelope::{
    assemble_text, check_digest, decode_text, encode_text, parse_decode_text, paste_summary, peek_decode_header,
    split_decode_parts, TextFormatError,
};
use file_tools::parts::{
    check_parts_found, chunk_size, merge_base_name, part_base_name, part_path, SplitProgress,
};

const HI_MD5: &str = "49f68a5c8493ec2c0bf489821c21fc3b";

fn item(name: &str) -> EncodeItem {
    EncodeItem {
        name: name.to_string(),
        temp_path: String::new(),
        source_size_label: "1 B".to_string(),
        b64_size_label: "4 B".to_string(),
    }
}

#[test]
fn md5_hex_known_digests() {
    assert_eq!(md5_hex(b""), "d41d8cd98f00b204e9800998ecf8427e");
    assert_eq!(md5_hex(b"abc"), "900150983cd24fb0d6963f7d28e17f72");
    assert_eq!(md5_hex(b"hi"), HI_MD5);
}

#[test]
fn encode_text_layout() {
    assert_eq!(encode_text("hello.bin", b"hi"), format!("hello.bin\n{HI_MD5}\naGk="));
    assert_eq!(
        encode_text("e", b""),
        "e\nd41d8cd98f00b204e9800998ecf8427e\n"
    );
}

#[test]
fn roundtrip_keeps_names_and_bytes() {
    for name in ["a", "my file.txt", "x.tar.gz", "...hidden"] {
        for data in [&b""[..], b"\0", b"ab", b"abc", b"\xff\xfe\xfd\xfc"] {
            let (n, d) = parse_decode_text(&encode_text(name, data)).unwrap();
            assert_eq!(n, name);
            assert_eq!(d, data);
        }
    }
}

#[test]
fn split_parts_trims_lines() {
    let (name, md5, body) = split_decode_parts("  a.bin \r\n  ABC \r\nbody\nmore").unwrap();
    assert_eq!(name, "a.bin");
    assert_eq!(md5, "ABC");
    assert_eq!(body, "body\nmore");
    let e = split_decode_parts("one line\n").unwrap_err();
    assert!(matches!(e, TextFormatError::MissingLines));
    assert_eq!(e.message(), "Need at least 3 lines (name, MD5, base64).");
}

#[test]
fn decode_errors() {
    let e = parse_decode_text(&format!(" \t \n{HI_MD5}\naGk=")).unwrap_err();
    assert!(matches!(e, TextFormatError::EmptyName));
    assert_eq!(e.message(), "Filename on line 1 is empty.");

    let e = parse_decode_text("x\n1234\naGk=").unwrap_err();
    assert!(matches!(e, TextFormatError::InvalidMd5));
    assert_eq!(e.message(), "Invalid MD5 on line 2.");
    let e = parse_decode_text("x\nzz150983cd24fb0d6963f7d28e17f72z\naGk=").unwrap_err();
    assert!(matches!(e, TextFormatError::InvalidMd5));

    let e = parse_decode_text(&format!("x\n{HI_MD5}\n!!!!")).unwrap_err();
    assert!(matches!(e, TextFormatError::Base64(_)));
    assert_eq!(e.message(), "Base64 decode failed: Invalid symbol 33, offset 0.");

    let e = parse_decode_text("x\n900150983cd24fb0d6963f7d28e17f72\naGk=").unwrap_err();
    match &e {
        TextFormatError::Md5Mismatch { expected, actual } => {
            assert_eq!(expected, "900150983cd24fb0d6963f7d28e17f72");
            assert_eq!(actual, HI_MD5);
        }
        _ => panic!("expected a digest mismatch"),
    }
    assert_eq!(
        e.message(),
        format!("MD5 mismatch! Expected=900150983cd24fb0d6963f7d28e17f72 Actual={HI_MD5}")
    );
    assert_eq!(TextFormatError::EmptyText.message(), "Clipboard is empty.");
}

#[test]
fn decode_accepts_case_wrapping_and_paths() {
    let upper = HI_MD5.to_uppercase();
    let (n, d) = parse_decode_text(&format!("hi.txt\n{upper}\naGk=")).unwrap();
    assert_eq!((n.as_str(), d.as_slice()), ("hi.txt", &b"hi"[..]));

    let data = b"The quick brown fox jumps over the lazy dog".to_vec();
    let b64 = STANDARD.encode(&data);
    let wrapped: String = b64
        .as_bytes()
        .chunks(8)
        .map(|c| format!("{}\r\n", std::str::from_utf8(c).unwrap()))
        .collect();
    let text = format!("fox.txt\r\n{}\r\n{}", md5_hex(&data), wrapped);
    let (n, d) = parse_decode_text(&text).unwrap();
    assert_eq!(n, "fox.txt");
    assert_eq!(d, data);

    // Without ASCII whitespace the body is only trimmed (here of U+3000).
    let (_, d) = parse_decode_text(&format!("x\n{HI_MD5}\n\u{3000}aGk=\u{3000}")).unwrap();
    assert_eq!(d, b"hi");

    let (n, _) = parse_decode_text(&format!("dir/sub/x.bin\n{HI_MD5}\naGk=")).unwrap();
    assert_eq!(n, "x.bin");
    let (raw, _) = decode_text(&format!("dir/sub/x.bin\n{HI_MD5}\naGk=")).unwrap();
    assert_eq!(raw, "dir/sub/x.bin");
}

#[test]
fn peek_and_paste_summary() {
    let text = format!("a/b.bin\n{}\n%%%%", HI_MD5.to_uppercase());
    let (name, md5) = peek_decode_header(&text).unwrap();
    assert_eq!(name, "b.bin");
    assert_eq!(md5, HI_MD5.to_uppercase());

    let e = paste_summary(" \n\t ").unwrap_err();
    assert!(matches!(e, TextFormatError::EmptyText));
    let e = paste_summary("just text").unwrap_err();
    assert!(matches!(e, TextFormatError::MissingLines));

    let text = format!("héllo.bin\n{HI_MD5}\naGk=");
    let s = paste_summary(&text).unwrap();
    assert_eq!(s.name, "héllo.bin");
    assert_eq!(s.md5, HI_MD5);
    assert_eq!(s.chars, text.len() as u64);
    assert_eq!(s.size_label, format!("{} B", text.len()));
}

#[test]
fn copy_messages() {
    assert_eq!(
        copy_text_message("  name.bin \r\nabc\ndef", "/tmp/encode-1.txt"),
        "Copied name.bin to clipboard"
    );
    assert_eq!(
        copy_text_message("\nabc", "/tmp/encode-1.txt"),
        "Copied encode-1.txt to clipboard"
    );
    assert_eq!(copy_text_message("", "/"), "Copied output to clipboard");
}

#[test]
fn batch_messages_and_checks() {
    assert_eq!(
        check_encode_paths(0).unwrap_err(),
        "Select at least one file or folder."
    );
    assert!(check_encode_paths(2).is_ok());
    assert_eq!(check_decode_paths(0).unwrap_err(), "Select at least one file.");
    assert!(check_decode_paths(1).is_ok());

    let r = encode_result(vec![item("a"), item("b")], 2);
    assert_eq!(r.message, "Done: 2/2 encoded · use Copy for each");
    assert_eq!(r.items.len(), 2);
    let r = encode_result(vec![item("a")], 1);
    assert_eq!(r.message, "Done: 1/1 encoded · a · src 1 B · Base64 4 B");

    let r = restore_result(vec!["a".to_string(), "b".to_string()], 2, 3);
    assert_eq!(r.message, "Done: 2/3 files restored");
}

#[test]
fn payload_names_and_sizes() {
    assert_eq!(payload_name("/data/photos", PathKind::Directory).unwrap(), "photos.zip");
    assert_eq!(
        payload_name("/", PathKind::Directory).unwrap_err(),
        "Invalid directory name: /"
    );
    assert_eq!(payload_name("/data/a.txt", PathKind::File).unwrap(), "a.txt");
    assert_eq!(payload_name("..", PathKind::File).unwrap(), "unknown");
    assert_eq!(
        payload_name("/nope", PathKind::Other).unwrap_err(),
        "Not a file or directory: /nope"
    );

    assert_eq!(path_byte_size("f", &PathStat::File(42)).unwrap(), 42);
    assert_eq!(
        path_byte_size("d", &PathStat::Directory(vec![1, 2, 3])).unwrap(),
        6
    );
    assert_eq!(path_byte_size("d", &PathStat::Directory(vec![])).unwrap(), 0);
    assert_eq!(
        path_byte_size("x", &PathStat::Other).unwrap_err(),
        "Not a file or directory: x"
    );
    assert!(sizes_fit(&vec![u64::MAX - 1, 1]));
    assert!(!sizes_fit(&vec![u64::MAX, 1]));
}

#[test]
fn zip_entry_names() {
    let parts = |v: &[&str]| v.iter().map(|s| s.to_string()).collect::<Vec<_>>();
    assert_eq!(zip_entry_name(&parts(&["payload"]), true), "payload/");
    assert_eq!(zip_entry_name(&parts(&["payload", "a.txt"]), false), "payload/a.txt");
    assert_eq!(zip_entry_name(&parts(&["p", "n", "b.txt"]), false), "p/n/b.txt");
    assert_eq!(zip_entry_name(&parts(&["p", "n"]), true), "p/n/");
    assert_eq!(zip_entry_name(&parts(&["p", "n/"]), true), "p/n/");
}

#[test]
fn chunk_sizes() {
    assert_eq!(chunk_size(3, "KB").unwrap(), 3072);
    assert_eq!(chunk_size(2, "MB").unwrap(), 2_097_152);
    assert_eq!(chunk_size(7, "Bytes").unwrap(), 7);
    assert_eq!(chunk_size(0, "KB").unwrap_err(), "Size must be a positive integer.");
    assert_eq!(chunk_size(1, "GB").unwrap_err(), "Unit must be MB, KB, or Bytes.");
    assert_eq!(chunk_size(1, "kb").unwrap_err(), "Unit must be MB, KB, or Bytes.");
}

#[test]
fn part_names() {
    assert_eq!(part_path("a/b.bin", 1), "a/b.bin.0001");
    assert_eq!(part_path("b", 42), "b.0042");
    assert_eq!(part_path("b", 9999), "b.9999");
    assert_eq!(part_path("b", 12345), "b.12345");

    let mut progress = SplitProgress::new("f".to_string());
    assert_eq!(progress.after_read(10).unwrap(), "f.0001");
    assert_eq!(progress.after_read(3).unwrap(), "f.0002");
    assert!(progress.after_read(0).is_none());
    assert_eq!(progress.count(), 2);

    assert_eq!(part_base_name("blob.bin.0001").unwrap(), "blob.bin");
    assert_eq!(part_base_name(".0001").unwrap(), "");
    for bad in ["blob.bin.001", "blob.bin.00a1", "noext", "blob.0001x", "b.١٢٣٤"] {
        assert_eq!(part_base_name(bad).unwrap_err(), "Part file must end with .NNNN");
    }
    assert_eq!(merge_base_name("/x/y/blob.bin.0002").unwrap(), "blob.bin");
    assert_eq!(merge_base_name("/").unwrap_err(), "Invalid part file name.");
    assert_eq!(
        check_parts_found(0, "/x/blob.bin").unwrap_err(),
        "No parts found for: /x/blob.bin"
    );
    assert!(check_parts_found(3, "/x/blob.bin").is_ok());
    assert_eq!(display_name("/x/y/z.txt"), "z.txt");
    assert_eq!(display_name("/"), "/");
}

#[test]
fn base64_length_limit() {
    assert!(base64_len_fits(0));
    assert!(base64_len_fits(1 << 40));
    assert!(!base64_len_fits(usize::MAX));
    assert!(!base64_len_fits(usize::MAX / 4 * 3 + 1));
    let entry = file_tools::envelope::encode_entry("x".to_string(), &[0u8; 1023], 5);
    // 1023 bytes give 1364 Base64 characters.
    assert_eq!(entry.b64_size_label, "1.3 KB");
    assert_eq!(entry.source_size_label, "5 B");
}

#[test]
fn digest_check_and_layout() {
    let (n, d) = check_digest("a".into(), vec![1, 2], "ABCdef".into(), "abcDEF".into()).unwrap();
    assert_eq!((n.as_str(), d), ("a", vec![1, 2]));
    match check_digest("a".into(), vec![], "abc".into(), "abd".into()) {
        Err(TextFormatError::Md5Mismatch { expected, actual }) => {
            assert_eq!((expected.as_str(), actual.as_str()), ("abc", "abd"));
        }
        _ => panic!("expected a digest mismatch"),
    }
    assert!(check_digest("a".into(), vec![], "abc".into(), "abcd".into()).is_err());
    let (text, body_len) = assemble_text("n", "d1", "QUJD");
    assert_eq!(text, "n\nd1\nQUJD");
    assert_eq!(body_len, 4);
}
