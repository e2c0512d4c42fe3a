use base64::engine::general_purpose::STANDARD;
use base64::Engine;
use file_tools::batch::{
    encode_result, payload_name, restore_result, zip_entry_name, EncodeItem, PathKind,
};
use file_tools::codec::md5_hex;
use file_tools::envelope::{encode_entry, parse_decode_text};
use file_tools::parts::{chunk_size, merge_base_name, merge_result, split_result, SplitProgress};
use std::io::{Cursor, Read, Write};

#[test]
fn encode_decode_roundtrip() {
    let data = b"Hello World! ".repeat(500);
    let entry = encode_entry("test.bin".to_string(), &data, data.len() as u64);
    assert_eq!(entry.name, "test.bin");
    assert!(!entry.source_size_label.is_empty());
    assert!(!entry.b64_size_label.is_empty());

    let (name, restored) = parse_decode_text(&entry.content).unwrap();
    assert_eq!(name, "test.bin");
    assert_eq!(restored, data.as_slice());

    let item = EncodeItem {
        name: entry.name,
        temp_path: "encode-1.txt".to_string(),
        source_size_label: entry.source_size_label,
        b64_size_label: entry.b64_size_label,
    };
    let result = encode_result(vec![item], 1);
    assert_eq!(result.items[0].name, "test.bin");
    assert_eq!(
        result.message,
        "Done: 1/1 encoded · test.bin · src 6.3 KB · Base64 8.5 KB"
    );
    let restored_report = restore_result(vec!["test.bin".to_string()], 1, 1);
    assert_eq!(restored_report.message, "Done: 1/1 file restored");
}

#[test]
fn encode_folder_as_zip() {
    let name = payload_name("payload", PathKind::Directory).unwrap();
    assert_eq!(name, "payload.zip");

    // Build the archive the way the folder is zipped: a root entry, then the
    // entries named from their path components.
    let mut zip = zip::ZipWriter::new(Cursor::new(Vec::new()));
    let options = zip::write::SimpleFileOptions::default()
        .compression_method(zip::CompressionMethod::Deflated);
    zip.add_directory(zip_entry_name(&vec!["payload".to_string()], true), options)
        .unwrap();
    zip.start_file(
        zip_entry_name(&vec!["payload".to_string(), "a.txt".to_string()], false),
        options,
    )
    .unwrap();
    zip.write_all(b"alpha").unwrap();
    zip.add_directory(
        zip_entry_name(&vec!["payload".to_string(), "nested".to_string()], true),
        options,
    )
    .unwrap();
    zip.start_file(
        zip_entry_name(
            &vec!["payload".to_string(), "nested".to_string(), "b.txt".to_string()],
            false,
        ),
        options,
    )
    .unwrap();
    zip.write_all(b"beta").unwrap();
    let bytes = zip.finish().unwrap().into_inner();

    let entry = encode_entry(name, &bytes, bytes.len() as u64);
    assert_eq!(entry.name, "payload.zip");
    let (decoded_name, decoded) = parse_decode_text(&entry.content).unwrap();
    assert_eq!(decoded_name, "payload.zip");
    assert!(!decoded.is_empty());

    let mut archive = zip::ZipArchive::new(Cursor::new(decoded)).unwrap();
    let mut names: Vec<String> = (0..archive.len())
        .map(|i| archive.by_index(i).unwrap().name().to_string())
        .collect();
    names.sort();
    assert!(names.iter().any(|n| n.contains("a.txt")));
    assert!(names.iter().any(|n| n.contains("b.txt")));
    assert!(names.contains(&"payload/nested/b.txt".to_string()));
    let mut beta = String::new();
    archive
        .by_name("payload/nested/b.txt")
        .unwrap()
        .read_to_string(&mut beta)
        .unwrap();
    assert_eq!(beta, "beta");
}

#[test]
fn split_merge_roundtrip() {
    let src = "filetools_tauri_split/blob.bin";
    let data = b"0123456789".repeat(300);
    let chunk = chunk_size(2048, "Bytes").unwrap();
    assert_eq!(chunk, 2048);

    // Reads of at most `chunk` bytes, as a file yields them, then an empty read.
    let mut progress = SplitProgress::new(src.to_string());
    let mut parts: Vec<(String, Vec<u8>)> = Vec::new();
    let mut offset = 0usize;
    loop {
        let n = std::cmp::min(chunk as usize, data.len() - offset);
        match progress.after_read(n) {
            Some(part) => parts.push((part, data[offset..offset + n].to_vec())),
            None => break,
        }
        offset += n;
    }
    assert!(!parts.is_empty());
    assert_eq!(progress.count(), 2);
    assert_eq!(parts[0].0, format!("{}.0001", src));
    assert_eq!(parts[1].0, format!("{}.0002", src));

    let outputs: Vec<String> = parts.iter().map(|(p, _)| p.clone()).collect();
    let split = split_result("blob.bin", outputs, chunk);
    assert_eq!(split.message, "blob.bin  ->  2 part(s)  @ 2.0 KB");

    let base = merge_base_name(&format!("{}.0001", src)).unwrap();
    assert_eq!(base, "blob.bin");
    let merged: Vec<u8> = parts.iter().flat_map(|(_, d)| d.clone()).collect();
    assert_eq!(merged, data.as_slice());
    let report = merge_result(parts.len(), src.to_string(), merged.len() as u64);
    assert_eq!(report.outputs[0], src);
    assert_eq!(
        report.message,
        "2 part(s)  ->  filetools_tauri_split/blob.bin  (2.9 KB)"
    );
}

#[test]
fn decode_pasted_text() {
    let data = b"paste me";
    let digest = md5_hex(data);
    let b64 = STANDARD.encode(data);
    let content = format!("hello.bin\n{digest}\n{b64}");
    let (name, bytes) = parse_decode_text(&content).unwrap();
    assert_eq!(name, "hello.bin");
    assert_eq!(bytes, data);
}
