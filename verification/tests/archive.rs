use reftar::create::FileMeta;
use reftar::format::ExtentHeader;
use reftar::format::FileHeader;
use reftar::ArchiveCreator;
use reftar::ArchiveError;
use reftar::ArchiveExtractor;
use reftar::ExtentType;
use reftar::FileType;

fn regular_meta(name: &[u8]) -> FileMeta {
    FileMeta {
        file_size: 0,
        file_type: FileType::Regular,
        uid: 1000,
        gid: 1000,
        access_time: 1,
        modify_time: 2,
        creation_time: 3,
        username: b"alice".to_vec(),
        groupname: b"users".to_vec(),
        file_path: Vec::new(),
        file_name: name.to_vec(),
        link_name: Vec::new(),
        source_filesystem_type: b"ext4".to_vec(),
        source_filesystem_id: 7,
        source_path: name.to_vec(),
    }
}

fn archive_of(files: &[(&[u8], Vec<u8>)]) -> Vec<u8> {
    let mut creator = ArchiveCreator::new(Some(4096));
    for (name, content) in files {
        creator.add_file(&regular_meta(name), content);
    }
    creator.finish()
}

fn extract_contents(archive: Vec<u8>) -> Vec<(Vec<u8>, Option<Vec<u8>>)> {
    let mut extractor = ArchiveExtractor::new(archive, Vec::new()).unwrap();
    let entries = extractor.extract_all().unwrap();
    entries
        .into_iter()
        .map(|e| (e.output_path, e.content))
        .collect()
}

#[test]
fn test_create_empty_archive() {
    let creator = ArchiveCreator::new(None);
    creator.finish();
}

#[test]
fn test_add_small_file() {
    let mut creator = ArchiveCreator::new(None);
    creator.add_file(&regular_meta(b"test.txt"), &b"Hello, world!".to_vec());
    creator.finish();
}

#[test]
fn test_extract_empty_archive() {
    let creator = ArchiveCreator::new(None);
    let archive = creator.finish();
    let mut extractor = ArchiveExtractor::new(archive, b"out".to_vec()).unwrap();
    let entries = extractor.extract_all().unwrap();
    assert!(entries.is_empty());
}

#[test]
fn empty_archive_is_one_block_with_magic() {
    // header only, block_size 4096: file length 4096, magic at offset 0
    let archive = ArchiveCreator::new(Some(4096)).finish();
    assert_eq!(archive.len(), 4096);
    assert_eq!(&archive[0..6], b"reftar");
}

#[test]
fn small_file_is_inlined_and_roundtrips() {
    // a 13-byte file: one file header, no extent records
    let content = b"Hello, world!".to_vec();
    let archive = archive_of(&[(b"hello.txt", content.clone())]);
    assert_eq!(archive.len(), 2 * 4096);
    let extracted = extract_contents(archive);
    assert_eq!(extracted.len(), 1);
    assert_eq!(extracted[0].0, b"hello.txt".to_vec());
    assert_eq!(extracted[0].1, Some(content));
}

#[test]
fn two_distinct_blocks_become_two_data_extents() {
    // 8192 distinct bytes: two data extents, ids 0 and 1
    let content: Vec<u8> = (0..8192u64).map(|i| (i * 37 + i / 251) as u8).collect();
    let archive = archive_of(&[(b"blob.bin", content.clone())]);
    // archive header + file header + 2 x (extent header + one-block payload)
    assert_eq!(archive.len(), 6 * 4096);
    let extracted = extract_contents(archive);
    assert_eq!(extracted[0].1, Some(content));
}

#[test]
fn repeated_block_becomes_reference() {
    // 8192 zero bytes: one data extent and one reference, no second payload
    let content = vec![0u8; 8192];
    let archive = archive_of(&[(b"zeros.bin", content.clone())]);
    // archive header + file header + data header + payload + reference header
    assert_eq!(archive.len(), 5 * 4096);
    let extracted = extract_contents(archive);
    assert_eq!(extracted[0].1, Some(content));
}

#[test]
fn identical_files_share_content_blocks() {
    let content = vec![0xabu8; 4096];
    let archive = archive_of(&[
        (b"a.bin", content.clone()),
        (b"b.bin", content.clone()),
    ]);
    // second file carries a reference instead of a second payload block
    assert_eq!(archive.len(), (1 + 1 + 1 + 1 + 1 + 1) * 4096);

    let mut extractor = ArchiveExtractor::new(archive, Vec::new()).unwrap();
    let entries = extractor.extract_all().unwrap();
    assert_eq!(entries.len(), 2);
    assert_eq!(entries[0].content, Some(content.clone()));
    assert_eq!(entries[1].content, Some(content));
    // the second file's block can be recovered by a range clone from the first
    assert!(entries[0].reflink_ops.is_empty());
    assert_eq!(entries[1].reflink_ops.len(), 1);
    let op = &entries[1].reflink_ops[0];
    assert_eq!(op.extent_id, 0);
    assert_eq!(op.source_path, b"a.bin".to_vec());
    assert_eq!(op.source_offset, 0);
    assert_eq!(op.dest_offset, 0);
    assert_eq!(op.length, 4096);
}

#[test]
fn flipped_checksum_fails_with_mismatch() {
    let content: Vec<u8> = (0..8192u64).map(|i| (i % 251) as u8).collect();
    let mut archive = archive_of(&[(b"blob.bin", content)]);
    // the second extent header starts after the archive header, the file
    // header, the first extent header and its one-block payload
    let second_extent = 4 * 4096;
    archive[second_extent + 21] ^= 0x01;
    let mut extractor = ArchiveExtractor::new(archive, Vec::new()).unwrap();
    match extractor.extract_all() {
        Err(ArchiveError::ChecksumMismatch(id, stored, got)) => {
            assert_eq!(id, 1);
            assert_ne!(stored, got);
        }
        other => panic!("expected a checksum mismatch, got {:?}", other.is_ok()),
    }
}

#[test]
fn stored_checksum_is_the_crc32_of_the_padded_block() {
    let mut content = b"some content that is longer than one block".to_vec();
    content.resize(5000, 7);
    let archive = archive_of(&[(b"c.bin", content)]);
    // first extent header follows the archive header and the file header
    let extent_header = 2 * 4096;
    let stored = u32::from_le_bytes(
        archive[extent_header + 21..extent_header + 25].try_into().unwrap(),
    );
    let payload = &archive[3 * 4096..4 * 4096];
    assert_eq!(stored, crc32fast::hash(payload));
}

#[test]
fn dangling_reference_is_rejected() {
    let mut archive = Vec::new();
    reftar::ArchiveHeader::new(4096).write(&mut archive);
    let fh = FileHeader {
        file_size: 4096,
        file_type: FileType::Regular,
        uid: 0,
        gid: 0,
        device_major: 0,
        device_minor: 0,
        access_time: 0,
        modify_time: 0,
        creation_time: 0,
        username: Vec::new(),
        groupname: Vec::new(),
        file_path: Vec::new(),
        file_name: b"f".to_vec(),
        link_name: Vec::new(),
        extended_permissions: Vec::new(),
        source_filesystem_type: Vec::new(),
        source_filesystem_id: 0,
        inline_data: Vec::new(),
    };
    fh.write(&mut archive, 4096);
    let eh = ExtentHeader {
        extent_id: 99,
        length_in_blocks: 1,
        extent_type: ExtentType::Reference,
        source_extent_start: 0,
        checksum: 0,
    };
    eh.write(&mut archive, 4096);
    let mut extractor = ArchiveExtractor::new(archive, Vec::new()).unwrap();
    match extractor.extract_all() {
        Err(e) => assert_eq!(e, ArchiveError::DanglingReference(99)),
        Ok(_) => panic!("expected a dangling-reference error"),
    }
}

#[test]
fn truncated_archive_is_rejected() {
    let content = vec![3u8; 8192];
    let mut archive = archive_of(&[(b"t.bin", content)]);
    archive.truncate(3 * 4096 + 100);
    let mut extractor = ArchiveExtractor::new(archive, Vec::new()).unwrap();
    match extractor.extract_all() {
        Err(e) => assert_eq!(e, ArchiveError::TruncatedRecord),
        Ok(_) => panic!("expected a truncation error"),
    }
}

#[test]
fn directories_and_symlinks_roundtrip() {
    let mut creator = ArchiveCreator::new(Some(4096));
    let mut dir = regular_meta(b"subdir");
    dir.file_type = FileType::Directory;
    creator.add_file(&dir, &Vec::new());
    let mut link = regular_meta(b"link");
    link.file_type = FileType::SymbolicLink;
    link.link_name = b"subdir/target".to_vec();
    creator.add_file(&link, &Vec::new());
    let archive = creator.finish();

    let mut extractor = ArchiveExtractor::new(archive, Vec::new()).unwrap();
    let entries = extractor.extract_all().unwrap();
    assert_eq!(entries.len(), 2);
    assert_eq!(entries[0].header.file_type, FileType::Directory);
    assert!(entries[0].content.is_none());
    assert_eq!(entries[1].header.file_type, FileType::SymbolicLink);
    assert_eq!(entries[1].header.link_name, b"subdir/target".to_vec());
}

#[test]
fn empty_regular_file_roundtrips() {
    let archive = archive_of(&[(b"empty", Vec::new())]);
    let extracted = extract_contents(archive);
    assert_eq!(extracted[0].1, Some(Vec::new()));
}

#[test]
fn partial_last_block_roundtrips() {
    // 5000 bytes: one full block and a partial block padded with zeros
    let content: Vec<u8> = (0..5000u64).map(|i| (i % 193) as u8).collect();
    let archive = archive_of(&[(b"p.bin", content.clone())]);
    let extracted = extract_contents(archive);
    assert_eq!(extracted[0].1, Some(content));
}

#[test]
fn list_files_reports_every_path() {
    let archive = archive_of(&[
        (b"one.bin", vec![1u8; 8192]),
        (b"two.txt", b"inline".to_vec()),
    ]);
    let mut extractor = ArchiveExtractor::new(archive, Vec::new()).unwrap();
    let paths = extractor.list_files().unwrap();
    // the directory part is empty, so the listed form keeps a leading slash
    assert_eq!(paths, vec![b"/one.bin".to_vec(), b"/two.txt".to_vec()]);
}

#[test]
fn output_dir_prefixes_extracted_paths() {
    let archive = archive_of(&[(b"file.txt", b"x".to_vec())]);
    let mut extractor = ArchiveExtractor::new(archive, b"out".to_vec()).unwrap();
    let entries = extractor.extract_all().unwrap();
    assert_eq!(entries[0].output_path, b"out/file.txt".to_vec());
}

#[test]
fn extractor_rejects_non_archive_input() {
    assert_eq!(
        ArchiveExtractor::new(b"definitely not an archive".to_vec(), Vec::new()).err(),
        Some(ArchiveError::FormatMagic)
    );
}
