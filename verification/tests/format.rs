use reftar::format::ExtentHeader;
use reftar::format::FileHeader;
use reftar::ArchiveError;
use reftar::ArchiveHeader;
use reftar::ExtentType;
use reftar::FileType;

#[test]
fn test_archive_header_roundtrip() {
    let header = ArchiveHeader::new(4096);
    let mut buf = Vec::new();
    header.write(&mut buf);

    let (read_header, consumed) = ArchiveHeader::read(&buf).unwrap();

    assert_eq!(header.version, read_header.version);
    assert_eq!(header.block_size, read_header.block_size);
    assert_eq!(consumed, 4096);
}

#[test]
fn archive_header_rejects_bad_magic() {
    let header = ArchiveHeader::new(4096);
    let mut buf = Vec::new();
    header.write(&mut buf);
    buf[0] = b'x';
    assert_eq!(ArchiveHeader::read(&buf), Err(ArchiveError::FormatMagic));
}

#[test]
fn archive_header_rejects_truncation() {
    let header = ArchiveHeader::new(4096);
    let mut buf = Vec::new();
    header.write(&mut buf);
    buf.truncate(10);
    assert_eq!(ArchiveHeader::read(&buf), Err(ArchiveError::TruncatedRecord));
}

#[test]
fn archive_header_rejects_zero_block_size() {
    let mut buf = Vec::new();
    buf.extend_from_slice(b"reftar");
    buf.extend_from_slice(&1u16.to_le_bytes());
    buf.extend_from_slice(&0u32.to_le_bytes());
    assert_eq!(ArchiveHeader::read(&buf), Err(ArchiveError::FormatMagic));
}

#[test]
fn file_type_bytes_roundtrip() {
    for (b, t) in [
        (b'0', FileType::Regular),
        (b'1', FileType::HardLink),
        (b'2', FileType::SymbolicLink),
        (b'3', FileType::CharDevice),
        (b'4', FileType::BlockDevice),
        (b'5', FileType::Directory),
        (b'6', FileType::FIFO),
    ] {
        assert_eq!(FileType::from_byte(b), Ok(t));
        assert_eq!(t.to_byte(), b);
    }
    assert_eq!(FileType::from_byte(b'9'), Err(ArchiveError::UnknownFileType(b'9')));
}

#[test]
fn extent_type_bytes_roundtrip() {
    for (b, t) in [
        (b'D', ExtentType::Data),
        (b'S', ExtentType::Sparse),
        (b'R', ExtentType::Reference),
    ] {
        assert_eq!(ExtentType::from_byte(b), Ok(t));
        assert_eq!(t.to_byte(), b);
    }
    assert_eq!(ExtentType::from_byte(b'X'), Err(ArchiveError::UnknownExtentType(b'X')));
}

#[test]
fn extent_header_roundtrip() {
    let eh = ExtentHeader {
        extent_id: 42,
        length_in_blocks: 1,
        extent_type: ExtentType::Data,
        source_extent_start: 8192,
        checksum: 0xdeadbeef,
    };
    let mut buf = Vec::new();
    eh.write(&mut buf, 4096);
    assert_eq!(buf.len(), 4096);
    let (back, consumed) = ExtentHeader::read(&buf, 0, 4096).unwrap();
    assert_eq!(back, eh);
    assert_eq!(consumed, 4096);
}

#[test]
fn extent_header_rejects_unknown_type() {
    let eh = ExtentHeader {
        extent_id: 1,
        length_in_blocks: 1,
        extent_type: ExtentType::Sparse,
        source_extent_start: 0,
        checksum: 7,
    };
    let mut buf = Vec::new();
    eh.write(&mut buf, 4096);
    buf[12] = b'Q';
    assert_eq!(
        ExtentHeader::read(&buf, 0, 4096),
        Err(ArchiveError::UnknownExtentType(b'Q'))
    );
}

fn sample_file_header(inline: Vec<u8>) -> FileHeader {
    FileHeader {
        file_size: inline.len() as u128,
        file_type: FileType::Regular,
        uid: 1000,
        gid: 1000,
        device_major: 0,
        device_minor: 0,
        access_time: 1111,
        modify_time: 2222,
        creation_time: 3333,
        username: b"alice".to_vec(),
        groupname: b"users".to_vec(),
        file_path: b"docs".to_vec(),
        file_name: b"hello.txt".to_vec(),
        link_name: Vec::new(),
        extended_permissions: Vec::new(),
        source_filesystem_type: b"ext4".to_vec(),
        source_filesystem_id: 99,
        inline_data: inline,
    }
}

#[test]
fn file_header_roundtrip_with_inline_data() {
    let fh = sample_file_header(b"Hello, world!".to_vec());
    let mut buf = Vec::new();
    fh.write(&mut buf, 4096);
    assert_eq!(buf.len(), 4096);
    let (back, consumed) = FileHeader::read(&buf, 0, 4096).unwrap();
    assert_eq!(back, fh);
    assert_eq!(consumed, 4096);
}

#[test]
fn file_header_roundtrip_empty_file() {
    let fh = sample_file_header(Vec::new());
    let mut buf = Vec::new();
    fh.write(&mut buf, 4096);
    let (back, _) = FileHeader::read(&buf, 0, 4096).unwrap();
    assert_eq!(back, fh);
}

#[test]
fn file_header_rejects_unknown_file_type() {
    let fh = sample_file_header(Vec::new());
    let mut buf = Vec::new();
    fh.write(&mut buf, 4096);
    buf[20] = b'z';
    assert_eq!(
        FileHeader::read(&buf, 0, 4096),
        Err(ArchiveError::UnknownFileType(b'z'))
    );
}

#[test]
fn file_header_rejects_bad_magic() {
    let fh = sample_file_header(Vec::new());
    let mut buf = Vec::new();
    fh.write(&mut buf, 4096);
    buf[0] = b'G';
    assert_eq!(FileHeader::read(&buf, 0, 4096), Err(ArchiveError::FormatMagic));
}

#[test]
fn file_header_calculate_size_counts_every_field() {
    let fh = sample_file_header(b"abc".to_vec());
    // fixed fields 237, plus the six variable fields and the inline data
    let expected = 237 + 5 + 5 + 4 + 9 + 0 + 0 + 3;
    assert_eq!(fh.calculate_size(), expected);
}

#[test]
fn file_header_rejects_invalid_utf8_name() {
    let fh = sample_file_header(Vec::new());
    let mut buf = Vec::new();
    fh.write(&mut buf, 4096);
    // the username bytes follow their four-byte length prefix at offset 77
    buf[81] = 0xff;
    assert_eq!(FileHeader::read(&buf, 0, 4096), Err(ArchiveError::Utf8Error));
}

#[test]
fn is_utf8_accepts_and_rejects() {
    assert!(reftar::format::is_utf8(&b"plain ascii".to_vec()));
    assert!(reftar::format::is_utf8(&"päth/ütf8-\u{1F600}".as_bytes().to_vec()));
    assert!(!reftar::format::is_utf8(&vec![0x61, 0xff, 0x62]));
    assert!(!reftar::format::is_utf8(&vec![0xc2]));
    assert!(!reftar::format::is_utf8(&vec![0xed, 0xa0, 0x80]));
    assert!(!reftar::format::is_utf8(&vec![0xc0, 0xaf]));
}
