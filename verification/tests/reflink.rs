use reftar::reflink::get_filesystem_type;
use reftar::reflink::same_filesystem;

#[test]
fn test_same_filesystem() {
    assert!(same_filesystem(5, 5));
}

#[test]
fn different_devices_are_different_filesystems() {
    assert!(!same_filesystem(5, 6));
}

#[test]
fn test_get_filesystem_type() {
    let fs_type = get_filesystem_type(0xEF53);
    assert!(!fs_type.is_empty());
}

#[test]
fn known_filesystem_magics_map_to_their_names() {
    assert_eq!(get_filesystem_type(0xEF53), b"ext4".to_vec());
    assert_eq!(get_filesystem_type(0x58465342), b"xfs".to_vec());
    assert_eq!(get_filesystem_type(0x9123683E), b"btrfs".to_vec());
    assert_eq!(get_filesystem_type(0x6969), b"nfs".to_vec());
    assert_eq!(get_filesystem_type(0x01021994), b"tmpfs".to_vec());
    assert_eq!(get_filesystem_type(0x12345), b"unknown".to_vec());
}
