use fstree::utils::{format_permissions, format_size};

#[test]
fn test_format_size() {
    assert_eq!(format_size(500), "500 B");
    assert_eq!(format_size(1024), "1.0 KiB");
    assert_eq!(format_size(1536), "1.5 KiB");
    let mib = 1024 * 1024;
    assert_eq!(format_size(mib), "1.0 MiB");
    assert_eq!(format_size(mib + mib / 2), "1.5 MiB");
    let gib = mib * 1024;
    assert_eq!(format_size(gib), "1.0 GiB");
}

#[test]
fn test_format_permissions() {
    let mode = 0o755;
    assert_eq!(format_permissions(mode), "rwxr-xr-x");
    let mode_read = 0o644;
    assert_eq!(format_permissions(mode_read), "rw-r--r--");
    let mode_user_only = 0o700;
    assert_eq!(format_permissions(mode_user_only), "rwx------");
}

#[test]
fn size_edges() {
    assert_eq!(format_size(0), "0 B");
    assert_eq!(format_size(1023), "1023 B");
    assert_eq!(format_size(1280), "1.2 KiB");
    assert_eq!(format_size(1331), "1.3 KiB");
    assert_eq!(format_size(1048575), "1024.0 KiB");
    assert_eq!(format_size(1024u64 * 1024 * 1024 * 1024), "1.0 TiB");
    assert_eq!(format_size(u64::MAX), "16777216.0 TiB");
}

#[test]
fn permission_edges() {
    assert_eq!(format_permissions(0), "---------");
    assert_eq!(format_permissions(0o777), "rwxrwxrwx");
    assert_eq!(format_permissions(0o100644), "rw-r--r--");
}
