use fatty::listing::{file_kind, filetype_to_str, FileKind, Mode};

#[test]
fn permission_strings() {
    assert_eq!(Mode(0o100644).to_string(), "-rw-r--r--");
    assert_eq!(Mode(0o040755).to_string(), "drwxr-xr-x");
    assert_eq!(Mode(0o120777).to_string(), "lrwxrwxrwx");
    assert_eq!(Mode(0o104755).to_string(), "-rwsr-xr-x");
    assert_eq!(Mode(0o104644).to_string(), "-rwSr--r--");
    assert_eq!(Mode(0o042770).to_string(), "drwxrws---");
    assert_eq!(Mode(0o041777).to_string(), "drwxrwxrwt");
    assert_eq!(Mode(0o041776).to_string(), "drwxrwxrwT");
    assert_eq!(Mode(0o020620).to_string(), "crw--w----");
    assert_eq!(Mode(0o060660).to_string(), "brw-rw----");
    assert_eq!(Mode(0o010600).to_string(), "prw-------");
    assert_eq!(Mode(0o140755).to_string(), "srwxr-xr-x");
    assert_eq!(Mode(0o000000).to_string(), "?---------");
}

#[test]
fn kinds_of_files() {
    assert_eq!(file_kind(0o100644), FileKind::RegularFile);
    assert_eq!(file_kind(0o040755), FileKind::Directory);
    assert_eq!(file_kind(0o120777), FileKind::Symlink);
    assert_eq!(file_kind(0o010644), FileKind::Fifo);
    assert_eq!(file_kind(0o140755), FileKind::Socket);
    assert_eq!(file_kind(0o020620), FileKind::CharacterDevice);
    assert_eq!(file_kind(0o060660), FileKind::BlockDevice);
    assert_eq!(file_kind(0o170000), FileKind::Unknown);
    assert_eq!(filetype_to_str(&FileKind::RegularFile), "file");
    assert_eq!(filetype_to_str(&FileKind::Directory), "dir");
    assert_eq!(filetype_to_str(&FileKind::BlockDevice), "blck");
    assert_eq!(filetype_to_str(&FileKind::Unknown), "?");
}
