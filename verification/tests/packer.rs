use archer_package_manager::error::APMErrorType;
use archer_package_manager::packer::compress_directory;
use archer_package_manager::packer::pack_items;
use archer_package_manager::packer::stored_name_of;
use archer_package_manager::packer::WalkedItem;
use archer_package_manager::zip_manipulation::open_from_bytes;

fn dir(path: &str) -> WalkedItem {
    WalkedItem::Directory { path: path.to_string() }
}

fn file(path: &str, content: &[u8]) -> WalkedItem {
    WalkedItem::File { path: path.to_string(), content: content.to_vec() }
}

fn tree() -> Vec<WalkedItem> {
    vec![
        dir("pkg"),
        dir("pkg/sub"),
        file("pkg/sub/a.txt", b"alpha"),
        file("pkg/b.txt", b"beta"),
        dir("pkg/empty"),
        WalkedItem::Other { path: "pkg/socket".to_string() },
    ]
}

fn pair(a: &str, b: &str) -> (String, String) {
    (a.to_string(), b.to_string())
}

#[test]
fn stored_names() {
    assert_eq!(stored_name_of("pkg/sub/a.txt", "pkg", false), "sub/a.txt");
    assert_eq!(stored_name_of("pkg/sub/a.txt", "pkg/", false), "sub/a.txt");
    assert_eq!(stored_name_of("pkg//sub", "pkg", false), "sub");
    assert_eq!(stored_name_of("pkg/sub/a.txt", "pkg", true), "pkg/sub/a.txt");
    assert_eq!(stored_name_of("pkgs/a.txt", "pkg", false), "pkgs/a.txt");
    assert_eq!(stored_name_of("other/a.txt", "pkg", false), "other/a.txt");
    assert_eq!(stored_name_of("a.txt", "", false), "a.txt");
    assert_eq!(stored_name_of("pk", "pkg", false), "pk");
    assert_eq!(stored_name_of("./d/é/x", "./d", false), "é/x");
}

#[test]
fn packing_yields_one_entry_for_each_file_and_directory() {
    let (archive, manifest) = pack_items("pkg", &tree(), true, false).unwrap();
    assert_eq!(
        archive.list_entries(),
        vec![
            ("sub/".to_string(), true),
            ("sub/a.txt".to_string(), false),
            ("b.txt".to_string(), false),
            ("empty/".to_string(), true),
        ]
    );
    assert_eq!(archive.read_entry("sub/a.txt").unwrap(), b"alpha".to_vec());
    assert_eq!(
        manifest.unwrap(),
        vec![
            pair("pkg/sub", "sub"),
            pair("pkg/sub/a.txt", "sub/a.txt"),
            pair("pkg/b.txt", "b.txt"),
            pair("pkg/empty", "empty"),
        ]
    );
}

#[test]
fn full_paths_are_kept_on_request() {
    let (archive, manifest) = pack_items("pkg", &tree(), true, true).unwrap();
    assert_eq!(
        archive.list_entries().into_iter().map(|e| e.0).collect::<Vec<_>>(),
        vec!["pkg/sub/", "pkg/sub/a.txt", "pkg/b.txt", "pkg/empty/"]
    );
    assert_eq!(manifest.unwrap()[1], pair("pkg/sub/a.txt", "pkg/sub/a.txt"));
}

#[test]
fn no_manifest_unless_asked_for() {
    let (_, manifest) = pack_items("pkg", &tree(), false, false).unwrap();
    assert!(manifest.is_none());
    let (_, manifest) = pack_items("pkg", &vec![dir("pkg")], true, false).unwrap();
    assert_eq!(manifest, Some(Vec::new()));
}

#[test]
fn compressed_tree_is_read_back() {
    let (bytes, manifest) = compress_directory("pkg", &tree(), true, false).unwrap();
    assert_eq!(manifest.unwrap().len(), 4);
    let archive = open_from_bytes(bytes).unwrap();
    assert_eq!(archive.len(), 4);
    assert_eq!(archive.read_entry("b.txt").unwrap(), b"beta".to_vec());
    assert_eq!(archive.read_entry("sub/a.txt").unwrap(), b"alpha".to_vec());
    assert!(archive.contains("empty/"));
}

#[test]
fn a_symlink_ends_the_packing() {
    let mut items = tree();
    items.push(WalkedItem::Symlink { path: "pkg/link".to_string(), file_name: "link".to_string() });
    items.push(file("pkg/later", b""));
    let e = compress_directory("pkg", &items, true, false).err().unwrap();
    assert_eq!(e.err_type, APMErrorType::SymlinkFoundError);
    assert_eq!(e.msg, "Found symlink at path link\nSymlinks cannot be compressed.");
    let e = pack_items("pkg", &items, false, true).err().unwrap();
    assert_eq!(e.err_type, APMErrorType::SymlinkFoundError);
}

#[test]
fn the_first_failure_decides() {
    let items = vec![
        dir("pkg"),
        WalkedItem::UnreadableFile { path: "pkg/x".to_string(), detail: "denied".to_string() },
        WalkedItem::Symlink { path: "pkg/link".to_string(), file_name: "link".to_string() },
    ];
    let e = compress_directory("pkg", &items, false, false).err().unwrap();
    assert_eq!(e.err_type, APMErrorType::FileOpenError);
    assert_eq!(e.msg, "denied\nFile:pkg/x");
    let items = vec![
        WalkedItem::Failure { detail: "loop".to_string() },
        WalkedItem::Symlink { path: "pkg/link".to_string(), file_name: "link".to_string() },
    ];
    let e = compress_directory("pkg", &items, false, false).err().unwrap();
    assert_eq!(e.err_type, APMErrorType::WalkdirError);
    assert_eq!(e.msg, "loop");
}

#[test]
fn a_stored_name_is_never_written_twice() {
    let items = vec![file("pkg/a", b"1"), file("pkg//a", b"2")];
    let e = compress_directory("pkg", &items, false, false).err().unwrap();
    assert_eq!(e.err_type, APMErrorType::ZIPStartFileError);
    let items = vec![dir("pkg/a"), dir("pkg/a/")];
    let e = compress_directory("pkg", &items, false, false).err().unwrap();
    assert_eq!(e.err_type, APMErrorType::ZIPAddDirectoryError);
}

#[test]
fn the_root_is_left_out_whatever_it_is() {
    let items = vec![WalkedItem::Symlink { path: "pkg".to_string(), file_name: "pkg".to_string() }];
    let (archive, _) = pack_items("pkg", &items, false, false).unwrap();
    assert_eq!(archive.len(), 0);
    let (archive, _) = pack_items("one.txt", &vec![file("one.txt", b"x")], false, false).unwrap();
    assert_eq!(archive.len(), 0);
}

#[test]
fn a_file_whose_name_ends_in_a_backslash_is_packed() {
    let mut items = vec![dir("pkg"), file("pkg/odd\\", b"kept"), dir("pkg/d")];
    let (bytes, manifest) = compress_directory("pkg", &items, true, false).unwrap();
    items.push(WalkedItem::Symlink { path: "pkg/link".to_string(), file_name: "link".to_string() });
    let e = compress_directory("pkg", &items, true, false).err().unwrap();
    assert_eq!(e.err_type, APMErrorType::SymlinkFoundError);
    assert_eq!(manifest.unwrap(), vec![pair("pkg/odd\\", "odd\\"), pair("pkg/d", "d")]);
    let archive = open_from_bytes(bytes).unwrap();
    assert_eq!(
        archive.list_entries(),
        vec![("odd\\".to_string(), false), ("d/".to_string(), true)]
    );
    assert_eq!(archive.read_entry("odd\\").unwrap(), b"kept".to_vec());
}

#[test]
fn a_file_that_fails_while_it_is_read_is_a_copy_error() {
    let items = vec![
        file("pkg/a", b"1"),
        WalkedItem::FailedRead { path: "pkg/b".to_string(), detail: "cut short".to_string() },
    ];
    let e = compress_directory("pkg", &items, false, false).err().unwrap();
    assert_eq!(e.err_type, APMErrorType::ZIPFileCopyError);
    assert_eq!(e.msg, "cut short");
}
