use archer_package_manager::archive::names_directory;
use archer_package_manager::archive::Archive;
use archer_package_manager::archive::ArchiveEntry;
use archer_package_manager::cli::ExportDataFormat;
use archer_package_manager::cli::InformationOperation;
use archer_package_manager::error::APMErrorType;
use archer_package_manager::record::Record;
use archer_package_manager::text::contains;
use archer_package_manager::text::name_le;

fn entry(name: &str, content: &[u8]) -> ArchiveEntry {
    ArchiveEntry::new(name.to_string(), false, content.to_vec())
}

fn directory(name: &str, content: &[u8]) -> ArchiveEntry {
    ArchiveEntry::new(name.to_string(), true, content.to_vec())
}

#[test]
fn directory_names_end_in_a_separator() {
    assert!(names_directory("a/"));
    assert!(names_directory("a\\"));
    assert!(names_directory("/"));
    assert!(!names_directory(""));
    assert!(!names_directory("a/b"));
    assert!(directory("d/", b"").is_directory);
    assert!(!entry("d/", b"").is_directory);
}

#[test]
fn names_are_unique() {
    let mut a = Archive::new();
    a.add_directory("d").unwrap();
    assert_eq!(a.add_directory("d/").err().unwrap().err_type, APMErrorType::ZIPAddDirectoryError);
    a.add_directory("e\\").unwrap();
    a.add_file("f", vec![1]).unwrap();
    assert_eq!(a.add_file("f", vec![2]).err().unwrap().err_type, APMErrorType::ZIPStartFileError);
    a.add_file("g\\", vec![9]).unwrap();
    assert_eq!(
        a.list_entries(),
        vec![
            ("d/".to_string(), true),
            ("e\\".to_string(), true),
            ("f".to_string(), false),
            ("g\\".to_string(), false),
        ]
    );
    assert_eq!(a.read_entry("g\\").unwrap(), vec![9]);
    assert_eq!(a.read_entry("f").unwrap(), vec![1]);
    assert_eq!(a.find("f"), Some(2));
    assert_eq!(a.find("d"), None);
    assert_eq!(a.read_entry("d").err().unwrap().err_type, APMErrorType::ZIPArchiveFileFindError);
}

#[test]
fn put_replaces_or_appends_and_remove_takes_out() {
    let mut a = Archive::new();
    a.add_file("x", vec![1]).unwrap();
    a.add_file("y", vec![2]).unwrap();
    a.put_file("x", vec![3]);
    a.put_file("z", vec![4]);
    assert_eq!(a.list_entries().into_iter().map(|e| e.0).collect::<Vec<_>>(), vec!["x", "y", "z"]);
    assert_eq!(a.read_entry("x").unwrap(), vec![3]);
    assert!(a.remove("y"));
    assert!(!a.remove("y"));
    assert_eq!(a.list_entries().into_iter().map(|e| e.0).collect::<Vec<_>>(), vec!["x", "z"]);
    let copy = a.duplicate();
    assert_eq!(copy.list_entries(), a.list_entries());
    assert_eq!(copy.entry(1).content, vec![4]);
}

#[test]
fn from_entries_checks_the_invariant() {
    let a = Archive::from_entries(vec![
        entry("a", b"1"),
        directory("d/", b""),
        entry("f\\", b"content"),
        entry("g/", b""),
    ])
    .unwrap();
    assert_eq!(a.len(), 4);
    assert_eq!(
        a.list_entries().into_iter().map(|e| e.1).collect::<Vec<_>>(),
        vec![false, true, false, false]
    );
    let e = Archive::from_entries(vec![entry("a", b"1"), entry("a", b"2")]).err().unwrap();
    assert_eq!(e.err_type, APMErrorType::ZIPArchiveOpenError);
    let e = Archive::from_entries(vec![entry("d/", b""), directory("d/", b"")]).err().unwrap();
    assert_eq!(e.err_type, APMErrorType::ZIPArchiveOpenError);
    let e = Archive::from_entries(vec![directory("d/", b"content")]).err().unwrap();
    assert_eq!(e.err_type, APMErrorType::ZIPArchiveOpenError);
    let e = Archive::from_entries(vec![directory("d", b"")]).err().unwrap();
    assert_eq!(e.err_type, APMErrorType::ZIPArchiveOpenError);
    assert_eq!(Archive::from_entries(Vec::new()).unwrap().len(), 0);
}

#[test]
fn record_fields() {
    let mut r = Record::new();
    r.push("Name".to_string(), "A".to_string());
    r.push("Name".to_string(), "second".to_string());
    r.push("Desc".to_string(), "x".to_string());
    assert_eq!(r.len(), 3);
    assert_eq!(r.get("Name"), Some("A".to_string()));
    assert_eq!(r.get("name"), None);
    assert_eq!(r.position("Desc"), Some(2));
    assert!(r.set("Name", "B".to_string()));
    assert!(!r.set("Missing", "B".to_string()));
    assert_eq!(
        r.fields,
        vec![
            ("Name".to_string(), "B".to_string()),
            ("Name".to_string(), "second".to_string()),
            ("Desc".to_string(), "x".to_string()),
        ]
    );
    assert_eq!(r.duplicate().fields, r.fields);
}

#[test]
fn text_search_and_order() {
    assert!(contains("Access Controls", "Controls"));
    assert!(contains("Controls", "Controls"));
    assert!(contains("anything", ""));
    assert!(contains("", ""));
    assert!(!contains("Control", "Controls"));
    assert!(!contains("controls", "Controls"));
    assert!(contains("aab", "ab"));
    let c = |s: &str| s.chars().collect::<Vec<char>>();
    assert!(name_le(&c(""), &c("a")));
    assert!(name_le(&c("a"), &c("a")));
    assert!(name_le(&c("a"), &c("ab")));
    assert!(!name_le(&c("ab"), &c("a")));
    assert!(name_le(&c("ab"), &c("b")));
    assert!(name_le(&c("Z"), &c("a")));
    assert!(name_le(&c("z"), &c("é")));
    assert!(!name_le(&c("é"), &c("z")));
}

#[test]
fn export_formats() {
    assert_eq!(ExportDataFormat::default(), ExportDataFormat::Readable);
    assert_eq!(ExportDataFormat::Readable.to_string(), "Readable");
    assert_eq!(ExportDataFormat::JSON.to_string(), "JSON");
    assert_eq!(ExportDataFormat::XML.to_string(), "XML");
    assert_eq!(ExportDataFormat::TOML.to_string(), "TOML");
    let op = InformationOperation::Datafeeds {
        list_all: true,
        list_detailed: false,
        format: ExportDataFormat::default(),
    };
    assert_eq!(
        op,
        InformationOperation::Datafeeds {
            list_all: true,
            list_detailed: false,
            format: ExportDataFormat::Readable,
        }
    );
    assert_ne!(InformationOperation::Levels, InformationOperation::Solutions);
}
