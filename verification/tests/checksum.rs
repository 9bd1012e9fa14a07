use archer_package_manager::archive::Archive;
use archer_package_manager::checksum::add_checksum;
use archer_package_manager::checksum::checksum_entry_name;
use archer_package_manager::checksum::compute_checksum;
use archer_package_manager::checksum::has_checksum;
use archer_package_manager::checksum::remove_checksum;
use archer_package_manager::checksum::verify_checksum;
use archer_package_manager::error::APMErrorType;
use archer_package_manager::zip_manipulation::open_from_bytes;
use archer_package_manager::zip_manipulation::write_archive;

fn sample() -> Archive {
    let mut a = Archive::new();
    a.add_directory("docs").unwrap();
    a.add_file("docs/b.txt", b"bee".to_vec()).unwrap();
    a.add_file("a.txt", b"ay".to_vec()).unwrap();
    a
}

#[test]
fn digest_of_known_inputs() {
    let empty = Archive::new();
    assert_eq!(compute_checksum(&empty), 0xcbf29ce484222325u64.to_le_bytes().to_vec());
    let mut one = Archive::new();
    one.add_file("a", Vec::new()).unwrap();
    assert_eq!(compute_checksum(&one), 0xaf63dc4c8601ec8cu64.to_le_bytes().to_vec());
    let mut split = Archive::new();
    split.add_file("foo", b"bar".to_vec()).unwrap();
    assert_eq!(compute_checksum(&split), 0x85944171f73967e8u64.to_le_bytes().to_vec());
}

#[test]
fn digest_takes_entries_in_the_order_of_their_names() {
    let mut ab = Archive::new();
    ab.add_file("a", b"1".to_vec()).unwrap();
    ab.add_file("b", b"2".to_vec()).unwrap();
    let mut ba = Archive::new();
    ba.add_file("b", b"2".to_vec()).unwrap();
    ba.add_file("a", b"1".to_vec()).unwrap();
    assert_eq!(compute_checksum(&ab), compute_checksum(&ba));
    let mut joined = Archive::new();
    joined.add_file("a1b2", Vec::new()).unwrap();
    assert_eq!(compute_checksum(&ab), compute_checksum(&joined));
    let mut other = Archive::new();
    other.add_file("a", b"2".to_vec()).unwrap();
    other.add_file("b", b"1".to_vec()).unwrap();
    assert_ne!(compute_checksum(&ab), compute_checksum(&other));
}

#[test]
fn names_are_ordered_by_character() {
    let mut x = Archive::new();
    x.add_file("b", Vec::new()).unwrap();
    x.add_file("ab", Vec::new()).unwrap();
    x.add_file("a", Vec::new()).unwrap();
    x.add_file("é", Vec::new()).unwrap();
    let mut y = Archive::new();
    y.add_file("aabbé", Vec::new()).unwrap();
    assert_eq!(compute_checksum(&x), compute_checksum(&y));
}

#[test]
fn add_then_verify() {
    let a = sample();
    assert!(!has_checksum(&a));
    assert!(!verify_checksum(&a));
    let sealed = add_checksum(&a, false).unwrap();
    assert!(has_checksum(&sealed));
    assert!(verify_checksum(&sealed));
    assert_eq!(sealed.len(), a.len() + 1);
    assert_eq!(sealed.list_entries().last().unwrap().0, checksum_entry_name());
    assert_eq!(sealed.read_entry(checksum_entry_name()).unwrap(), compute_checksum(&a));
    assert_eq!(compute_checksum(&sealed), compute_checksum(&a));
}

#[test]
fn adding_twice_needs_consent() {
    let sealed = add_checksum(&sample(), false).unwrap();
    let e = add_checksum(&sealed, false).err().unwrap();
    assert_eq!(e.err_type, APMErrorType::ChecksumMarkerExistsError);
    let again = add_checksum(&sealed, true).unwrap();
    assert_eq!(again.list_entries(), sealed.list_entries());
    assert!(verify_checksum(&again));
    let fresh = add_checksum(&sample(), true).unwrap();
    assert!(verify_checksum(&fresh));
}

#[test]
fn remove_then_add_then_verify() {
    let sealed = add_checksum(&sample(), false).unwrap();
    let bare = remove_checksum(&sealed).unwrap();
    assert!(!has_checksum(&bare));
    assert_eq!(bare.list_entries(), sample().list_entries());
    let e = remove_checksum(&bare).err().unwrap();
    assert_eq!(e.err_type, APMErrorType::ChecksumMarkerNotFoundError);
    let resealed = add_checksum(&bare, false).unwrap();
    assert!(verify_checksum(&resealed));
}

#[test]
fn a_changed_archive_fails_verification() {
    let mut sealed = add_checksum(&sample(), false).unwrap();
    sealed.put_file("a.txt", b"changed".to_vec());
    assert!(!verify_checksum(&sealed));
    let mut sealed = add_checksum(&sample(), false).unwrap();
    sealed.add_file("new", Vec::new()).unwrap();
    assert!(!verify_checksum(&sealed));
    let mut sealed = add_checksum(&sample(), false).unwrap();
    sealed.put_file(checksum_entry_name(), vec![0; 8]);
    assert!(!verify_checksum(&sealed));
}

#[test]
fn a_checksum_survives_writing_and_reading() {
    let sealed = add_checksum(&sample(), false).unwrap();
    let back = open_from_bytes(write_archive(&sealed).unwrap()).unwrap();
    assert!(verify_checksum(&back));
    assert_eq!(back.list_entries(), sealed.list_entries());
}
