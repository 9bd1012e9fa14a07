use std::io::Write;

use archer_package_manager::archive::Archive;
use archer_package_manager::error::APMErrorType;
use archer_package_manager::zip_manipulation::add_directory_to_archive;
use archer_package_manager::zip_manipulation::add_file_to_archive;
use archer_package_manager::zip_manipulation::begin_write;
use archer_package_manager::zip_manipulation::extract_file_from_archive;
use archer_package_manager::zip_manipulation::finish_archive;
use archer_package_manager::zip_manipulation::load_archive;
use archer_package_manager::zip_manipulation::open_from_bytes;
use archer_package_manager::zip_manipulation::read_archive_from_bytes;
use archer_package_manager::zip_manipulation::write_archive;

fn sample_bytes() -> Vec<u8> {
    let mut writer = begin_write();
    add_directory_to_archive(&mut writer, "docs").unwrap();
    add_file_to_archive(&mut writer, "docs/readme.txt", b"hello").unwrap();
    add_file_to_archive(&mut writer, "empty.bin", b"").unwrap();
    finish_archive(&mut writer).unwrap()
}

#[test]
fn written_entries_are_read_back_by_name() {
    let mut archive = read_archive_from_bytes(sample_bytes()).unwrap();
    assert_eq!(archive.len(), 3);
    assert_eq!(
        extract_file_from_archive(&mut archive, "docs/readme.txt").unwrap(),
        b"hello".to_vec()
    );
    assert_eq!(extract_file_from_archive(&mut archive, "empty.bin").unwrap(), Vec::<u8>::new());
    assert_eq!(extract_file_from_archive(&mut archive, "docs/").unwrap(), Vec::<u8>::new());
}

#[test]
fn missing_entry_is_a_find_error() {
    let mut archive = read_archive_from_bytes(sample_bytes()).unwrap();
    let e = extract_file_from_archive(&mut archive, "nothing").unwrap_err();
    assert_eq!(e.err_type, APMErrorType::ZIPArchiveFileFindError);
    let e = extract_file_from_archive(&mut archive, "docs").unwrap_err();
    assert_eq!(e.err_type, APMErrorType::ZIPArchiveFileFindError);
}

#[test]
fn bytes_that_are_no_archive_are_refused() {
    let e = read_archive_from_bytes(b"this is not a zip file".to_vec()).err().unwrap();
    assert_eq!(e.err_type, APMErrorType::ZIPArchiveOpenError);
    let e = open_from_bytes(Vec::new()).err().unwrap();
    assert_eq!(e.err_type, APMErrorType::ZIPArchiveOpenError);
}

#[test]
fn loading_keeps_names_order_and_content() {
    let mut zip = read_archive_from_bytes(sample_bytes()).unwrap();
    let archive = load_archive(&mut zip).unwrap();
    assert_eq!(
        archive.list_entries(),
        vec![
            ("docs/".to_string(), true),
            ("docs/readme.txt".to_string(), false),
            ("empty.bin".to_string(), false),
        ]
    );
    assert_eq!(archive.read_entry("docs/readme.txt").unwrap(), b"hello".to_vec());
}

#[test]
fn an_archive_survives_writing_and_reading() {
    let mut archive = Archive::new();
    archive.add_directory("a").unwrap();
    archive.add_file("a/one", vec![1, 2, 3]).unwrap();
    archive.add_file("two", vec![0; 5000]).unwrap();
    let bytes = write_archive(&archive).unwrap();
    let back = open_from_bytes(bytes).unwrap();
    assert_eq!(back.list_entries(), archive.list_entries());
    assert_eq!(back.read_entry("a/one").unwrap(), vec![1, 2, 3]);
    assert_eq!(back.read_entry("two").unwrap(), vec![0; 5000]);
    assert_eq!(back.read_entry("a/").unwrap(), Vec::<u8>::new());
}

#[test]
fn writing_is_deterministic() {
    assert_eq!(sample_bytes(), sample_bytes());
}

#[test]
fn duplicate_names_in_a_container_are_refused_on_loading() {
    let mut writer = zip::ZipWriter::new(std::io::Cursor::new(Vec::new()));
    writer.start_file("same", zip::write::FileOptions::default()).unwrap();
    writer.write_all(b"first").unwrap();
    writer.start_file("same", zip::write::FileOptions::default()).unwrap();
    writer.write_all(b"second").unwrap();
    let bytes = writer.finish().unwrap().into_inner();
    let mut zip = read_archive_from_bytes(bytes.clone()).unwrap();
    assert_eq!(extract_file_from_archive(&mut zip, "same").unwrap(), b"second".to_vec());
    let e = open_from_bytes(bytes).err().unwrap();
    assert_eq!(e.err_type, APMErrorType::ZIPArchiveOpenError);
}

#[test]
fn a_writer_refuses_a_name_that_is_taken() {
    let mut writer = begin_write();
    add_file_to_archive(&mut writer, "same", b"first").unwrap();
    add_directory_to_archive(&mut writer, "dir").unwrap();
    let e = add_file_to_archive(&mut writer, "same", b"second").err().unwrap();
    assert_eq!(e.err_type, APMErrorType::ZIPStartFileError);
    let e = add_file_to_archive(&mut writer, "dir/", b"").err().unwrap();
    assert_eq!(e.err_type, APMErrorType::ZIPStartFileError);
    let e = add_directory_to_archive(&mut writer, "dir/").err().unwrap();
    assert_eq!(e.err_type, APMErrorType::ZIPAddDirectoryError);
    add_file_to_archive(&mut writer, "other", b"third").unwrap();
    let archive = open_from_bytes(finish_archive(&mut writer).unwrap()).unwrap();
    assert_eq!(
        archive.list_entries(),
        vec![
            ("same".to_string(), false),
            ("dir/".to_string(), true),
            ("other".to_string(), false),
        ]
    );
    assert_eq!(archive.read_entry("same").unwrap(), b"first".to_vec());
}

#[test]
fn a_corrupted_entry_is_a_read_error() {
    let mut writer = begin_write();
    add_file_to_archive(&mut writer, "data", &[7u8; 64]).unwrap();
    add_file_to_archive(&mut writer, "good", b"fine").unwrap();
    let mut bytes = finish_archive(&mut writer).unwrap();
    // The checksum of an entry stands 16 bytes into its record in the
    // central directory; the first such record is that of "data".
    let central = bytes.windows(4).position(|w| w == [0x50, 0x4b, 0x01, 0x02]).unwrap();
    bytes[central + 16] ^= 0xff;
    let mut zip = read_archive_from_bytes(bytes.clone()).unwrap();
    let e = extract_file_from_archive(&mut zip, "data").err().unwrap();
    assert_eq!(e.err_type, APMErrorType::ZIPFileReadError);
    assert_eq!(extract_file_from_archive(&mut zip, "good").unwrap(), b"fine".to_vec());
    let e = load_archive(&mut zip).err().unwrap();
    assert_eq!(e.err_type, APMErrorType::ZIPFileReadError);
    let e = open_from_bytes(bytes).err().unwrap();
    assert_eq!(e.err_type, APMErrorType::ZIPFileReadError);
}

#[test]
fn failures_of_the_container_carry_its_words() {
    let e = read_archive_from_bytes(b"no archive".to_vec()).err().unwrap();
    assert!(!e.msg.is_empty());
    let mut zip = read_archive_from_bytes(sample_bytes()).unwrap();
    let e = extract_file_from_archive(&mut zip, "nothing").err().unwrap();
    assert_eq!(e.msg, "specified file not found in archive");
}

#[test]
fn a_finished_writer_takes_no_more() {
    let mut writer = begin_write();
    add_file_to_archive(&mut writer, "a", b"1").unwrap();
    finish_archive(&mut writer).unwrap();
    let e = add_file_to_archive(&mut writer, "b", b"2").err().unwrap();
    assert_eq!(e.err_type, APMErrorType::ZIPStartFileError);
    let e = add_directory_to_archive(&mut writer, "d").err().unwrap();
    assert_eq!(e.err_type, APMErrorType::ZIPAddDirectoryError);
    let e = finish_archive(&mut writer).err().unwrap();
    assert_eq!(e.err_type, APMErrorType::ZIPFinishError);
}

#[test]
fn a_file_keeps_a_name_that_ends_in_a_separator() {
    let mut writer = begin_write();
    add_file_to_archive(&mut writer, "odd\\", b"content").unwrap();
    add_directory_to_archive(&mut writer, "dir\\").unwrap();
    let bytes = finish_archive(&mut writer).unwrap();
    let mut zip = read_archive_from_bytes(bytes.clone()).unwrap();
    assert_eq!(extract_file_from_archive(&mut zip, "odd\\").unwrap(), b"content".to_vec());
    let archive = open_from_bytes(bytes).unwrap();
    assert_eq!(
        archive.list_entries(),
        vec![("odd\\".to_string(), false), ("dir\\".to_string(), true)]
    );
    assert_eq!(archive.read_entry("odd\\").unwrap(), b"content".to_vec());
}

#[test]
fn a_file_and_a_directory_of_one_name_are_written_differently() {
    let mut files = begin_write();
    add_file_to_archive(&mut files, "x/", b"").unwrap();
    let mut directories = begin_write();
    add_directory_to_archive(&mut directories, "x").unwrap();
    assert_ne!(finish_archive(&mut files).unwrap(), finish_archive(&mut directories).unwrap());
}

#[test]
fn directories_are_stored_with_a_separator() {
    let mut writer = begin_write();
    add_directory_to_archive(&mut writer, "plain").unwrap();
    add_directory_to_archive(&mut writer, "slash/").unwrap();
    add_directory_to_archive(&mut writer, "back\\").unwrap();
    let archive = open_from_bytes(finish_archive(&mut writer).unwrap()).unwrap();
    assert_eq!(
        archive.list_entries(),
        vec![
            ("plain/".to_string(), true),
            ("slash/".to_string(), true),
            ("back\\".to_string(), true),
        ]
    );
}

fn le16(v: u16) -> [u8; 2] {
    v.to_le_bytes()
}

fn le32(v: u32) -> [u8; 4] {
    v.to_le_bytes()
}

/// One stored entry "a" with content "x" whose extra field names an AES
/// mode while the entry is not marked as encrypted.
fn container_with_stray_aes_field() -> Vec<u8> {
    let extra: Vec<u8> =
        [le16(0x9901), le16(7), le16(2), le16(0x4541)].concat().into_iter().chain([3u8, 0, 0]).collect();
    let crc: u32 = 0x8cdc1683;
    let mut bytes: Vec<u8> = Vec::new();
    bytes.extend(le32(0x04034b50));
    bytes.extend(le16(20));
    bytes.extend(le16(0));
    bytes.extend(le16(0));
    bytes.extend(le16(0));
    bytes.extend(le16(0x21));
    bytes.extend(le32(crc));
    bytes.extend(le32(1));
    bytes.extend(le32(1));
    bytes.extend(le16(1));
    bytes.extend(le16(0));
    bytes.extend(b"a");
    bytes.extend(b"x");
    let central = bytes.len() as u32;
    bytes.extend(le32(0x02014b50));
    bytes.extend(le16(20));
    bytes.extend(le16(20));
    bytes.extend(le16(0));
    bytes.extend(le16(0));
    bytes.extend(le16(0));
    bytes.extend(le16(0x21));
    bytes.extend(le32(crc));
    bytes.extend(le32(1));
    bytes.extend(le32(1));
    bytes.extend(le16(1));
    bytes.extend(le16(extra.len() as u16));
    bytes.extend(le16(0));
    bytes.extend(le16(0));
    bytes.extend(le16(0));
    bytes.extend(le32(0));
    bytes.extend(le32(0));
    bytes.extend(b"a");
    bytes.extend(&extra);
    let size = bytes.len() as u32 - central;
    bytes.extend(le32(0x06054b50));
    bytes.extend(le16(0));
    bytes.extend(le16(0));
    bytes.extend(le16(1));
    bytes.extend(le16(1));
    bytes.extend(le32(size));
    bytes.extend(le32(central));
    bytes.extend(le16(0));
    bytes
}

#[test]
fn an_entry_that_asks_for_a_password_is_a_read_error() {
    let bytes = container_with_stray_aes_field();
    let mut zip = read_archive_from_bytes(bytes.clone()).unwrap();
    assert_eq!(zip.len(), 1);
    let e = extract_file_from_archive(&mut zip, "a").err().unwrap();
    assert_eq!(e.err_type, APMErrorType::ZIPFileReadError);
    let e = extract_file_from_archive(&mut zip, "b").err().unwrap();
    assert_eq!(e.err_type, APMErrorType::ZIPArchiveFileFindError);
    let e = load_archive(&mut zip).err().unwrap();
    assert_eq!(e.err_type, APMErrorType::ZIPFileReadError);
    let e = open_from_bytes(bytes).err().unwrap();
    assert_eq!(e.err_type, APMErrorType::ZIPFileReadError);
}
