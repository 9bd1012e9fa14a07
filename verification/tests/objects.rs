use archer_package_manager::archive::Archive;
use archer_package_manager::error::APMErrorType;
use archer_package_manager::objects::deserialize_collection;
use archer_package_manager::objects::load_object;
use archer_package_manager::objects::serialize_collection;
use archer_package_manager::objects::store_object;
use archer_package_manager::objects::PackageObject;
use archer_package_manager::record::Record;

fn record(fields: &[(&str, &str)]) -> Record {
    let mut r = Record::new();
    for (name, value) in fields {
        r.push(name.to_string(), value.to_string());
    }
    r
}

fn all_fields(records: &[Record]) -> Vec<Vec<(String, String)>> {
    records.iter().map(|r| r.fields.clone()).collect()
}

fn sample() -> Vec<Record> {
    vec![
        record(&[("Name", "Überblick"), ("Description", "")]),
        record(&[]),
        record(&[("Name", "B"), ("Name", "twice"), ("", "no name")]),
    ]
}

#[test]
fn encoding_of_a_small_collection() {
    let bytes = serialize_collection(&vec![record(&[("a", "bc")])]).unwrap();
    assert_eq!(
        bytes,
        vec![1, 0, 0, 0, 1, 0, 0, 0, 1, 0, 0, 0, b'a', 2, 0, 0, 0, b'b', b'c']
    );
    assert_eq!(serialize_collection(&Vec::new()).unwrap(), vec![0, 0, 0, 0]);
    let bytes = serialize_collection(&vec![record(&[("é", "")])]).unwrap();
    assert_eq!(bytes, vec![1, 0, 0, 0, 1, 0, 0, 0, 2, 0, 0, 0, 0xc3, 0xa9, 0, 0, 0, 0]);
}

#[test]
fn what_is_written_is_read_back() {
    let bytes = serialize_collection(&sample()).unwrap();
    let back = deserialize_collection(&bytes).unwrap();
    assert_eq!(all_fields(&back), all_fields(&sample()));
}

#[test]
fn malformed_bytes_are_refused() {
    let good = serialize_collection(&sample()).unwrap();
    for cut in 0..good.len() {
        let e = deserialize_collection(&good[..cut]).err().unwrap();
        assert_eq!(e.err_type, APMErrorType::DeserializationError);
    }
    let mut longer = good.clone();
    longer.push(0);
    assert_eq!(
        deserialize_collection(&longer).err().unwrap().err_type,
        APMErrorType::DeserializationError
    );
    let bad_text = vec![1, 0, 0, 0, 1, 0, 0, 0, 1, 0, 0, 0, 0xff, 0, 0, 0, 0];
    assert_eq!(
        deserialize_collection(&bad_text).err().unwrap().err_type,
        APMErrorType::DeserializationError
    );
    let huge_count = vec![0xff, 0xff, 0xff, 0xff];
    assert_eq!(
        deserialize_collection(&huge_count).err().unwrap().err_type,
        APMErrorType::DeserializationError
    );
}

#[test]
fn entry_names_are_distinct() {
    let all = [
        PackageObject::Applications,
        PackageObject::Datafeeds,
        PackageObject::Notifications,
        PackageObject::Solutions,
        PackageObject::Dashboards,
        PackageObject::Workspaces,
        PackageObject::DataDrivenEvents,
        PackageObject::Levels,
    ];
    for (i, a) in all.iter().enumerate() {
        for b in &all[i + 1..] {
            assert_ne!(a.entry_name(), b.entry_name());
        }
    }
    assert_eq!(PackageObject::Dashboards.entry_name(), "objects/dashboards");
}

#[test]
fn store_then_load() {
    let mut archive = Archive::new();
    archive.add_file("readme", b"hi".to_vec()).unwrap();
    let e = load_object(&archive, PackageObject::Dashboards).err().unwrap();
    assert_eq!(e.err_type, APMErrorType::ObjectEntryNotFoundError);
    let stored = store_object(&archive, PackageObject::Dashboards, &sample()).unwrap();
    assert_eq!(stored.len(), 2);
    assert_eq!(stored.read_entry("readme").unwrap(), b"hi".to_vec());
    let loaded = load_object(&stored, PackageObject::Dashboards).unwrap();
    assert_eq!(all_fields(&loaded), all_fields(&sample()));
    let e = load_object(&stored, PackageObject::Levels).err().unwrap();
    assert_eq!(e.err_type, APMErrorType::ObjectEntryNotFoundError);
}

#[test]
fn storing_replaces_in_place() {
    let mut archive = Archive::new();
    archive.add_file("first", Vec::new()).unwrap();
    let archive = store_object(&archive, PackageObject::Levels, &sample()).unwrap();
    let mut archive = archive;
    archive.add_file("last", Vec::new()).unwrap();
    let replaced =
        store_object(&archive, PackageObject::Levels, &vec![record(&[("k", "v")])]).unwrap();
    assert_eq!(
        replaced.list_entries().into_iter().map(|e| e.0).collect::<Vec<_>>(),
        vec!["first", "objects/levels", "last"]
    );
    let loaded = load_object(&replaced, PackageObject::Levels).unwrap();
    assert_eq!(all_fields(&loaded), vec![vec![("k".to_string(), "v".to_string())]]);
}

#[test]
fn an_entry_that_is_no_collection_is_refused() {
    let mut archive = Archive::new();
    archive.add_file("objects/solutions", b"<xml/>".to_vec()).unwrap();
    let e = load_object(&archive, PackageObject::Solutions).err().unwrap();
    assert_eq!(e.err_type, APMErrorType::DeserializationError);
}
