use archer_package_manager::bulk_update::bulk_update;
use archer_package_manager::bulk_update::parse_filter;
use archer_package_manager::bulk_update::parse_template;
use archer_package_manager::bulk_update::split_list;
use archer_package_manager::bulk_update::FilterKind;
use archer_package_manager::bulk_update::Segment;
use archer_package_manager::error::APMErrorType;
use archer_package_manager::record::Record;

fn record(fields: &[(&str, &str)]) -> Record {
    let mut r = Record::new();
    for (name, value) in fields {
        r.push(name.to_string(), value.to_string());
    }
    r
}

fn fields(r: &Record) -> Vec<(String, String)> {
    r.fields.clone()
}

fn pairs(fields: &[(&str, &str)]) -> Vec<(String, String)> {
    fields.iter().map(|(n, v)| (n.to_string(), v.to_string())).collect()
}

fn strings(items: &[&str]) -> Vec<String> {
    items.iter().map(|s| s.to_string()).collect()
}

fn three() -> Vec<Record> {
    vec![
        record(&[("Name", "A"), ("Desc", "x")]),
        record(&[("Name", "B"), ("Desc", "y")]),
        record(&[("Name", "ACtrl"), ("Desc", "z")]),
    ]
}

#[test]
fn filtered_update_rewrites_only_the_matching_record() {
    let (out, log) = bulk_update(
        &three(),
        &strings(&["Desc"]),
        &strings(&["{Name}-updated"]),
        Some("{Name}*Ctrl"),
        false,
    )
    .unwrap();
    assert_eq!(out.len(), 3);
    assert_eq!(fields(&out[0]), pairs(&[("Name", "A"), ("Desc", "x")]));
    assert_eq!(fields(&out[1]), pairs(&[("Name", "B"), ("Desc", "y")]));
    assert_eq!(fields(&out[2]), pairs(&[("Name", "ACtrl"), ("Desc", "ACtrl-updated")]));
    assert_eq!(log.len(), 1);
    assert_eq!(log[0].record, 2);
    assert_eq!(log[0].key, "Desc");
    assert_eq!(log[0].old_value, "z");
    assert_eq!(log[0].new_value, "ACtrl-updated");
}

#[test]
fn dry_run_logs_the_same_and_changes_nothing() {
    let keys = strings(&["Desc", "Name"]);
    let values = strings(&["{Name}: *", "*!"]);
    let (dry, dry_log) = bulk_update(&three(), &keys, &values, Some("{Name}*A"), true).unwrap();
    let (wet, wet_log) = bulk_update(&three(), &keys, &values, Some("{Name}*A"), false).unwrap();
    for (d, original) in dry.iter().zip(three().iter()) {
        assert_eq!(fields(d), fields(original));
    }
    assert_eq!(dry_log.len(), wet_log.len());
    for (d, w) in dry_log.iter().zip(wet_log.iter()) {
        assert_eq!(
            (d.record, &d.key, &d.old_value, &d.new_value),
            (w.record, &w.key, &w.old_value, &w.new_value)
        );
    }
    assert_eq!(wet_log.len(), 4);
    assert_eq!(fields(&wet[0]), pairs(&[("Name", "A!"), ("Desc", "A: x")]));
    assert_eq!(fields(&wet[1]), pairs(&[("Name", "B"), ("Desc", "y")]));
    assert_eq!(fields(&wet[2]), pairs(&[("Name", "ACtrl!"), ("Desc", "ACtrl: z")]));
}

#[test]
fn templates_read_the_record_as_it_was() {
    let rs = vec![record(&[("a", "1"), ("b", "2")])];
    let (out, _) =
        bulk_update(&rs, &strings(&["a", "b"]), &strings(&["{b}", "{a}"]), None, false).unwrap();
    assert_eq!(fields(&out[0]), pairs(&[("a", "2"), ("b", "1")]));
}

#[test]
fn contains_filter_and_equals_filter() {
    let rs = vec![
        record(&[("Name", "Controls")]),
        record(&[("Name", "Access Controls Plan")]),
        record(&[("Name", "controls")]),
        record(&[("Title", "Controls")]),
    ];
    let keys = strings(&["Name"]);
    let values = strings(&["hit"]);
    let (_, log) = bulk_update(&rs, &keys, &values, Some("{Name}*Controls"), false).unwrap();
    assert_eq!(log.iter().map(|c| c.record).collect::<Vec<_>>(), vec![0, 1]);
    let (_, log) = bulk_update(&rs, &keys, &values, Some("{Name}=Controls"), false).unwrap();
    assert_eq!(log.iter().map(|c| c.record).collect::<Vec<_>>(), vec![0]);
}

#[test]
fn star_keeps_and_reference_copies() {
    let rs = vec![record(&[("Name", "N"), ("Description", "D")])];
    let (out, log) =
        bulk_update(&rs, &strings(&["Description"]), &strings(&["*"]), None, false).unwrap();
    assert_eq!(fields(&out[0]), pairs(&[("Name", "N"), ("Description", "D")]));
    assert_eq!(log.len(), 1);
    assert_eq!(log[0].old_value, "D");
    assert_eq!(log[0].new_value, "D");
    let (out, _) =
        bulk_update(&rs, &strings(&["Description"]), &strings(&["{Name}"]), None, false).unwrap();
    assert_eq!(fields(&out[0]), pairs(&[("Name", "N"), ("Description", "N")]));
}

#[test]
fn mismatched_counts_fail() {
    let rs = three();
    let e = bulk_update(&rs, &strings(&["Desc", "Name"]), &strings(&["x"]), None, false)
        .err()
        .unwrap();
    assert_eq!(e.err_type, APMErrorType::KeyValueCountMismatchError);
    let e = bulk_update(&rs, &strings(&[]), &strings(&["x"]), Some("broken"), true).err().unwrap();
    assert_eq!(e.err_type, APMErrorType::KeyValueCountMismatchError);
    for (r, original) in rs.iter().zip(three().iter()) {
        assert_eq!(fields(r), fields(original));
    }
}

#[test]
fn malformed_filters_fail() {
    for bad in ["", "Name=A", "{Name", "{Name}", "{Name}~A", "{Name}"] {
        let e = bulk_update(&three(), &strings(&[]), &strings(&[]), Some(bad), false)
            .err()
            .unwrap();
        assert_eq!(e.err_type, APMErrorType::FilterParseError);
        assert_eq!(parse_filter(bad).err().unwrap().err_type, APMErrorType::FilterParseError);
    }
}

#[test]
fn filter_parts() {
    let f = parse_filter("{Name}*Controls").unwrap();
    assert_eq!((f.field.as_str(), f.kind, f.text.as_str()), ("Name", FilterKind::Contains, "Controls"));
    let f = parse_filter("{}=").unwrap();
    assert_eq!((f.field.as_str(), f.kind, f.text.as_str()), ("", FilterKind::Equals, ""));
    let f = parse_filter("{a b}=x}=y").unwrap();
    assert_eq!((f.field.as_str(), f.kind, f.text.as_str()), ("a b", FilterKind::Equals, "x}=y"));
}

#[test]
fn unknown_reference_fails_only_on_selected_records() {
    let e = bulk_update(&three(), &strings(&["Desc"]), &strings(&["{Nope}"]), None, false)
        .err()
        .unwrap();
    assert_eq!(e.err_type, APMErrorType::UnknownFieldReferenceError);
    let e = bulk_update(&three(), &strings(&["Desc"]), &strings(&["{Nope}"]), None, true)
        .err()
        .unwrap();
    assert_eq!(e.err_type, APMErrorType::UnknownFieldReferenceError);
    let (out, log) =
        bulk_update(&three(), &strings(&["Desc"]), &strings(&["{Nope}"]), Some("{Name}=Z"), false)
            .unwrap();
    assert_eq!(out.len(), 3);
    assert!(log.is_empty());
}

#[test]
fn a_key_that_a_record_lacks_is_not_created() {
    let rs = vec![record(&[("Name", "A")]), record(&[("Name", "B"), ("Extra", "e")])];
    let (out, log) =
        bulk_update(&rs, &strings(&["Extra"]), &strings(&["{Nope}"]), Some("{Name}=A"), false)
            .unwrap();
    assert_eq!(fields(&out[0]), pairs(&[("Name", "A")]));
    assert!(log.is_empty());
    let (out, log) =
        bulk_update(&rs, &strings(&["Extra"]), &strings(&["new"]), None, false).unwrap();
    assert_eq!(fields(&out[0]), pairs(&[("Name", "A")]));
    assert_eq!(fields(&out[1]), pairs(&[("Name", "B"), ("Extra", "new")]));
    assert_eq!(log.len(), 1);
}

#[test]
fn template_segments() {
    let t = parse_template("a*{b}c{d");
    assert_eq!(t.segments.len(), 4);
    assert!(matches!(&t.segments[0], Segment::Literal(s) if s == "a"));
    assert!(matches!(&t.segments[1], Segment::KeepOriginal));
    assert!(matches!(&t.segments[2], Segment::Field(s) if s == "b"));
    assert!(matches!(&t.segments[3], Segment::Literal(s) if s == "c{d"));
    let r = record(&[("b", "B")]);
    assert_eq!(t.render(&r, "o").unwrap(), "aoBc{d");
    assert!(parse_template("{x}").render(&r, "o").is_none());
    assert_eq!(parse_template("").render(&r, "o").unwrap(), "");
    assert_eq!(parse_template("é*ü").render(&r, "ö").unwrap(), "éöü");
}

#[test]
fn the_order_of_keys_on_different_fields_does_not_matter() {
    let rs = vec![record(&[("a", "1"), ("b", "2"), ("c", "3")])];
    let (one, _) =
        bulk_update(&rs, &strings(&["a", "c"]), &strings(&["{c}*", "{a}{b}"]), None, false)
            .unwrap();
    let (two, _) =
        bulk_update(&rs, &strings(&["c", "a"]), &strings(&["{a}{b}", "{c}*"]), None, false)
            .unwrap();
    assert_eq!(fields(&one[0]), fields(&two[0]));
    assert_eq!(fields(&one[0]), pairs(&[("a", "31"), ("b", "2"), ("c", "12")]));
}

#[test]
fn a_key_given_twice_is_written_twice_from_the_same_original() {
    let rs = vec![record(&[("a", "1")])];
    let (out, log) =
        bulk_update(&rs, &strings(&["a", "a"]), &strings(&["*x", "*y"]), None, false).unwrap();
    assert_eq!(fields(&out[0]), pairs(&[("a", "1y")]));
    assert_eq!(log.len(), 2);
    assert_eq!(log[1].old_value, "1");
}

#[test]
fn lists_are_cut_at_commas() {
    assert_eq!(split_list("Description,Name"), strings(&["Description", "Name"]));
    assert_eq!(split_list("a, b"), strings(&["a", " b"]));
    assert_eq!(split_list("one"), strings(&["one"]));
    assert_eq!(split_list(""), strings(&[""]));
    assert_eq!(split_list(","), strings(&["", ""]));
    assert_eq!(split_list("a,,é,"), strings(&["a", "", "é", ""]));
    assert_eq!(split_list("{Name}-x,*"), strings(&["{Name}-x", "*"]));
}
