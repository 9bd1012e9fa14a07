use archer_package_manager::error::APMErrorType;

#[test]
fn error_carries_kind_and_detail() {
    let e = APMErrorType::FilterParseError.into_apm_error(String::from("no brace"));
    assert_eq!(e.err_type, APMErrorType::FilterParseError);
    assert_eq!(e.msg, "no brace");
    assert_eq!(e.kind(), APMErrorType::FilterParseError);
}
