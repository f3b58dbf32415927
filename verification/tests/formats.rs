use engine::file_format::FileFormat;

#[test]
fn test_file_format_variants() {
    let csv = FileFormat::Csv { encoding: String::from("windows-1252"), has_headers: true };
    assert_eq!(
        csv,
        FileFormat::Csv { encoding: String::from("windows-1252"), has_headers: true }
    );
    assert_ne!(csv, FileFormat::Parquet);

    let json = FileFormat::Json { wrap_key: Some(String::from("rows")) };
    assert!(matches!(json, FileFormat::Json { wrap_key: Some(_) }));
    let lines = FileFormat::JsonLines { wrap_key: None };
    assert!(matches!(lines, FileFormat::JsonLines { wrap_key: None }));
}
