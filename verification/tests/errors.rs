use lsmlite::error::{LsmliteError, SSTableError};

#[test]
fn io_errors_are_carried() {
    let err = std::io::Error::new(std::io::ErrorKind::NotFound, "gone");
    match SSTableError::from(err) {
        SSTableError::IOError(err) => assert_eq!(err.kind(), std::io::ErrorKind::NotFound),
        other => panic!("{:?}", other),
    }
    let err = std::io::Error::new(std::io::ErrorKind::NotFound, "gone");
    match LsmliteError::from(err) {
        LsmliteError::IOError(err) => assert_eq!(err.kind(), std::io::ErrorKind::NotFound),
        other => panic!("{:?}", other),
    }
}

#[test]
fn broken_text_is_an_invalid_query() {
    let err = String::from_utf8(vec![0xff]).unwrap_err();
    assert!(matches!(LsmliteError::from(err), LsmliteError::InvalidQuery));
}

#[test]
fn broken_numbers_are_invalid_parameters() {
    let err = "12x".parse::<u64>().unwrap_err();
    assert!(matches!(LsmliteError::from(err), LsmliteError::InvalidParameter));
}

#[test]
fn broken_configuration_is_carried() {
    let err = yaml_serde::from_str::<yaml_serde::Value>("[1, 2").unwrap_err();
    let text = err.to_string();
    match LsmliteError::from(err) {
        LsmliteError::InvalidConfigFile(err) => assert_eq!(err.to_string(), text),
        other => panic!("{:?}", other),
    }
}
