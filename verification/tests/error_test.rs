use sqpack::SqPackReaderError;

#[test]
fn error_messages() {
    assert_eq!(SqPackReaderError::InvalidPath.to_string(), "Invalid path");
    assert_eq!(SqPackReaderError::NoSuchFolder.to_string(), "No such folder");
    assert_eq!(SqPackReaderError::NoSuchFile.to_string(), "No such file");
    assert_eq!(
        SqPackReaderError::ReadError("disk on fire".to_string()).to_string(),
        "Read error, disk on fire"
    );
}
