use voxelproxy::updater::{update_from_release, ReleaseError};

#[test]
fn same_tag_means_no_update() {
    let r = update_from_release("1.2.0", Some("1.2.0".to_string()), None);
    assert!(matches!(r, Ok(None)));
}

#[test]
fn new_tag_gives_release() {
    let r = update_from_release(
        "1.2.0",
        Some("1.3.0".to_string()),
        Some("https://example.org/a.exe".to_string()),
    )
    .unwrap()
    .unwrap();
    assert_eq!(r.tag, "1.3.0");
    assert_eq!(r.link, "https://example.org/a.exe");
}

#[test]
fn missing_fields_are_errors() {
    assert!(matches!(update_from_release("1", None, None), Err(ReleaseError::MissingTag)));
    assert!(matches!(
        update_from_release("1", Some("2".to_string()), None),
        Err(ReleaseError::MissingAsset)
    ));
}
