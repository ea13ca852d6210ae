use unitypackage_extractor::entry::{classify, classify_name, EntryKind};

#[test]
fn record_names_give_record_kinds() {
    assert_eq!(classify_name("pathname"), EntryKind::PathRecord);
    assert_eq!(classify_name("asset"), EntryKind::ContentRecord);
    assert_eq!(classify_name("asset.meta"), EntryKind::MetaRecord);
}

#[test]
fn other_names_give_other() {
    assert_eq!(classify_name("preview.png"), EntryKind::Other);
    assert_eq!(classify_name(""), EntryKind::Other);
    assert_eq!(classify_name("Asset"), EntryKind::Other);
    assert_eq!(classify_name("pathname "), EntryKind::Other);
    assert_eq!(classify_name("asset.meta.bak"), EntryKind::Other);
    assert_eq!(classify_name("assets"), EntryKind::Other);
}

#[test]
fn classify_derives_group_and_kind() {
    assert_eq!(classify("0a1b2c/pathname"), ("0a1b2c".to_string(), EntryKind::PathRecord));
    assert_eq!(classify("0a1b2c/asset"), ("0a1b2c".to_string(), EntryKind::ContentRecord));
    assert_eq!(classify("0a1b2c/asset.meta"), ("0a1b2c".to_string(), EntryKind::MetaRecord));
    assert_eq!(classify("0a1b2c/preview.png"), ("0a1b2c".to_string(), EntryKind::Other));
}

#[test]
fn classify_keeps_the_whole_prefix_as_group() {
    assert_eq!(classify("./0a1b2c/asset"), ("./0a1b2c".to_string(), EntryKind::ContentRecord));
    assert_eq!(classify("x/y/z/pathname"), ("x/y/z".to_string(), EntryKind::PathRecord));
}

#[test]
fn classify_without_a_group() {
    assert_eq!(classify("pathname"), (String::new(), EntryKind::PathRecord));
    assert_eq!(classify("asset"), (String::new(), EntryKind::ContentRecord));
    assert_eq!(classify(""), (String::new(), EntryKind::Other));
}

#[test]
fn classify_of_a_directory_entry_is_other() {
    assert_eq!(classify("0a1b2c/"), ("0a1b2c".to_string(), EntryKind::Other));
    assert_eq!(classify("0a1b2c/asset/"), ("0a1b2c/asset".to_string(), EntryKind::Other));
}
