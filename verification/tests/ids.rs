use elfshaker::repo::{IdError, PackId, SnapshotId};

#[test]
fn pack_id_validation_works() {
    // VALID
    assert!(PackId::is_valid("ABCD"));
    assert!(PackId::is_valid("abcd"));
    assert!(PackId::is_valid("____"));
    assert!(PackId::is_valid("----"));
    assert!(PackId::is_valid("ABCD-132_TAG"));
    // NOT VALID
    // spaces
    assert!(!PackId::is_valid("Some Text"));
    // non-latin alphabets
    assert!(!PackId::is_valid("това-е-тест"));
    // non-letter symbols other than - and _
    assert!(!PackId::is_valid("QWERTY-^!$^%^@!#"));
}

#[test]
fn snapshot_tag_validation_works() {
    // VALID
    assert!(SnapshotId::is_valid("ABCD"));
    assert!(SnapshotId::is_valid("abcd"));
    assert!(SnapshotId::is_valid("____"));
    assert!(SnapshotId::is_valid("----"));
    assert!(SnapshotId::is_valid("ABCD-132_TAG"));
    // NOT VALID
    // spaces
    assert!(!SnapshotId::is_valid("Some Text"));
    // non-latin alphabets
    assert!(!SnapshotId::is_valid("това-е-тест"));
    // non-letter symbols other than - and _
    assert!(!SnapshotId::is_valid("QWERTY-^!$^%^@!#"));
}

#[test]
fn pack_id_from_text() {
    assert_eq!("my/pack", PackId::from_str("my/pack").unwrap().as_str());
    assert!(matches!(
        PackId::from_str("my pack"),
        Err(IdError::InvalidPack(s)) if s == "my pack"
    ));
}

#[test]
fn pack_id_from_index_path_drops_the_extension() {
    let id = PackId::from_index_path("a/b.pack.idx".to_string()).unwrap();
    assert_eq!("a/b", id.as_str());
    assert!(PackId::from_index_path("a/b.pack".to_string()).is_none());
}

#[test]
fn canonical_snapshot_round_trip() {
    let id = SnapshotId::from_str("packs/one:snap-1").unwrap();
    assert_eq!("packs/one", id.pack().as_str());
    assert_eq!("snap-1", id.tag());
    assert_eq!("packs/one:snap-1", id.to_text());
    let again = SnapshotId::from_str(&id.to_text()).unwrap();
    assert!(id.same(&again));
    assert!(id.clone().pack().same(again.pack()));
}

#[test]
fn canonical_form_may_end_in_a_line_feed() {
    let id = SnapshotId::from_str("P:a:b\n").err().unwrap();
    assert!(matches!(id, IdError::InvalidPack(s) if s == "P:a"));
    assert_eq!("P:a", SnapshotId::from_str("P:a\n").unwrap().to_text());
}

#[test]
fn canonical_form_may_end_in_any_white_space() {
    let id = SnapshotId::from_str("P:a \t\r\n\u{3000}").unwrap();
    assert_eq!("P:a", id.to_text());
}

#[test]
fn snapshot_part_must_be_an_id() {
    assert!(matches!(
        SnapshotId::from_str("my-pack:bad tag"),
        Err(IdError::InvalidSnapshot(s)) if s == "bad tag"
    ));
    assert!(matches!(
        SnapshotId::from_str("my pack:bad tag"),
        Err(IdError::InvalidPack(s)) if s == "my pack"
    ));
    assert_eq!("a/b_c-1", SnapshotId::from_str("p:a/b_c-1").unwrap().tag());
}

#[test]
fn bad_snapshot_ids_are_refused() {
    assert!(matches!(
        SnapshotId::from_str("no-separator"),
        Err(IdError::BadFormat(s)) if s == "no-separator"
    ));
    assert!(matches!(
        SnapshotId::from_str(":tag"),
        Err(IdError::InvalidPack(s)) if s.is_empty()
    ));
    assert!(matches!(
        SnapshotId::from_str("pack:"),
        Err(IdError::InvalidSnapshot(s)) if s.is_empty()
    ));
    let pack = PackId::from_str("P").unwrap();
    assert!(matches!(
        SnapshotId::new(pack, "bad tag"),
        Err(IdError::InvalidSnapshot(s)) if s == "bad tag"
    ));
}

#[test]
fn id_errors_have_messages() {
    let e = PackId::from_str("a b").err().unwrap();
    assert_eq!(
        "Invalid pack identifier 'a b'! Latin letters, digits, -, _ and / are allowed!",
        e.message()
    );
    assert_eq!(
        "Invalid snapshot identifier '!'! Latin letters, digits, - and _ are allowed!",
        IdError::InvalidSnapshot("!".to_string()).message()
    );
    assert_eq!(
        "Unrecognized identifier format 'x'!",
        IdError::BadFormat("x".to_string()).message()
    );
}
