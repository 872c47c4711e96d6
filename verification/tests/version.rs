use gix_index::entry::Flags;
use gix_index::Version;

#[test]
fn extended_flags_automatically_upgrade_the_version_to_avoid_data_loss() {
    let mut entries = vec![Flags { bits: 0 }];
    assert_eq!(Version::required_for(&entries), Version::V2);
    entries[0].insert(Flags::EXTENDED);

    assert_eq!(Version::required_for(&entries), Version::V3, "extended flags need V3");
}

#[test]
fn one_entry_with_extended_flags_is_enough() {
    let mut entries = vec![Flags { bits: 0x8000 }; 3];
    assert_eq!(Version::required_for(&entries), Version::V2);
    entries[2].insert(Flags::EXTENDED);
    assert_eq!(entries[2], Flags { bits: 0xc000 });
    assert!(entries[2].contains(0x8000), "other flags remain");
    assert!(!entries[1].contains(Flags::EXTENDED));
    assert_eq!(Version::required_for(&entries), Version::V3);
    assert_eq!(Version::required_for(&[]), Version::V2);
}
