use gix_index::hash::{Kind, ObjectId};

#[test]
fn digests_have_the_length_of_their_kind() {
    assert_eq!(Kind::Sha1.len_in_bytes(), 20);
    assert_eq!(Kind::Sha256.len_in_bytes(), 32);
    assert_eq!(ObjectId::null(Kind::Sha1).as_bytes(), [0; 20]);
    assert_eq!(ObjectId::null(Kind::Sha256).as_bytes(), [0; 32]);
}

#[test]
fn digests_keep_their_bytes() {
    let bytes: Vec<u8> = (1..=32).collect();
    assert_eq!(ObjectId::from_bytes(&bytes[..20]).as_bytes(), &bytes[..20]);
    assert_eq!(ObjectId::from_bytes(&bytes).as_bytes(), &bytes[..]);
    assert!(matches!(ObjectId::from_bytes(&bytes[..20]), ObjectId::Sha1(_)));
    assert!(matches!(ObjectId::from_bytes(&bytes), ObjectId::Sha256(_)));
}

#[test]
fn only_digests_of_zeros_are_null() {
    assert!(ObjectId::null(Kind::Sha1).is_null());
    assert!(ObjectId::null(Kind::Sha256).is_null());
    let mut bytes = [0; 32];
    bytes[31] = 1;
    assert!(!ObjectId::from_bytes(&bytes).is_null());
    assert!(ObjectId::from_bytes(&bytes[..20]).is_null());
}
