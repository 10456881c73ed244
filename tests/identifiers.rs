use arklib::id::ResourceId as DigestId;
use arklib::resource::{ResourceId, ResourceIdBlake3, ResourceIdTrait};
use arklib::ArklibError;

const DIGEST_1: [u8; 32] = [
    23, 43, 75, 241, 72, 232, 88, 177, 61, 222, 15, 198, 97, 52, 19, 188, 183, 85, 46, 92, 78, 92,
    69, 25, 90, 198, 200, 15, 32, 235, 95, 245,
];

const DIGEST_2: [u8; 32] = [
    24, 43, 75, 241, 72, 232, 88, 177, 61, 222, 15, 198, 97, 52, 19, 188, 183, 85, 46, 92, 78, 92,
    69, 25, 90, 198, 200, 15, 32, 235, 95, 245,
];

#[test]
fn id_resource_id_to_and_from_string() {
    let plain_text = "Hello, world!";
    let id = DigestId::compute_bytes(plain_text.as_bytes()).unwrap();
    let id_str = id.to_string();
    let id2 = DigestId::from_str(&id_str).unwrap();
    assert_eq!(id, id2);
}

#[test]
fn id_resource_id_order() {
    let id1 = DigestId { blake3: DIGEST_1 };
    let id2 = DigestId { blake3: DIGEST_2 };
    assert!(id1 < id2);
    assert!(id2 > id1);
    assert!(id1 != id2);
    assert!(id1 == id1);
    assert!(id2 == id2);
}

#[test]
fn blake3_resource_id_to_and_from_string() {
    let plain_text = "Hello, world!";
    let hash = ResourceIdBlake3::compute_bytes(plain_text.as_bytes()).unwrap().hash;
    let id = ResourceIdBlake3 { data_size: 13, hash };
    let id_str = id.to_string();
    let id2 = ResourceIdBlake3::from_str(&id_str).unwrap();
    assert_eq!(id, id2);
}

#[test]
fn blake3_resource_id_order() {
    let id1 = ResourceIdBlake3 { data_size: 1, hash: DIGEST_1 };
    let id2 = ResourceIdBlake3 { data_size: 2, hash: DIGEST_2 };
    assert!(id1 < id2);
    assert!(id2 > id1);
    assert!(id1 != id2);
    assert!(id1 == id1);
    assert!(id2 == id2);
}

#[test]
fn blake3_digest_of_empty_input() {
    let id = ResourceIdBlake3::compute_bytes(b"").unwrap();
    assert_eq!(id.data_size, 0);
    assert_eq!(
        DigestId { blake3: id.hash }.to_string(),
        "rxNJufX5oaagQE3qNtzJSZvLJcmtwRK3zJqTyuQfMmI="
    );
    assert_eq!(DigestId::compute_bytes(b"").unwrap().blake3, id.hash);
}

#[test]
fn blake3_text_form() {
    let id = ResourceIdBlake3 { data_size: 1, hash: [0u8; 32] };
    assert_eq!(id.to_string(), "1-AAAAAAAAAAAAAAAAAAAAAAAAAAAAAAAAAAAAAAAAAAA=");
}

#[test]
fn blake3_parse_errors() {
    assert_eq!(ResourceIdBlake3::from_str("no dash here"), Err(ArklibError::Parse));
    assert_eq!(ResourceIdBlake3::from_str("x-AAAA"), Err(ArklibError::Parse));
    assert_eq!(ResourceIdBlake3::from_str("1-AAAA"), Err(ArklibError::Parse));
    assert_eq!(ResourceIdBlake3::from_str("1-%%%"), Err(ArklibError::Parse));
}

#[test]
fn crc32_of_zero_bytes() {
    let id = ResourceId::compute_bytes(&[0u8; 10]).unwrap();
    assert_eq!(id, ResourceId { data_size: 10, hash: 3817498742 });
    let id = ResourceId::compute_bytes(&[0u8; 11]).unwrap();
    assert_eq!(id, ResourceId { data_size: 11, hash: 1804055020 });
}

#[test]
fn crc32_text_round_trip() {
    let id = ResourceId { data_size: 10, hash: 3817498742 };
    assert_eq!(id.to_string(), "10-3817498742");
    assert_eq!(ResourceId::from_str("10-3817498742"), Ok(id));
    let max = ResourceId { data_size: u64::MAX, hash: u32::MAX };
    assert_eq!(ResourceId::from_str(&max.to_string()), Ok(max));
    let zero = ResourceId { data_size: 0, hash: 0 };
    assert_eq!(ResourceId::from_str(&zero.to_string()), Ok(zero));
}

#[test]
fn crc32_parse_errors() {
    assert_eq!(ResourceId::from_str("10"), Err(ArklibError::Parse));
    assert_eq!(ResourceId::from_str("ten-5"), Err(ArklibError::Parse));
    assert_eq!(ResourceId::from_str("10-4294967296"), Err(ArklibError::Parse));
    assert_eq!(ResourceId::from_str("10-"), Err(ArklibError::Parse));
    assert_eq!(ResourceId::from_str("-5"), Err(ArklibError::Parse));
}

#[test]
fn streamed_digest_matches_one_shot() {
    let mut digest = arklib::resource::crc32::IdDigest::new();
    digest.update(&[0u8; 4]).unwrap();
    digest.update(&[0u8; 6]).unwrap();
    let id = digest.finish(10).unwrap();
    assert_eq!(id, ResourceId { data_size: 10, hash: 3817498742 });
}

#[test]
fn streamed_digest_detects_size_change() {
    let mut digest = arklib::resource::crc32::IdDigest::new();
    digest.update(&[1u8; 4]).unwrap();
    assert!(digest.finish(10).is_err());
}

#[test]
fn blake3_streamed_digest_matches_one_shot() {
    let mut digest = arklib::resource::blake3::Blake3Digest::new();
    digest.update(b"Hello, ").unwrap();
    digest.update(b"world!").unwrap();
    let streamed = digest.finish(13).unwrap();
    assert_eq!(streamed, ResourceIdBlake3::compute_bytes(b"Hello, world!").unwrap());
    assert!(digest.finish(12).is_err());
}

#[test]
fn digest_id_parse_errors() {
    assert_eq!(DigestId::from_str("%%%"), Err(ArklibError::Parse));
    assert_eq!(DigestId::from_str("AAAA"), Err(ArklibError::Parse));
    let id = DigestId { blake3: DIGEST_1 };
    assert_eq!(DigestId::from_str(&id.to_string()), Ok(id));
}

fn size_through_trait<T: ResourceIdTrait>(bytes: &[u8]) -> T {
    T::compute_bytes(bytes).unwrap()
}

#[test]
fn identifier_trait_computes_both_kinds() {
    let a: ResourceId = size_through_trait(&[0u8; 10]);
    assert_eq!(a.get_hash(), 3817498742);
    let b: ResourceIdBlake3 = size_through_trait(b"");
    assert_eq!(b.data_size, 0);
    assert_eq!(b.get_hash(), ResourceIdBlake3::compute_bytes(b"").unwrap().hash);
}

#[test]
fn numbers_read_as_std_reads_them() {
    assert_eq!(ResourceId::from_str("+5-007"), Ok(ResourceId { data_size: 5, hash: 7 }));
    assert_eq!(ResourceId::from_str("18446744073709551615-4294967295"), Ok(ResourceId { data_size: u64::MAX, hash: u32::MAX }));
    assert_eq!(ResourceId::from_str("18446744073709551616-1"), Err(ArklibError::Parse));
    assert_eq!(ResourceId::from_str("+-1"), Err(ArklibError::Parse));
    assert_eq!(ResourceId::from_str("1- 2"), Err(ArklibError::Parse));
}
