use git::error::PackError;
use git::pack::{get_pack_raw_data, select_pack_files};

const HEX: &str = "8a4f2b3c9d0e1f2a3b4c5d6e7f8091a2b3c4d5e6";

#[test]
fn pack_discovery_picks_pack_files() {
    let names = vec![
        format!("pack-{}.pack", HEX),
        format!("pack-{}.idx", HEX),
        "README.md".to_string(),
    ];
    let (idx, hashes) = select_pack_files(&names).unwrap();
    assert_eq!(idx, vec![0]);
    assert_eq!(hashes.len(), 1);
    assert_eq!(hashes[0], git::hash::Hash::new_from_str(HEX).unwrap());
    assert_eq!(hashes[0].0[0], 0x8a);
    assert_eq!(hashes[0].0[19], 0xe6);
}

#[test]
fn pack_discovery_keeps_order() {
    let other = "00112233445566778899aabbccddeeff00112233";
    let names = vec![
        "notes.txt".to_string(),
        format!("pack-{}.pack", other),
        format!("pack-{}.pack", HEX),
    ];
    let (idx, hashes) = select_pack_files(&names).unwrap();
    assert_eq!(idx, vec![1, 2]);
    assert_eq!(hashes[0].0[1], 0x11);
    assert_eq!(hashes[1].0[1], 0x4f);
}

#[test]
fn pack_discovery_empty_directory() {
    let (idx, hashes) = select_pack_files(&vec![]).unwrap();
    assert!(idx.is_empty());
    assert!(hashes.is_empty());
}

#[test]
fn pack_name_without_hash_is_malformed() {
    let names = vec!["short.pack".to_string()];
    assert_eq!(select_pack_files(&names), Err(PackError::MalformedEncoding));
    let names = vec![format!("pack-{}.pack", "zz".repeat(20))];
    assert_eq!(select_pack_files(&names), Err(PackError::MalformedEncoding));
}

#[test]
fn hash_parse_rejects_bad_text() {
    assert!(git::hash::Hash::new_from_str("abc").is_none());
    assert!(git::hash::Hash::new_from_str(&"g".repeat(40)).is_none());
    let upper = git::hash::Hash::new_from_str(&HEX.to_uppercase()).unwrap();
    assert_eq!(upper, git::hash::Hash::new_from_str(HEX).unwrap());
}

#[test]
fn pack_raw_data_strips_header_and_trailer() {
    let data: Vec<u8> = (0u8..40).collect();
    let raw = get_pack_raw_data(data);
    let want: Vec<u8> = (12u8..20).collect();
    assert_eq!(raw, want);
}

#[test]
fn pack_discovery_skips_names_without_dot_pack() {
    let names = vec![
        "a".to_string(),
        "xpack".to_string(),
        "backpack".to_string(),
        "notes.PACK".to_string(),
        format!("pack-{}.idx", HEX),
    ];
    let (idx, hashes) = select_pack_files(&names).unwrap();
    assert!(idx.is_empty());
    assert!(hashes.is_empty());
}
