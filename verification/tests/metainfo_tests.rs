use magnet_url::Magnet;
use superseedr::metainfo::{
    compute_info_hash, hash_matches, magnet_tracker_urls, select_info_hash, tracker_urls,
    truncate_v2_info_hash, v1_expected_hash, validate_v1_piece,
};

const SHA1_ABC: &str = "a9993e364706816aba3e25717850c26c9cd0d89d";
const SHA256_ABC_20: &str = "ba7816bf8f01cfea414140de5dae2223b00361a3";

#[test]
fn info_hash_is_sha1_for_v1_and_hybrid() {
    assert_eq!(hex::encode(compute_info_hash(b"abc", None, true)), SHA1_ABC);
    assert_eq!(hex::encode(compute_info_hash(b"abc", Some(1), false)), SHA1_ABC);
    assert_eq!(hex::encode(compute_info_hash(b"abc", Some(2), true)), SHA1_ABC);
}

#[test]
fn info_hash_is_truncated_sha256_for_pure_v2() {
    let h = compute_info_hash(b"abc", Some(2), false);
    assert_eq!(h.len(), 20);
    assert_eq!(hex::encode(h), SHA256_ABC_20);
    let digest: Vec<u8> = (0u8..32).collect();
    assert_eq!(truncate_v2_info_hash(&digest), (0u8..20).collect::<Vec<u8>>());
}

#[test]
fn magnet_hash_prefers_v1() {
    assert_eq!(select_info_hash(Some(vec![1]), Some(vec![2])), Ok(vec![1]));
    assert_eq!(select_info_hash(None, Some(vec![2])), Ok(vec![2]));
    assert_eq!(
        select_info_hash(None, None),
        Err("No valid hashes found".to_string())
    );
}

#[test]
fn trackers_are_decoded_filtered_and_deduplicated() {
    let raw: Vec<String> = vec![
        "http://a.com/announce",
        "udp://tracker.example:1337",
        "http%3A%2F%2Fb.com",
        "http://a.com/announce",
        "https%3A%2F%2Fc.org%2Fann",
        "http%FF",
    ]
    .into_iter()
    .map(String::from)
    .collect();
    assert_eq!(
        tracker_urls(&raw),
        vec![
            "http://a.com/announce".to_string(),
            "http://b.com".to_string(),
            "https://c.org/ann".to_string()
        ]
    );
}

#[test]
fn magnet_trackers_come_from_the_link() {
    let link = "magnet:?xt=urn:btih:0000000000000000000000000000000000000000&tr=http%3A%2F%2Ft.example%2Fannounce&tr=udp%3A%2F%2Fx";
    assert!(Magnet::new(link).is_ok());
    assert_eq!(
        magnet_tracker_urls(link),
        Some(vec!["http://t.example/announce".to_string()])
    );
    assert_eq!(magnet_tracker_urls("http://not-a-magnet"), None);
}

#[test]
fn v1_pieces_are_checked_against_their_listed_hash() {
    let mut pieces = vec![0u8; 20];
    pieces.extend(hex::decode(SHA1_ABC).unwrap());
    assert_eq!(v1_expected_hash(&pieces, 1), Some(hex::decode(SHA1_ABC).unwrap()));
    assert_eq!(v1_expected_hash(&pieces, 2), None);
    assert!(validate_v1_piece(b"abc", &pieces, 1));
    assert!(!validate_v1_piece(b"abd", &pieces, 1));
    assert!(!validate_v1_piece(b"abc", &pieces, 0));
    assert!(!validate_v1_piece(b"abc", &pieces, 2));
    assert!(!validate_v1_piece(b"", &pieces, 1));
    assert!(hash_matches(&[1, 2], &[1, 2]));
    assert!(!hash_matches(&[1, 2], &[1]));
}

use superseedr::storage::{plan_container, ContainerPlan};

#[test]
fn test_container_logic_explicit_no_folder() {
    // The user chose "no folder" (an empty name) for a multi-file torrent.
    let plan = plan_container(Some(String::new()), true, "MyTorrent", &[0xab; 20]);
    let base = std::path::PathBuf::from("/tmp/downloads");
    let dir = match &plan.folder {
        Some(f) => base.join(f),
        None => base.clone(),
    };
    assert_eq!(
        dir.join("file_a.txt"),
        std::path::PathBuf::from("/tmp/downloads/file_a.txt"),
        "Should flatten multi-file torrent when container_name is empty"
    );
}

#[test]
fn containers_are_named_or_derived_from_the_info_hash() {
    assert_eq!(
        plan_container(Some("Album".to_string()), true, "X", &[1]),
        ContainerPlan {
            folder: Some("Album".to_string()),
            container_name: Some("Album".to_string())
        }
    );
    let derived = format!("MyTorrent [{}]", "0aff");
    assert_eq!(
        plan_container(None, true, "MyTorrent", &[0x0a, 0xff]),
        ContainerPlan {
            folder: Some(derived.clone()),
            container_name: Some(derived)
        }
    );
    assert_eq!(
        plan_container(None, false, "single.iso", &[1, 2]),
        ContainerPlan {
            folder: None,
            container_name: None
        }
    );
}

use superseedr::metainfo::v1_piece_matches;

#[test]
fn verify_piece_checks_the_digest_only() {
    let pieces = hex::decode(SHA1_ABC).unwrap();
    assert!(v1_piece_matches(b"abc", &pieces, 0));
    assert!(!v1_piece_matches(b"abc", &pieces, 1));
    let empty_digest = hex::decode("da39a3ee5e6b4b0d3255bfef95601890afd80709").unwrap();
    assert!(v1_piece_matches(b"", &empty_digest, 0));
    assert!(!validate_v1_piece(b"", &empty_digest, 0));
}
