use recovery_line::ring::{hash_sha256, File, RING_SIZE};

#[test]
fn empty_text_slot() {
    assert_eq!(hash_sha256(""), 21);
}

#[test]
fn file_is_placed_by_the_digest_of_its_name() {
    let f = File::new("f0.mov".to_string());
    assert_eq!(f.name, "f0.mov");
    assert_eq!(f.hash, 15);
    assert_eq!(File::new("f1.mov".to_string()).hash, 7);
    assert_eq!(hash_sha256("abc"), 13);
    assert_eq!(hash_sha256("239.67.52.72"), 21);
}

#[test]
fn slots_stay_on_the_ring() {
    for i in 0..50 {
        assert!(hash_sha256(&format!("f{i}.mov")) < RING_SIZE);
    }
}
