use hashcarve::digest::{digest_hex, RunningDigest};

#[test]
fn digest_of_nothing() {
    assert_eq!(digest_hex(&[]), "d41d8cd98f00b204e9800998ecf8427e");
}

#[test]
fn digest_of_known_texts() {
    assert_eq!(digest_hex(b"abc"), "900150983cd24fb0d6963f7d28e17f72");
    assert_eq!(digest_hex(b"a"), "0cc175b9c0f1b6a831c399e269772661");
    assert_eq!(
        digest_hex(b"abcdefghijklmnopqrstuvwxyz"),
        "c3fcd3d76192e4007dfb496cca67e13b"
    );
    assert_eq!(
        digest_hex(b"The quick brown fox jumps over the lazy dog"),
        "9e107d9d372bb6826bd81d3542a419d6"
    );
}

#[test]
fn digest_is_not_its_input() {
    let data = b"0cc175b9c0f1b6a831c399e269772661";
    let text = digest_hex(data);
    assert_eq!(text.len(), 32);
    assert_ne!(text.as_bytes(), &data[..]);
}

#[test]
fn digest_text_is_lower_case_hex() {
    let text = digest_hex(&[0xAA, 0xBB, 0xCC, 0xDD, 0xEE, 1, 2, 3, 4, 5]);
    assert_eq!(text, "e52b93506055adbc46df6e6e229195bb");
    assert!(text.chars().all(|c| c.is_ascii_digit() || ('a'..='f').contains(&c)));
}

#[test]
fn digest_agrees_with_the_md5_crate() {
    let mut data: Vec<u8> = Vec::new();
    for i in 0..300u32 {
        data.push((i * 7 + 3) as u8);
        assert_eq!(digest_hex(&data), format!("{:x}", md5::compute(&data)));
    }
}

#[test]
fn running_digest_of_nothing() {
    let running = RunningDigest::new();
    assert_eq!(running.hex(), "d41d8cd98f00b204e9800998ecf8427e");
}

#[test]
fn running_digest_follows_every_prefix() {
    let data = b"The quick brown fox jumps over the lazy dog";
    let mut running = RunningDigest::new();
    for n in 0..data.len() {
        running.update(&data[n..n + 1]);
        assert_eq!(running.hex(), digest_hex(&data[..n + 1]));
    }
    assert_eq!(running.hex(), "9e107d9d372bb6826bd81d3542a419d6");
}

#[test]
fn running_digest_does_not_depend_on_how_the_input_is_split() {
    let mut data: Vec<u8> = Vec::new();
    for i in 0..200u32 {
        data.push((i * 13 + 1) as u8);
    }
    let whole = digest_hex(&data);
    for cut in [0usize, 1, 63, 64, 65, 128, 199, 200] {
        let mut running = RunningDigest::new();
        running.update(&data[..cut]);
        running.update(&data[cut..]);
        assert_eq!(running.hex(), whole);
    }
}

#[test]
fn reading_a_running_digest_leaves_it_usable() {
    let mut running = RunningDigest::new();
    running.update(b"a");
    assert_eq!(running.hex(), "0cc175b9c0f1b6a831c399e269772661");
    assert_eq!(running.hex(), "0cc175b9c0f1b6a831c399e269772661");
    running.update(b"bc");
    assert_eq!(running.hex(), "900150983cd24fb0d6963f7d28e17f72");
}
