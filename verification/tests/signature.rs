use hashcarve::signature::{find_first, find_signatures, SignatureMatch, SignatureSet};

#[test]
fn find_first_gives_the_leftmost_occurrence() {
    assert_eq!(find_first(b"dog", b"The quick brown fox jumped over the lazy dog."), Some(41));
    assert_eq!(find_first(b"ab", b"xxabxxab"), Some(2));
    assert_eq!(find_first(b"aa", b"aaaa"), Some(0));
    assert_eq!(find_first(b"b", b"aaab"), Some(3));
}

#[test]
fn find_first_gives_nothing_when_the_needle_is_absent() {
    assert_eq!(find_first(b"cat", b"The quick brown fox"), None);
    assert_eq!(find_first(b"abc", b"ab"), None);
    assert_eq!(find_first(b"a", b""), None);
}

#[test]
fn find_first_on_the_whole_haystack() {
    assert_eq!(find_first(b"abc", b"abc"), Some(0));
}

#[test]
fn find_first_with_an_empty_needle() {
    assert_eq!(find_first(b"", b"abc"), Some(0));
    assert_eq!(find_first(b"", b""), Some(0));
}

#[test]
fn find_first_agrees_with_a_plain_search() {
    let haystack: Vec<u8> = b"abracadabra abracadabra banana bandana".to_vec();
    let needles: [&[u8]; 8] = [b"a", b"abra", b"cad", b"ana", b"nana", b"band", b"dana", b"zz"];
    for needle in needles {
        let mut expected = None;
        for at in 0..=haystack.len() - needle.len() {
            if &haystack[at..at + needle.len()] == needle {
                expected = Some(at);
                break;
            }
        }
        assert_eq!(find_first(needle, &haystack), expected);
    }
}

#[test]
fn new_set_drops_empty_signatures_and_keeps_the_order() {
    let set = SignatureSet::new(vec![
        vec![],
        vec![0x89, 0x50],
        vec![],
        vec![0xff],
        vec![0x25, 0x50, 0x44, 0x46],
        vec![],
    ]);
    assert_eq!(set.len(), 3);
    assert_eq!(set.pattern(0), &[0x89, 0x50]);
    assert_eq!(set.pattern(1), &[0xff]);
    assert_eq!(set.pattern(2), &[0x25, 0x50, 0x44, 0x46]);
}

#[test]
fn new_set_of_nothing_is_empty() {
    assert_eq!(SignatureSet::new(vec![]).len(), 0);
    assert_eq!(SignatureSet::new(vec![vec![], vec![]]).len(), 0);
}

#[test]
fn find_signatures_reports_each_signature_that_occurs() {
    let set = SignatureSet::new(vec![b"PNG".to_vec(), b"JFIF".to_vec(), b"%PDF".to_vec()]);
    let found = find_signatures(b"..%PDF-1.4....PNG", &set);
    assert_eq!(
        found,
        vec![
            SignatureMatch { signature: 0, offset: 14 },
            SignatureMatch { signature: 2, offset: 2 },
        ]
    );
}

#[test]
fn find_signatures_reports_only_the_leftmost_occurrence() {
    let set = SignatureSet::new(vec![b"ab".to_vec()]);
    let found = find_signatures(b"xabxabxab", &set);
    assert_eq!(found, vec![SignatureMatch { signature: 0, offset: 1 }]);
}

#[test]
fn find_signatures_in_an_empty_window_or_with_no_signatures() {
    let set = SignatureSet::new(vec![b"ab".to_vec()]);
    assert_eq!(find_signatures(b"", &set), vec![]);
    assert_eq!(find_signatures(b"abab", &SignatureSet::new(vec![])), vec![]);
}

#[test]
fn a_signature_longer_than_the_window_is_not_found() {
    let set = SignatureSet::new(vec![b"abcdef".to_vec()]);
    assert_eq!(find_signatures(b"abcde", &set), vec![]);
}

#[test]
fn the_same_signature_twice_is_reported_twice() {
    let set = SignatureSet::new(vec![b"ab".to_vec(), b"ab".to_vec()]);
    let found = find_signatures(b"..ab", &set);
    assert_eq!(
        found,
        vec![
            SignatureMatch { signature: 0, offset: 2 },
            SignatureMatch { signature: 1, offset: 2 },
        ]
    );
}

#[test]
fn the_longest_signature_is_known() {
    assert_eq!(SignatureSet::new(vec![]).longest_len(), 0);
    assert_eq!(SignatureSet::new(vec![vec![], vec![]]).longest_len(), 0);
    assert_eq!(SignatureSet::new(vec![vec![1]]).longest_len(), 1);
    let set = SignatureSet::new(vec![vec![1, 2, 3], vec![], vec![4; 9], vec![5, 6]]);
    assert_eq!(set.longest_len(), 9);
}
