use quotation_align::distance::{word_distance, WordDistance};

#[test]
fn word_distances() {
    assert_eq!(word_distance("kitten", "sitting"), WordDistance { edits: 3, longest: 7 });
    assert_eq!(word_distance("abc", "ab"), WordDistance { edits: 1, longest: 3 });
    assert_eq!(word_distance("", ""), WordDistance { edits: 0, longest: 0 });
    assert_eq!(word_distance("", "abc"), WordDistance { edits: 3, longest: 3 });
    assert_eq!(word_distance("same", "same"), WordDistance { edits: 0, longest: 4 });
}

#[test]
fn word_distances_count_bytes() {
    // "é" is two bytes
    assert_eq!(word_distance("é", "e"), WordDistance { edits: 2, longest: 2 });
}

#[test]
fn word_distance_is_at_most_the_longer_length() {
    for (a, b) in [("love", "loves"), ("thee", "the"), ("o", "oh"), ("fairest", "creatures")] {
        let d = word_distance(a, b);
        assert!(d.edits as usize <= d.longest);
        assert_eq!(d, word_distance(b, a));
    }
}
