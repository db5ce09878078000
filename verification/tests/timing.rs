use quotation_align::path::Point;
use quotation_align::timing::{plan_chunk_timings, ChunkTiming};

fn p(x: usize, y: usize) -> Point {
    (x, y, 0.0f32.to_bits())
}

#[test]
fn words_take_the_timing_of_their_match() {
    // pieces: word, space, word, space, word
    let words = vec![0, 2, 4];
    // spoken words 0 and 2 align with written words 0 and 2
    let path = vec![p(0, 0), p(2, 2)];
    let timed = vec![10, 11, 12];
    let plan = plan_chunk_timings(5, &words, &path, &timed);
    assert_eq!(
        plan,
        vec![
            ChunkTiming { is_word: true, segment: Some(10) },
            ChunkTiming { is_word: false, segment: None },
            ChunkTiming { is_word: true, segment: None },
            ChunkTiming { is_word: false, segment: None },
            ChunkTiming { is_word: true, segment: Some(12) },
        ]
    );
}

#[test]
fn the_last_match_of_a_word_wins() {
    let words = vec![1];
    let path = vec![p(0, 0), p(1, 0), p(2, 5)];
    let timed = vec![7, 8, 9];
    let plan = plan_chunk_timings(2, &words, &path, &timed);
    assert_eq!(
        plan,
        vec![ChunkTiming { is_word: false, segment: None }, ChunkTiming { is_word: true, segment: Some(8) }]
    );
}
