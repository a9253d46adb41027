use friz::score::{count_terms_in, score_of};

#[test]
fn a_line_scores_the_full_score_less_its_length() {
    assert_eq!(score_of(0, 0), 20000);
    assert_eq!(score_of(11, 0), 19989);
    assert_eq!(score_of(20000, 0), 0);
    assert_eq!(score_of(30000, 0), 0);
}

#[test]
fn terms_in_the_last_segment_add_to_it() {
    assert_eq!(score_of(100, 1), 23900);
    assert_eq!(score_of(100, 2), 25400);
    assert_eq!(score_of(100, 3), 26900);
    assert_eq!(score_of(25000, 2), 500);
}

#[test]
fn a_score_has_a_greatest_value() {
    assert_eq!(score_of(0, 28), 64500);
    assert_eq!(score_of(0, 29), 65535);
    assert_eq!(score_of(0, 1000), 65535);
}

#[test]
fn sums_wrap_around() {
    let wrapped = |len: usize, count: usize| -> u16 {
        let hits = count as i32;
        let bonus = if hits > 0 { 4000i32.wrapping_add((hits - 1).wrapping_mul(1500)) } else { 0 };
        let base = 20000i32.saturating_sub(len as i32);
        base.wrapping_add(bonus).clamp(0, u16::MAX as i32) as u16
    };
    for len in [0, 5, 1 << 31, (1 << 31) + 7, (1 << 32) + 5, usize::MAX] {
        for count in [0, 1, 2, 1_431_655, 1_431_656, 1 << 31, 1 << 32] {
            assert_eq!(score_of(len, count), wrapped(len, count));
        }
    }
}

#[test]
fn terms_are_counted_one_by_one() {
    let terms: Vec<String> = ["ma", "rs", "src", "ma", ""].iter().map(|t| t.to_string()).collect();
    assert_eq!(count_terms_in(b"main.rs", &terms), 3);
    assert_eq!(count_terms_in(b"", &terms), 0);
}
