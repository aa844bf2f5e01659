use movie_similarity::Rating;
use movie_similarity::SimScore;
use movie_similarity::score;
use movie_similarity::score_ge;

fn r(user_id: u32, movie_id: u32, rating: i32) -> Rating {
    Rating { user_id, movie_id, rating }
}

// Ratings use a fixed decimal scale of ten: 5.0 stars is 50.

#[test]
fn no_common_rater_is_invalid() {
    let a = vec![r(1, 1, 50), r(2, 1, 30)];
    let b = vec![r(3, 2, 50), r(4, 2, 30)];
    assert_eq!(score(&a, &b), SimScore::Invalid);
    assert_eq!(score(&b, &a), SimScore::Invalid);
}

#[test]
fn empty_inputs_are_invalid() {
    let a: Vec<Rating> = vec![];
    let b = vec![r(1, 2, 50)];
    assert_eq!(score(&a, &b), SimScore::Invalid);
    assert_eq!(score(&a, &a), SimScore::Invalid);
}

#[test]
fn single_shared_rater_exact_components() {
    // One common rater with ratings 5.0 and 5.0:
    // dot = 25.0, sums = 5.0 and 5.0, score = 25.0 / (sqrt(5)*sqrt(5)) = 5.0.
    let a = vec![r(1, 1, 50)];
    let b = vec![r(1, 2, 50)];
    assert_eq!(score(&a, &b), SimScore::Valid { dot: 2500, sum_a: 50, sum_b: 50 });
}

#[test]
fn self_score_is_valid() {
    let a = vec![r(1, 1, 50), r(2, 1, 10)];
    // Self pairs (5.0,5.0) and (1.0,1.0): dot = 26.0, sums = 6.0 each.
    assert_eq!(score(&a, &a), SimScore::Valid { dot: 2600, sum_a: 60, sum_b: 60 });
}

#[test]
fn single_rating_self_score_is_valid() {
    let a = vec![r(7, 3, 5)];
    assert_eq!(score(&a, &a), SimScore::Valid { dot: 25, sum_a: 5, sum_b: 5 });
}

#[test]
fn duplicate_raters_match_pairwise() {
    // The same user twice on each side: all four cross pairs match.
    let a = vec![r(1, 1, 10), r(1, 1, 20)];
    let b = vec![r(1, 2, 30)];
    // dot = 1*3 + 2*3 = 9.0 at scale 100, sum_a = 1+2 = 3.0, sum_b = 3+3 = 6.0.
    assert_eq!(score(&a, &b), SimScore::Valid { dot: 900, sum_a: 30, sum_b: 60 });
}

#[test]
fn nonpositive_denominator_is_invalid() {
    // A shared rater exists, but a negative rating value drags the
    // first sum to zero, so the score is undefined.
    let a = vec![r(1, 1, 30), r(2, 1, -30)];
    let b = vec![r(1, 2, 10), r(2, 2, 10)];
    assert_eq!(score(&a, &b), SimScore::Invalid);
}

#[test]
fn score_ge_orders_by_value() {
    // 5.0 versus 26/6 = 4.33... versus 1.0.
    let five = SimScore::Valid { dot: 2500, sum_a: 50, sum_b: 50 };
    let four_third = SimScore::Valid { dot: 2600, sum_a: 60, sum_b: 60 };
    let one = SimScore::Valid { dot: 100, sum_a: 10, sum_b: 10 };
    assert!(score_ge(&five, &four_third));
    assert!(!score_ge(&four_third, &five));
    assert!(score_ge(&four_third, &one));
    assert!(score_ge(&five, &one));
    assert!(!score_ge(&one, &five));
}

#[test]
fn score_ge_is_reflexive_and_total_on_ties() {
    // 2.0/sqrt(1.0) and 4.0/sqrt(4.0) are the same real number.
    let x = SimScore::Valid { dot: 20, sum_a: 10, sum_b: 10 };
    let y = SimScore::Valid { dot: 40, sum_a: 40, sum_b: 10 };
    assert!(score_ge(&x, &x));
    assert!(score_ge(&x, &y));
    assert!(score_ge(&y, &x));
}

#[test]
fn score_ge_handles_signs() {
    let pos = SimScore::Valid { dot: 1, sum_a: 1000, sum_b: 1000 };
    let neg = SimScore::Valid { dot: -1, sum_a: 1, sum_b: 1 };
    let zero = SimScore::Valid { dot: 0, sum_a: 5, sum_b: 5 };
    assert!(score_ge(&pos, &neg));
    assert!(!score_ge(&neg, &pos));
    assert!(score_ge(&zero, &neg));
    assert!(score_ge(&pos, &zero));
    // Between negatives the one nearer zero is the larger.
    let neg_small = SimScore::Valid { dot: -1, sum_a: 100, sum_b: 100 };
    let neg_big = SimScore::Valid { dot: -50, sum_a: 100, sum_b: 100 };
    assert!(score_ge(&neg_small, &neg_big));
    assert!(!score_ge(&neg_big, &neg_small));
}

#[test]
fn score_is_order_independent() {
    // The scorer sums over all matched pairs, so shuffling the rating
    // lists does not change the exact components.
    let a1 = vec![r(1, 1, 50), r(2, 1, 10), r(3, 1, 35)];
    let a2 = vec![r(3, 1, 35), r(1, 1, 50), r(2, 1, 10)];
    let b = vec![r(2, 2, 45), r(1, 2, 20)];
    assert_eq!(score(&a1, &b), score(&a2, &b));
}
