use movie_similarity::Movie;
use movie_similarity::Rating;
use movie_similarity::SimScore;
use movie_similarity::build;
use movie_similarity::find_movie;
use movie_similarity::has_movie;
use movie_similarity::rank_all;
use movie_similarity::score_ge;
use movie_similarity::top_k;

fn r(user_id: u32, movie_id: u32, rating: i32) -> Rating {
    Rating { user_id, movie_id, rating }
}

fn m(id: u32, title: &str, genres: &str) -> Movie {
    Movie { id, title: String::from(title), genres: String::from(genres) }
}

// The worked catalogue: three movies, two raters, ratings at scale ten.
// Movie 1 and 2 share user 1 with (5.0, 5.0); movie 1 and 3 share
// user 2 with (1.0, 1.0); movie 2 and 3 share nobody.
fn sample_ratings() -> Vec<Rating> {
    vec![r(1, 1, 50), r(1, 2, 50), r(2, 1, 10), r(2, 3, 10)]
}

fn sample_catalog() -> Vec<Movie> {
    vec![m(1, "A", "Action"), m(2, "B", "Comedy"), m(3, "C", "Drama")]
}

#[test]
fn three_movie_scenario() {
    let index = build(&sample_ratings());
    let picks = top_k(1, &index);
    // 1 vs 2: 25.0 / (sqrt(5)*sqrt(5)) = 5.0;
    // 1 vs 1: 26.0 / (sqrt(6)*sqrt(6)) = 4.33...;
    // 1 vs 3: 1.0 / (sqrt(1)*sqrt(1)) = 1.0.
    assert_eq!(
        picks,
        vec![
            (2, SimScore::Valid { dot: 2500, sum_a: 50, sum_b: 50 }),
            (1, SimScore::Valid { dot: 2600, sum_a: 60, sum_b: 60 }),
            (3, SimScore::Valid { dot: 100, sum_a: 10, sum_b: 10 }),
        ]
    );
}

#[test]
fn invalid_scores_are_dropped() {
    let index = build(&sample_ratings());
    // Movie 2 shares no rater with movie 3: only itself and movie 1 remain.
    let picks = top_k(2, &index);
    assert_eq!(picks.len(), 2);
    assert!(picks.iter().all(|e| e.0 != 3));
}

#[test]
fn own_movie_is_not_excluded() {
    let index = build(&sample_ratings());
    let picks = top_k(1, &index);
    assert!(picks.iter().any(|e| e.0 == 1));
}

#[test]
fn at_most_ten_entries_all_valid() {
    // Twelve movies, all rated by one user: every pair is valid.
    let mut ratings = Vec::new();
    for movie in 1..=12u32 {
        ratings.push(r(1, movie, 40));
    }
    let index = build(&ratings);
    let picks = top_k(1, &index);
    assert_eq!(picks.len(), 10);
    assert!(picks.iter().all(|e| e.1 != SimScore::Invalid));
}

#[test]
fn results_sorted_descending() {
    let mut ratings = sample_ratings();
    ratings.push(r(1, 4, 20));
    ratings.push(r(2, 4, 30));
    let index = build(&ratings);
    let picks = top_k(1, &index);
    for w in picks.windows(2) {
        assert!(score_ge(&w[0].1, &w[1].1));
    }
}

#[test]
fn selection_is_repeatable() {
    let index = build(&sample_ratings());
    let first = top_k(1, &index);
    let second = top_k(1, &index);
    assert_eq!(first, second);
}

#[test]
fn build_groups_without_loss() {
    // Duplicate (user, movie) pairs are all kept; the groups together
    // hold exactly the input collection.
    let ratings = vec![r(1, 7, 10), r(1, 7, 10), r(2, 7, 30), r(2, 9, 50)];
    let index = build(&ratings);
    assert_eq!(index.len(), 2);
    let seven = index.ratings_of(7).unwrap();
    let nine = index.ratings_of(9).unwrap();
    assert_eq!(seven.len() + nine.len(), ratings.len());
    assert_eq!(seven.as_slice(), &ratings[0..3]);
    assert_eq!(nine.as_slice(), &ratings[3..4]);
}

#[test]
fn build_keeps_first_appearance_order() {
    let ratings = vec![r(1, 5, 10), r(1, 3, 20), r(2, 5, 30), r(2, 8, 40)];
    let index = build(&ratings);
    assert_eq!(index.len(), 3);
    assert_eq!(index.key_at(0), 5);
    assert_eq!(index.key_at(1), 3);
    assert_eq!(index.key_at(2), 8);
    assert!(index.ratings_of(4).is_none());
}

#[test]
fn rank_all_resolves_titles_in_key_order() {
    let index = build(&sample_ratings());
    let catalog = sample_catalog();
    let ranked = rank_all(&index, &catalog);
    assert_eq!(ranked.len(), 3);
    assert_eq!(ranked[0].0.title, "A");
    let neighbour_titles: Vec<&str> = ranked[0].1.iter().map(|n| n.title.as_str()).collect();
    assert_eq!(neighbour_titles, vec!["B", "A", "C"]);
    assert_eq!(ranked[1].0.title, "B");
    assert_eq!(ranked[1].1.len(), 2);
    assert_eq!(ranked[2].0.title, "C");
    assert_eq!(ranked[2].1.len(), 2);
}

#[test]
fn find_movie_takes_first_match() {
    let catalog = vec![m(4, "first", ""), m(4, "second", ""), m(6, "other", "")];
    assert_eq!(find_movie(&catalog, 4).title, "first");
    assert_eq!(find_movie(&catalog, 6).title, "other");
    assert!(has_movie(&catalog, 4));
    assert!(!has_movie(&catalog, 5));
}

#[test]
fn genres_split_on_bar() {
    let movie = m(1, "A", "Action|Comedy|Film-Noir");
    assert_eq!(movie.genres(), vec!["Action", "Comedy", "Film-Noir"]);
}

#[test]
fn genres_without_delimiter_is_one_piece() {
    let movie = m(1, "A", "Drama");
    assert_eq!(movie.genres(), vec!["Drama"]);
}

#[test]
fn empty_genre_string_gives_one_empty_genre() {
    let movie = m(1, "A", "");
    assert_eq!(movie.genres(), vec![""]);
}

#[test]
fn consecutive_delimiters_keep_empty_pieces() {
    let movie = m(1, "A", "|Action||");
    assert_eq!(movie.genres(), vec!["", "Action", "", ""]);
}
