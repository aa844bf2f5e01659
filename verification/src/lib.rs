//! Movie-to-movie similarity over shared user ratings.
//!
//! The library groups a flat rating collection by movie, scores every
//! ordered pair of rated movies on the ratings of their common raters,
//! and keeps, for each movie, the ten highest-scoring neighbours.
//!
//! Rating values are plain integers: a caller that starts from a decimal
//! rating scale fixes a scale factor and hands in the scaled values.
//! Scores are kept exactly, as the integer components of the value
//! `dot / (sqrt(sum_a) * sqrt(sum_b))`, so comparisons are exact.

pub mod index;
pub mod movie;
pub mod rank;
pub mod score;

pub use index::RatingIndex;
pub use index::build;
pub use movie::Movie;
pub use movie::find_movie;
pub use movie::has_movie;
pub use rank::rank_all;
pub use rank::top_k;
pub use score::Rating;
pub use score::SimScore;
pub use score::score;
pub use score::score_ge;
