//! The movie catalog records.
//!
//! A movie is immutable once loaded: identifier, title, and its genre
//! list as one `|`-delimited string. The genre list is recovered by
//! splitting that string; a movie is found in the catalog by the first
//! record that carries its identifier.

use vstd::prelude::*;

verus! {

broadcast use vstd::seq::group_seq_axioms;

/// One catalog record, exactly as the loader produced it.
pub struct Movie {
    pub id: u32,
    pub title: String,
    pub genres: String,
}

impl Clone for Movie {
    fn clone(&self) -> (res: Movie)
        ensures
            res == *self,
    {
        Movie { id: self.id, title: self.title.clone(), genres: self.genres.clone() }
    }
}

/// A genre string split on `|`: one piece more than there are
/// delimiters, pieces in order, empty pieces kept.
pub open spec fn spec_genres(s: Seq<char>) -> Seq<Seq<char>>
    decreases s.len(),
{
    if s.len() == 0 {
        seq![s]
    } else if s[0] == '|' {
        seq![Seq::<char>::empty()] + spec_genres(s.skip(1))
    } else {
        let r = spec_genres(s.skip(1));
        seq![seq![s[0]] + r[0]] + r.skip(1)
    }
}

/// The views of a sequence of string slices.
pub open spec fn views_of(ps: Seq<&str>) -> Seq<Seq<char>> {
    ps.map_values(|p: &str| p@)
}

proof fn lemma_genres_no_bar(s: Seq<char>)
    requires
        forall|m: int| 0 <= m < s.len() ==> s[m] != '|',
    ensures
        spec_genres(s) =~~= seq![s],
    decreases s.len(),
{
    if s.len() > 0 {
        lemma_genres_no_bar(s.skip(1));
        let r = spec_genres(s.skip(1));
        assert(r[0] == s.skip(1));
        assert(seq![s[0]] + s.skip(1) =~= s);
        assert(r.skip(1) =~= Seq::<Seq<char>>::empty());
        assert(spec_genres(s) =~~= seq![s]);
    }
}

proof fn lemma_genres_first_bar(s: Seq<char>, k: int)
    requires
        0 <= k < s.len(),
        s[k] == '|',
        forall|m: int| 0 <= m < k ==> s[m] != '|',
    ensures
        spec_genres(s) =~~= seq![s.take(k)] + spec_genres(s.skip(k + 1)),
    decreases k,
{
    if k == 0 {
        assert(s.take(0) =~= Seq::<char>::empty());
        assert(spec_genres(s) =~~= seq![s.take(0)] + spec_genres(s.skip(1)));
    } else {
        assert(s.skip(1)[k - 1] == s[k]);
        assert forall|m: int| 0 <= m < k - 1 implies s.skip(1)[m] != '|' by {
            assert(s.skip(1)[m] == s[m + 1]);
        }
        lemma_genres_first_bar(s.skip(1), k - 1);
        let r = spec_genres(s.skip(1));
        assert(r[0] == s.skip(1).take(k - 1));
        assert(seq![s[0]] + s.skip(1).take(k - 1) =~= s.take(k));
        assert(s.skip(1).skip(k) =~= s.skip(k + 1));
        assert(r.skip(1) =~~= spec_genres(s.skip(k + 1)));
        assert(spec_genres(s) =~~= seq![s.take(k)] + spec_genres(s.skip(k + 1)));
    }
}

impl Movie {
    /// The genre list: the genre string split on `|`, order kept,
    /// empty pieces kept. A movie with an empty genre string has one
    /// empty genre.
    pub fn genres<'a>(&'a self) -> (res: Vec<&'a str>)
        ensures
            views_of(res@) == spec_genres(self.genres@),
    {
        let s: &str = self.genres.as_str();
        let n = s.unicode_len();
        let mut res: Vec<&str> = Vec::new();
        let mut start: usize = 0;
        let mut i: usize = 0;
        proof {
            assert(s@.skip(0) =~= s@);
            assert(views_of(res@) + spec_genres(s@.skip(0)) =~~= spec_genres(s@));
        }
        while i < n
            invariant
                n == s@.len(),
                s@ == self.genres@,
                start <= i <= n,
                forall|m: int| start <= m < i ==> s@[m] != '|',
                views_of(res@) + spec_genres(s@.skip(start as int)) =~~= spec_genres(s@),
            decreases n - i,
        {
            if s.get_char(i) == '|' {
                let piece = s.substring_char(start, i);
                let ghost pre = res@;
                res.push(piece);
                proof {
                    let tail = s@.skip(start as int);
                    assert(tail[i - start as int] == s@[i as int]);
                    assert forall|m: int| 0 <= m < i - start as int implies tail[m] != '|' by {
                        assert(tail[m] == s@[start as int + m]);
                    }
                    lemma_genres_first_bar(tail, i - start as int);
                    assert(tail.take(i - start as int) =~= s@.subrange(start as int, i as int));
                    assert(tail.skip(i - start as int + 1) =~= s@.skip(i as int + 1));
                    assert(views_of(res@) =~~= views_of(pre).push(piece@));
                    assert(views_of(res@) + spec_genres(s@.skip(i as int + 1)) =~~= spec_genres(
                        s@,
                    ));
                }
                start = i + 1;
            }
            i = i + 1;
        }
        let piece = s.substring_char(start, n);
        let ghost pre = res@;
        res.push(piece);
        proof {
            let tail = s@.skip(start as int);
            assert forall|m: int| 0 <= m < tail.len() implies tail[m] != '|' by {
                assert(tail[m] == s@[start as int + m]);
            }
            lemma_genres_no_bar(tail);
            assert(piece@ =~= tail);
            assert(views_of(res@) =~~= views_of(pre).push(piece@));
            assert(views_of(res@) =~~= spec_genres(s@));
        }
        res
    }
}

/// First position of the movie `id` in the catalog, `-1` when absent.
pub open spec fn spec_movie_index(ms: Seq<Movie>, id: u32) -> int
    decreases ms.len(),
{
    if ms.len() == 0 {
        -1
    } else if ms[0].id == id {
        0
    } else {
        let r = spec_movie_index(ms.skip(1), id);
        if r < 0 {
            -1
        } else {
            r + 1
        }
    }
}

/// When `k` is the first position whose record carries `id`,
/// `spec_movie_index` finds exactly `k`.
pub proof fn lemma_movie_index_of(ms: Seq<Movie>, id: u32, k: int)
    requires
        0 <= k < ms.len(),
        ms[k].id == id,
        forall|m: int| 0 <= m < k ==> (#[trigger] ms[m]).id != id,
    ensures
        spec_movie_index(ms, id) == k,
    decreases k,
{
    if k > 0 {
        lemma_movie_index_of(ms.skip(1), id, k - 1);
    }
}

/// When no record carries `id`, `spec_movie_index` reports absence.
pub proof fn lemma_movie_index_none(ms: Seq<Movie>, id: u32)
    requires
        forall|m: int| 0 <= m < ms.len() ==> (#[trigger] ms[m]).id != id,
    ensures
        spec_movie_index(ms, id) == -1,
    decreases ms.len(),
{
    if ms.len() > 0 {
        lemma_movie_index_none(ms.skip(1), id);
    }
}

/// Whether the catalog holds a record for the movie `id`. Callers of
/// `find_movie` that cannot know check with this first.
pub fn has_movie(movies: &Vec<Movie>, movie_id: u32) -> (r: bool)
    ensures
        r == (spec_movie_index(movies@, movie_id) >= 0),
{
    let n = movies.len();
    let mut k: usize = 0;
    while k < n
        invariant
            n == movies@.len(),
            k <= n,
            forall|m: int| 0 <= m < k ==> (#[trigger] movies@[m]).id != movie_id,
        decreases n - k,
    {
        if movies[k].id == movie_id {
            proof {
                lemma_movie_index_of(movies@, movie_id, k as int);
            }
            return true;
        }
        k = k + 1;
    }
    proof {
        lemma_movie_index_none(movies@, movie_id);
    }
    false
}

/// The first catalog record of the movie `movie_id`. The caller owes
/// the record's presence: a rated movie missing from the catalog is
/// corrupt input, not a recoverable state.
pub fn find_movie<'a>(movies: &'a Vec<Movie>, movie_id: u32) -> (res: &'a Movie)
    requires
        spec_movie_index(movies@, movie_id) >= 0,
    ensures
        *res == movies@[spec_movie_index(movies@, movie_id)],
        res.id == movie_id,
{
    let n = movies.len();
    let mut k: usize = 0;
    while k < n
        invariant
            n == movies@.len(),
            k <= n,
            spec_movie_index(movies@, movie_id) >= 0,
            forall|m: int| 0 <= m < k ==> (#[trigger] movies@[m]).id != movie_id,
        decreases n - k,
    {
        if movies[k].id == movie_id {
            proof {
                lemma_movie_index_of(movies@, movie_id, k as int);
            }
            return &movies[k];
        }
        k = k + 1;
    }
    proof {
        lemma_movie_index_none(movies@, movie_id);
        assert(false);
    }
    &movies[0]
}

} // verus!
