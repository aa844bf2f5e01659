//! Top-K selection: for one movie, every movie in the index is scored
//! against it, invalid scores are discarded, the rest are sorted by
//! score descending, and the first ten remain.
//!
//! Equal scores keep index order: a candidate is placed after every
//! entry whose score is at least its own. That tie-break, together
//! with the fixed walk over the index, makes the result a function of
//! the index alone.

use vstd::prelude::*;
use crate::score::Rating;
use crate::score::SimScore;
use crate::score::lemma_score_ge_total;
use crate::score::lemma_score_ge_trans;
use crate::score::lemma_spec_score_wf;
use crate::score::score;
use crate::score::score_fits;
use crate::score::score_ge;
use crate::score::score_val_ge;
use crate::score::score_wf;
use crate::score::spec_score;
use crate::index::RatingIndex;
use crate::index::lemma_key_index_present;
use crate::index::lemma_key_index_valid;
use crate::index::spec_key_index;
use crate::movie::Movie;
use crate::movie::find_movie;
use crate::movie::spec_movie_index;

verus! {

broadcast use vstd::seq::group_seq_axioms;

/// Every entry carries a valid, well-formed score.
pub open spec fn all_valid(s: Seq<(u32, SimScore)>) -> bool {
    forall|i: int|
        0 <= i < s.len() ==> (#[trigger] s[i]).1 is Valid && score_wf(s[i].1)
}

/// Scores never go up along the sequence.
pub open spec fn sorted_desc(s: Seq<(u32, SimScore)>) -> bool {
    forall|i: int, j: int|
        0 <= i < j < s.len() ==> score_val_ge((#[trigger] s[i]).1, (#[trigger] s[j]).1)
}

/// Insertion into a score-sorted sequence: the new entry goes after
/// every entry whose score is at least its own.
pub open spec fn spec_insert(s: Seq<(u32, SimScore)>, e: (u32, SimScore)) -> Seq<(u32, SimScore)>
    decreases s.len(),
{
    if s.len() == 0 {
        seq![e]
    } else if score_val_ge(s[0].1, e.1) {
        seq![s[0]] + spec_insert(s.skip(1), e)
    } else {
        seq![e] + s
    }
}

proof fn lemma_insert_props(s: Seq<(u32, SimScore)>, e: (u32, SimScore))
    requires
        sorted_desc(s),
        all_valid(s),
        e.1 is Valid,
        score_wf(e.1),
    ensures
        spec_insert(s, e).len() == s.len() + 1,
        sorted_desc(spec_insert(s, e)),
        all_valid(spec_insert(s, e)),
        forall|x: (u32, SimScore)|
            #[trigger] spec_insert(s, e).contains(x) <==> (s.contains(x) || x == e),
    decreases s.len(),
{
    let t = spec_insert(s, e);
    if s.len() == 0 {
        assert(t =~= seq![e]);
        assert(t[0] == e);
        assert(forall|x: (u32, SimScore)| t.contains(x) ==> x == t[0]);
    } else if score_val_ge(s[0].1, e.1) {
        let s1 = s.skip(1);
        assert(sorted_desc(s1)) by {
            assert forall|i: int, j: int| 0 <= i < j < s1.len() implies score_val_ge(
                (#[trigger] s1[i]).1,
                (#[trigger] s1[j]).1,
            ) by {
                assert(s1[i] == s[i + 1]);
                assert(s1[j] == s[j + 1]);
            }
        }
        assert(all_valid(s1)) by {
            assert forall|i: int| 0 <= i < s1.len() implies (#[trigger] s1[i]).1 is Valid
                && score_wf(s1[i].1) by {
                assert(s1[i] == s[i + 1]);
            }
        }
        lemma_insert_props(s1, e);
        let t1 = spec_insert(s1, e);
        assert(t =~= seq![s[0]] + t1);
        assert forall|x: (u32, SimScore)| #[trigger] t.contains(x) implies (s.contains(x) || x
            == e) by {
            let i = choose|i: int| 0 <= i < t.len() && t[i] == x;
            if i == 0 {
                assert(s[0] == x);
            } else {
                assert(t1.contains(t[i]));
                if s1.contains(x) {
                    let m = choose|m: int| 0 <= m < s1.len() && s1[m] == x;
                    assert(s[m + 1] == x);
                }
            }
        }
        assert forall|x: (u32, SimScore)| s.contains(x) || x == e implies #[trigger] t.contains(
            x,
        ) by {
            if s.contains(x) {
                let m = choose|m: int| 0 <= m < s.len() && s[m] == x;
                if m == 0 {
                    assert(t[0] == x);
                } else {
                    assert(s1[m - 1] == x);
                    assert(t1.contains(x));
                    let m1 = choose|m1: int| 0 <= m1 < t1.len() && t1[m1] == x;
                    assert(t[m1 + 1] == x);
                }
            } else {
                assert(t1.contains(e));
                let m1 = choose|m1: int| 0 <= m1 < t1.len() && t1[m1] == e;
                assert(t[m1 + 1] == e);
            }
        }
        assert(sorted_desc(t)) by {
            assert forall|i: int, j: int| 0 <= i < j < t.len() implies score_val_ge(
                (#[trigger] t[i]).1,
                (#[trigger] t[j]).1,
            ) by {
                if i == 0 {
                    assert(t[j] == t1[j - 1]);
                    assert(t1.contains(t1[j - 1]));
                    let x = t[j];
                    if s1.contains(x) {
                        let m = choose|m: int| 0 <= m < s1.len() && s1[m] == x;
                        assert(s[m + 1] == x);
                        assert(score_val_ge(s[0].1, x.1));
                    } else {
                        assert(x == e);
                    }
                } else {
                    assert(t1[i - 1] == t[i]);
                    assert(t1[j - 1] == t[j]);
                }
            }
        }
        assert(all_valid(t)) by {
            assert forall|i: int| 0 <= i < t.len() implies (#[trigger] t[i]).1 is Valid
                && score_wf(t[i].1) by {
                if i > 0 {
                    assert(t1[i - 1] == t[i]);
                }
            }
        }
    } else {
        assert(t =~= seq![e] + s);
        lemma_score_ge_total(s[0].1, e.1);
        assert(score_val_ge(e.1, s[0].1));
        assert(sorted_desc(t)) by {
            assert forall|i: int, j: int| 0 <= i < j < t.len() implies score_val_ge(
                (#[trigger] t[i]).1,
                (#[trigger] t[j]).1,
            ) by {
                if i == 0 {
                    assert(t[j] == s[j - 1]);
                    if j > 1 {
                        assert(score_val_ge(s[0].1, s[j - 1].1));
                        lemma_score_ge_trans(e.1, s[0].1, s[j - 1].1);
                    }
                } else {
                    assert(t[i] == s[i - 1]);
                    assert(t[j] == s[j - 1]);
                }
            }
        }
        assert(all_valid(t)) by {
            assert forall|i: int| 0 <= i < t.len() implies (#[trigger] t[i]).1 is Valid
                && score_wf(t[i].1) by {
                if i > 0 {
                    assert(t[i] == s[i - 1]);
                }
            }
        }
        assert forall|x: (u32, SimScore)| #[trigger] t.contains(x) implies (s.contains(x) || x
            == e) by {
            let i = choose|i: int| 0 <= i < t.len() && t[i] == x;
            if i > 0 {
                assert(s[i - 1] == x);
            }
        }
        assert forall|x: (u32, SimScore)| s.contains(x) || x == e implies #[trigger] t.contains(
            x,
        ) by {
            if s.contains(x) {
                let m = choose|m: int| 0 <= m < s.len() && s[m] == x;
                assert(t[m + 1] == x);
            } else {
                assert(t[0] == e);
            }
        }
    }
}

proof fn lemma_spec_insert_at(s: Seq<(u32, SimScore)>, e: (u32, SimScore), k: int)
    requires
        0 <= k <= s.len(),
        forall|m: int| 0 <= m < k ==> score_val_ge((#[trigger] s[m]).1, e.1),
        k < s.len() ==> !score_val_ge(s[k].1, e.1),
    ensures
        spec_insert(s, e) == s.insert(k, e),
    decreases k,
{
    if k == 0 {
        if s.len() == 0 {
            assert(spec_insert(s, e) =~= s.insert(0, e));
        } else {
            assert(spec_insert(s, e) =~= s.insert(0, e));
        }
    } else {
        assert(score_val_ge(s[0].1, e.1));
        let s1 = s.skip(1);
        assert forall|m: int| 0 <= m < k - 1 implies score_val_ge((#[trigger] s1[m]).1, e.1) by {
            assert(s1[m] == s[m + 1]);
        }
        assert(k - 1 < s1.len() ==> !score_val_ge(s1[k - 1].1, e.1));
        lemma_spec_insert_at(s1, e, k - 1);
        assert(spec_insert(s, e) =~= s.insert(k, e));
    }
}

/// Inserts `e` into the score-sorted `v`, after every entry whose
/// score is at least `e`'s.
fn insert_sorted(v: &mut Vec<(u32, SimScore)>, e: (u32, SimScore))
    requires
        sorted_desc(old(v)@),
        all_valid(old(v)@),
        e.1 is Valid,
        score_wf(e.1),
    ensures
        final(v)@ == spec_insert(old(v)@, e),
        sorted_desc(final(v)@),
        all_valid(final(v)@),
        final(v)@.len() == old(v)@.len() + 1,
{
    let len = v.len();
    let mut k: usize = 0;
    while k < len && score_ge(&v[k].1, &e.1)
        invariant
            len == v@.len(),
            k <= len,
            v@ == old(v)@,
            all_valid(v@),
            e.1 is Valid,
            score_wf(e.1),
            forall|m: int| 0 <= m < k ==> score_val_ge((#[trigger] v@[m]).1, e.1),
        decreases len - k,
    {
        k = k + 1;
    }
    proof {
        lemma_spec_insert_at(v@, e, k as int);
        lemma_insert_props(v@, e);
    }
    v.insert(k, e);
}

/// The scored, filtered and sorted neighbour list of the target
/// ratings `t` against the index entries, before truncation: every
/// entry with a valid score, inserted in index order.
pub open spec fn spec_ranked(t: Seq<Rating>, es: Seq<(u32, Seq<Rating>)>) -> Seq<(u32, SimScore)>
    decreases es.len(),
{
    if es.len() == 0 {
        Seq::empty()
    } else {
        let prev = spec_ranked(t, es.drop_last());
        let s = spec_score(t, es.last().1);
        if s is Valid {
            spec_insert(prev, (es.last().0, s))
        } else {
            prev
        }
    }
}

/// What `top_k` returns: the first ten entries of the ranked list for
/// the target's own rating group.
pub open spec fn spec_top_k(target_id: u32, es: Seq<(u32, Seq<Rating>)>) -> Seq<(u32, SimScore)> {
    let t = es[spec_key_index(es, target_id)].1;
    let ranked = spec_ranked(t, es);
    ranked.take(if ranked.len() < 10 { ranked.len() as int } else { 10 })
}

/// The bounds under which a whole index can be scored against the
/// ratings `t`.
pub open spec fn all_fit(t: Seq<Rating>, es: Seq<(u32, Seq<Rating>)>) -> bool {
    forall|j: int| 0 <= j < es.len() ==> score_fits(t, (#[trigger] es[j]).1)
}

/// The ranked list is sorted, carries only valid scores, and draws
/// every entry from the index: an entry's id is an index key and its
/// score is the score of that key's group.
pub proof fn lemma_ranked_props(t: Seq<Rating>, es: Seq<(u32, Seq<Rating>)>)
    requires
        all_fit(t, es),
    ensures
        sorted_desc(spec_ranked(t, es)),
        all_valid(spec_ranked(t, es)),
        spec_ranked(t, es).len() <= es.len(),
        forall|x: (u32, SimScore)|
            #[trigger] spec_ranked(t, es).contains(x) ==> exists|j: int|
                0 <= j < es.len() && x.0 == (#[trigger] es[j]).0 && x.1 == spec_score(t, es[j].1),
    decreases es.len(),
{
    if es.len() > 0 {
        let es0 = es.drop_last();
        assert(all_fit(t, es0)) by {
            assert forall|j: int| 0 <= j < es0.len() implies score_fits(
                t,
                (#[trigger] es0[j]).1,
            ) by {
                assert(es0[j] == es[j]);
            }
        }
        lemma_ranked_props(t, es0);
        let prev = spec_ranked(t, es0);
        let s = spec_score(t, es.last().1);
        if s is Valid {
            lemma_spec_score_wf(t, es.last().1);
            lemma_insert_props(prev, (es.last().0, s));
            let r = spec_ranked(t, es);
            assert forall|x: (u32, SimScore)| #[trigger] r.contains(x) implies exists|j: int|
                0 <= j < es.len() && x.0 == (#[trigger] es[j]).0 && x.1 == spec_score(
                    t,
                    es[j].1,
                ) by {
                if prev.contains(x) {
                    let j = choose|j: int|
                        0 <= j < es0.len() && x.0 == (#[trigger] es0[j]).0 && x.1 == spec_score(
                            t,
                            es0[j].1,
                        );
                    assert(es[j] == es0[j]);
                    assert(0 <= j < es.len() && x.0 == es[j].0 && x.1 == spec_score(t, es[j].1));
                } else {
                    assert(x == (es.last().0, s));
                    let j = es.len() - 1;
                    assert(0 <= j < es.len() && x.0 == es[j].0 && x.1 == spec_score(t, es[j].1));
                }
            }
        } else {
            let r = spec_ranked(t, es);
            assert forall|x: (u32, SimScore)| #[trigger] r.contains(x) implies exists|j: int|
                0 <= j < es.len() && x.0 == (#[trigger] es[j]).0 && x.1 == spec_score(
                    t,
                    es[j].1,
                ) by {
                let j = choose|j: int|
                    0 <= j < es0.len() && x.0 == (#[trigger] es0[j]).0 && x.1 == spec_score(
                        t,
                        es0[j].1,
                    );
                assert(es[j] == es0[j]);
                assert(0 <= j < es.len() && x.0 == es[j].0 && x.1 == spec_score(t, es[j].1));
            }
        }
    }
}

/// The ranked list is complete: every index entry whose score against
/// `t` is valid appears in it, under its key and with that score.
pub proof fn lemma_ranked_complete(t: Seq<Rating>, es: Seq<(u32, Seq<Rating>)>)
    requires
        all_fit(t, es),
    ensures
        forall|j: int|
            0 <= j < es.len() && spec_score(t, (#[trigger] es[j]).1) is Valid ==> spec_ranked(
                t,
                es,
            ).contains((es[j].0, spec_score(t, es[j].1))),
    decreases es.len(),
{
    if es.len() > 0 {
        let es0 = es.drop_last();
        assert(all_fit(t, es0)) by {
            assert forall|j: int| 0 <= j < es0.len() implies score_fits(
                t,
                (#[trigger] es0[j]).1,
            ) by {
                assert(es0[j] == es[j]);
            }
        }
        lemma_ranked_complete(t, es0);
        lemma_ranked_props(t, es0);
        let prev = spec_ranked(t, es0);
        let s = spec_score(t, es.last().1);
        let r = spec_ranked(t, es);
        assert forall|j: int|
            0 <= j < es.len() && spec_score(t, (#[trigger] es[j]).1) is Valid implies r.contains(
            (es[j].0, spec_score(t, es[j].1)),
        ) by {
            if s is Valid {
                lemma_spec_score_wf(t, es.last().1);
                lemma_insert_props(prev, (es.last().0, s));
                if j < es.len() - 1 {
                    assert(es0[j] == es[j]);
                    assert(prev.contains((es[j].0, spec_score(t, es[j].1))));
                } else {
                    assert((es[j].0, spec_score(t, es[j].1)) == (es.last().0, s));
                }
            } else {
                assert(j < es.len() - 1);
                assert(es0[j] == es[j]);
            }
        }
    }
}

/// A movie is not excluded from its own neighbour list: when its score
/// against itself is valid, its own entry stands in the ranked list,
/// and in the selection whenever no more than ten entries survive.
pub proof fn lemma_self_in_ranking(target_id: u32, es: Seq<(u32, Seq<Rating>)>)
    requires
        spec_key_index(es, target_id) >= 0,
        all_fit(es[spec_key_index(es, target_id)].1, es),
        spec_score(
            es[spec_key_index(es, target_id)].1,
            es[spec_key_index(es, target_id)].1,
        ) is Valid,
    ensures
        spec_ranked(es[spec_key_index(es, target_id)].1, es).contains(
            (
                es[spec_key_index(es, target_id)].0,
                spec_score(
                    es[spec_key_index(es, target_id)].1,
                    es[spec_key_index(es, target_id)].1,
                ),
            ),
        ),
        spec_ranked(es[spec_key_index(es, target_id)].1, es).len() <= 10 ==> spec_top_k(
            target_id,
            es,
        ).contains(
            (
                es[spec_key_index(es, target_id)].0,
                spec_score(
                    es[spec_key_index(es, target_id)].1,
                    es[spec_key_index(es, target_id)].1,
                ),
            ),
        ),
{
    let ki = spec_key_index(es, target_id);
    lemma_key_index_valid(es, target_id);
    let t = es[ki].1;
    lemma_ranked_complete(t, es);
    let ranked = spec_ranked(t, es);
    assert(ranked.contains((es[ki].0, spec_score(t, es[ki].1))));
    if ranked.len() <= 10 {
        assert(spec_top_k(target_id, es) =~= ranked);
    }
}

/// Scores the target movie against every movie in the index — itself
/// included — drops the invalid scores, sorts the rest by score
/// descending (equal scores keep index order) and keeps the first ten.
pub fn top_k(target_id: u32, index: &RatingIndex) -> (res: Vec<(u32, SimScore)>)
    requires
        spec_key_index(index@, target_id) >= 0,
        all_fit(index@[spec_key_index(index@, target_id)].1, index@),
    ensures
        res@ == spec_top_k(target_id, index@),
        res@.len() <= 10,
        sorted_desc(res@),
        all_valid(res@),
{
    let ghost es = index@;
    let ghost t = index@[spec_key_index(index@, target_id)].1;
    let target = match index.ratings_of(target_id) {
        Some(tv) => tv,
        None => {
            proof {
                assert(false);
            }
            return Vec::new();
        },
    };
    let n = index.len();
    let mut sims: Vec<(u32, SimScore)> = Vec::new();
    let mut i: usize = 0;
    while i < n
        invariant
            n == es.len(),
            es == index@,
            t == target@,
            all_fit(t, es),
            i <= n,
            sims@ == spec_ranked(t, es.take(i as int)),
            sorted_desc(sims@),
            all_valid(sims@),
        decreases n - i,
    {
        let group = index.group_at(i);
        let s = score(target, group);
        proof {
            lemma_spec_score_wf(t, es[i as int].1);
        }
        match s {
            SimScore::Valid { .. } => {
                let id = index.key_at(i);
                insert_sorted(&mut sims, (id, s));
            },
            SimScore::Invalid => {},
        }
        proof {
            assert(es.take(i as int + 1).drop_last() =~= es.take(i as int));
            assert(es.take(i as int + 1).last() == es[i as int]);
        }
        i = i + 1;
    }
    proof {
        assert(es.take(n as int) =~= es);
    }
    sims.truncate(10);
    proof {
        let ranked = spec_ranked(t, es);
        if ranked.len() < 10 {
            assert(sims@ =~= ranked.take(ranked.len() as int));
        } else {
            assert(sims@ =~= ranked.take(10));
        }
    }
    sims
}

/// The selection never keeps more than ten entries, and never an
/// invalid score.
pub proof fn lemma_top_k_bounds(target_id: u32, es: Seq<(u32, Seq<Rating>)>)
    requires
        spec_key_index(es, target_id) >= 0,
        all_fit(es[spec_key_index(es, target_id)].1, es),
    ensures
        spec_top_k(target_id, es).len() <= 10,
        all_valid(spec_top_k(target_id, es)),
{
    let t = es[spec_key_index(es, target_id)].1;
    lemma_ranked_props(t, es);
    let ranked = spec_ranked(t, es);
    let r = spec_top_k(target_id, es);
    let k = if ranked.len() < 10 {
        ranked.len() as int
    } else {
        10
    };
    assert forall|i: int| 0 <= i < r.len() implies (#[trigger] r[i]).1 is Valid && score_wf(
        r[i].1,
    ) by {
        assert(r == ranked.take(k));
        assert(ranked.take(k)[i] == ranked[i]);
    }
}

/// The selection is sorted by score descending: each entry's score is
/// at least the next one's.
pub proof fn lemma_top_k_sorted(target_id: u32, es: Seq<(u32, Seq<Rating>)>)
    requires
        spec_key_index(es, target_id) >= 0,
        all_fit(es[spec_key_index(es, target_id)].1, es),
    ensures
        forall|i: int|
            0 <= i && i + 1 < spec_top_k(target_id, es).len() ==> score_val_ge(
                (#[trigger] spec_top_k(target_id, es)[i]).1,
                spec_top_k(target_id, es)[i + 1].1,
            ),
{
    let t = es[spec_key_index(es, target_id)].1;
    lemma_ranked_props(t, es);
    let ranked = spec_ranked(t, es);
    let r = spec_top_k(target_id, es);
    let k = if ranked.len() < 10 {
        ranked.len() as int
    } else {
        10
    };
    assert forall|i: int| 0 <= i && i + 1 < r.len() implies score_val_ge(
        (#[trigger] r[i]).1,
        r[i + 1].1,
    ) by {
        assert(r == ranked.take(k));
        assert(ranked.take(k)[i] == ranked[i]);
        assert(ranked.take(k)[i + 1] == ranked[i + 1]);
    }
}

/// Walks the whole index, one entry per rated movie in key order:
/// resolves the movie's record from the catalog, runs the top-K
/// selection for it, and resolves each chosen neighbour's record.
///
/// Every rated movie must stand in the catalog; a missing record is
/// corrupt input and is excluded here rather than recovered from.
pub fn rank_all(index: &RatingIndex, movies: &Vec<Movie>) -> (res: Vec<(Movie, Vec<Movie>)>)
    requires
        forall|i: int, j: int|
            0 <= i < index@.len() && 0 <= j < index@.len() ==> score_fits(
                (#[trigger] index@[i]).1,
                (#[trigger] index@[j]).1,
            ),
        forall|i: int|
            0 <= i < index@.len() ==> spec_movie_index(movies@, (#[trigger] index@[i]).0) >= 0,
    ensures
        res@.len() == index@.len(),
        forall|i: int|
            0 <= i < res@.len() ==> (#[trigger] res@[i]).0 == movies@[spec_movie_index(
                movies@,
                index@[i].0,
            )],
        forall|i: int|
            0 <= i < res@.len() ==> (#[trigger] res@[i]).1@.len() == spec_top_k(
                index@[i].0,
                index@,
            ).len(),
        forall|i: int, j: int|
            0 <= i < res@.len() && 0 <= j < res@[i].1@.len() ==> (#[trigger] res@[i].1@[j])
                == movies@[spec_movie_index(movies@, spec_top_k(index@[i].0, index@)[j].0)],
{
    let ghost es = index@;
    let ghost ms = movies@;
    let n = index.len();
    let mut res: Vec<(Movie, Vec<Movie>)> = Vec::new();
    let mut i: usize = 0;
    while i < n
        invariant
            n == es.len(),
            es == index@,
            ms == movies@,
            i <= n,
            forall|x: int, y: int|
                0 <= x < es.len() && 0 <= y < es.len() ==> score_fits(
                    (#[trigger] es[x]).1,
                    (#[trigger] es[y]).1,
                ),
            forall|x: int| 0 <= x < es.len() ==> spec_movie_index(ms, (#[trigger] es[x]).0) >= 0,
            res@.len() == i,
            forall|x: int|
                0 <= x < i ==> (#[trigger] res@[x]).0 == ms[spec_movie_index(ms, es[x].0)],
            forall|x: int|
                0 <= x < i ==> (#[trigger] res@[x]).1@.len() == spec_top_k(es[x].0, es).len(),
            forall|x: int, y: int|
                0 <= x < i && 0 <= y < res@[x].1@.len() ==> (#[trigger] res@[x].1@[y])
                    == ms[spec_movie_index(ms, spec_top_k(es[x].0, es)[y].0)],
        decreases n - i,
    {
        let id = index.key_at(i);
        proof {
            lemma_key_index_present(es, i as int);
            lemma_key_index_valid(es, id);
        }
        let picks = top_k(id, index);
        proof {
            let ki = spec_key_index(es, id);
            let t = es[ki].1;
            lemma_ranked_props(t, es);
            let ranked = spec_ranked(t, es);
            let k = if ranked.len() < 10 {
                ranked.len() as int
            } else {
                10
            };
            assert forall|j: int| 0 <= j < picks@.len() implies spec_movie_index(
                ms,
                (#[trigger] picks@[j]).0,
            ) >= 0 by {
                assert(picks@ == ranked.take(k));
                assert(ranked.take(k)[j] == ranked[j]);
                assert(ranked.contains(ranked[j]));
                let m = choose|m: int|
                    0 <= m < es.len() && ranked[j].0 == (#[trigger] es[m]).0 && ranked[j].1
                        == spec_score(t, es[m].1);
                assert(spec_movie_index(ms, es[m].0) >= 0);
            }
        }
        let movie = find_movie(movies, id).clone();
        let picks_len = picks.len();
        let mut neighbours: Vec<Movie> = Vec::new();
        let mut j: usize = 0;
        while j < picks_len
            invariant
                picks_len == picks@.len(),
                ms == movies@,
                j <= picks_len,
                forall|y: int|
                    0 <= y < picks@.len() ==> spec_movie_index(ms, (#[trigger] picks@[y]).0) >= 0,
                neighbours@.len() == j,
                forall|y: int|
                    0 <= y < j ==> (#[trigger] neighbours@[y]) == ms[spec_movie_index(
                        ms,
                        picks@[y].0,
                    )],
            decreases picks_len - j,
        {
            let nb = find_movie(movies, picks[j].0).clone();
            neighbours.push(nb);
            j = j + 1;
        }
        res.push((movie, neighbours));
        i = i + 1;
    }
    res
}

/// Selection is repeatable: the result is a function of the target and
/// the index alone, so two runs over the same index agree exactly.
pub proof fn lemma_top_k_deterministic(
    r1: Seq<(u32, SimScore)>,
    r2: Seq<(u32, SimScore)>,
    target_id: u32,
    es: Seq<(u32, Seq<Rating>)>,
)
    requires
        r1 == spec_top_k(target_id, es),
        r2 == spec_top_k(target_id, es),
    ensures
        r1 == r2,
{
}

} // verus!
