//! The rating index: ratings grouped by the movie they rate.
//!
//! Building the index is a pure grouping. Each rating is appended to
//! the group of its movie, a movie gets its group on its first rating,
//! and nothing is validated, dropped or deduplicated. Keys stand in
//! first-appearance order and each group keeps load order, so the index
//! is a deterministic function of the rating sequence.

use vstd::prelude::*;
use vstd::multiset::Multiset;
use crate::score::Rating;

verus! {

/// First position of `id` among the entry keys, `-1` when absent.
pub open spec fn spec_key_index(es: Seq<(u32, Seq<Rating>)>, id: u32) -> int
    decreases es.len(),
{
    if es.len() == 0 {
        -1
    } else if es[0].0 == id {
        0
    } else {
        let r = spec_key_index(es.skip(1), id);
        if r < 0 {
            -1
        } else {
            r + 1
        }
    }
}

/// One grouping step: append `r` to its movie's group, or open a new
/// group at the end when the movie is not yet a key.
pub open spec fn spec_add(es: Seq<(u32, Seq<Rating>)>, r: Rating) -> Seq<(u32, Seq<Rating>)> {
    let k = spec_key_index(es, r.movie_id);
    if k < 0 {
        es.push((r.movie_id, seq![r]))
    } else {
        es.update(k, (es[k].0, es[k].1.push(r)))
    }
}

/// The whole index, as the left fold of `spec_add` over the ratings.
pub open spec fn spec_build(rs: Seq<Rating>) -> Seq<(u32, Seq<Rating>)>
    decreases rs.len(),
{
    if rs.len() == 0 {
        Seq::empty()
    } else {
        spec_add(spec_build(rs.drop_last()), rs.last())
    }
}

/// Mapping from movie identifier to the ordered sequence of ratings
/// that movie received. Built once from the full rating collection and
/// read-only afterwards.
pub struct RatingIndex {
    keys: Vec<u32>,
    groups: Vec<Vec<Rating>>,
}

impl RatingIndex {
    #[verifier::type_invariant]
    closed spec fn keys_match_groups(&self) -> bool {
        self.keys@.len() == self.groups@.len()
    }
}

spec fn entries_of(keys: Seq<u32>, groups: Seq<Vec<Rating>>) -> Seq<(u32, Seq<Rating>)> {
    Seq::new(keys.len(), |i: int| (keys[i], groups[i]@))
}

impl View for RatingIndex {
    type V = Seq<(u32, Seq<Rating>)>;

    closed spec fn view(&self) -> Seq<(u32, Seq<Rating>)> {
        entries_of(self.keys@, self.groups@)
    }
}

impl RatingIndex {
    /// Every movie identifier is a key at most once.
    pub open spec fn well_formed(&self) -> bool {
        forall|i: int, j: int|
            0 <= i < j < self@.len() ==> (#[trigger] self@[i]).0 != (#[trigger] self@[j]).0
    }

    /// How many movies have at least one rating.
    pub fn len(&self) -> (n: usize)
        ensures
            n == self@.len(),
    {
        self.keys.len()
    }

    /// The key at a position, for walking the index in key order.
    pub fn key_at(&self, i: usize) -> (id: u32)
        requires
            i < self@.len(),
        ensures
            id == self@[i as int].0,
    {
        self.keys[i]
    }

    /// The rating group at a position, for walking the index in order.
    pub fn group_at(&self, i: usize) -> (g: &Vec<Rating>)
        requires
            i < self@.len(),
        ensures
            g@ == self@[i as int].1,
    {
        proof {
            use_type_invariant(self);
        }
        &self.groups[i]
    }

    /// The ratings of the movie `id`, or `None` when no rating names it.
    pub fn ratings_of(&self, id: u32) -> (r: Option<&Vec<Rating>>)
        ensures
            match r {
                Some(v) => spec_key_index(self@, id) >= 0 && v@ == self@[spec_key_index(
                    self@,
                    id,
                )].1,
                None => spec_key_index(self@, id) == -1,
            },
    {
        proof {
            use_type_invariant(self);
        }
        let n = self.keys.len();
        let mut k: usize = 0;
        while k < n
            invariant
                n == self.keys@.len(),
                n == self@.len(),
                k <= n,
                forall|m: int| 0 <= m < k ==> (#[trigger] self@[m]).0 != id,
                forall|m: int| 0 <= m < n ==> (#[trigger] self@[m]).0 == self.keys@[m],
                forall|m: int| 0 <= m < n ==> (#[trigger] self@[m]).1 == self.groups@[m]@,
                self.groups@.len() == n,
            decreases n - k,
        {
            if self.keys[k] == id {
                proof {
                    lemma_key_index_of(self@, id, k as int);
                }
                return Some(&self.groups[k]);
            }
            k = k + 1;
        }
        proof {
            lemma_key_index_none(self@, id);
        }
        None
    }
}

/// When `k` is the first position whose key is `id`, `spec_key_index`
/// finds exactly `k`.
pub proof fn lemma_key_index_of(es: Seq<(u32, Seq<Rating>)>, id: u32, k: int)
    requires
        0 <= k < es.len(),
        es[k].0 == id,
        forall|m: int| 0 <= m < k ==> (#[trigger] es[m]).0 != id,
    ensures
        spec_key_index(es, id) == k,
    decreases k,
{
    if k > 0 {
        lemma_key_index_of(es.skip(1), id, k - 1);
    }
}

/// When no key is `id`, `spec_key_index` reports absence.
pub proof fn lemma_key_index_none(es: Seq<(u32, Seq<Rating>)>, id: u32)
    requires
        forall|m: int| 0 <= m < es.len() ==> (#[trigger] es[m]).0 != id,
    ensures
        spec_key_index(es, id) == -1,
    decreases es.len(),
{
    if es.len() > 0 {
        lemma_key_index_none(es.skip(1), id);
    }
}

/// `spec_key_index` only ever answers `-1` or the first position of `id`.
pub proof fn lemma_key_index_valid(es: Seq<(u32, Seq<Rating>)>, id: u32)
    ensures
        spec_key_index(es, id) == -1 || (0 <= spec_key_index(es, id) < es.len() && es[spec_key_index(
            es,
            id,
        )].0 == id),
        forall|m: int| 0 <= m < spec_key_index(es, id) ==> (#[trigger] es[m]).0 != id,
    decreases es.len(),
{
    if es.len() > 0 && es[0].0 != id {
        lemma_key_index_valid(es.skip(1), id);
        let k = spec_key_index(es, id);
        if k >= 0 {
            assert forall|m: int| 0 <= m < k implies (#[trigger] es[m]).0 != id by {
                if m > 0 {
                    assert(es.skip(1)[m - 1] == es[m]);
                }
            }
        }
    }
}

/// A key that stands anywhere in the entries is found.
pub proof fn lemma_key_index_present(es: Seq<(u32, Seq<Rating>)>, m: int)
    requires
        0 <= m < es.len(),
    ensures
        spec_key_index(es, es[m].0) >= 0,
    decreases m,
{
    if es[0].0 != es[m].0 {
        lemma_key_index_present(es.skip(1), m - 1);
    }
}

/// Groups the rating collection by movie identifier. Appends each
/// rating to its movie's group in order, creating the group on first
/// use; duplicates are kept and nothing is dropped.
pub fn build(ratings: &Vec<Rating>) -> (index: RatingIndex)
    ensures
        index.well_formed(),
        index@ == spec_build(ratings@),
{
    let mut keys: Vec<u32> = Vec::new();
    let mut groups: Vec<Vec<Rating>> = Vec::new();
    let ghost mut es: Seq<(u32, Seq<Rating>)> = Seq::empty();
    proof {
        assert(es =~= entries_of(keys@, groups@));
    }
    let rs_len = ratings.len();
    let mut n: usize = 0;
    while n < rs_len
        invariant
            rs_len == ratings@.len(),
            n <= rs_len,
            keys@.len() == groups@.len(),
            es == entries_of(keys@, groups@),
            es == spec_build(ratings@.take(n as int)),
            forall|i: int, j: int| 0 <= i < j < es.len() ==> (#[trigger] es[i]).0 != (#[trigger] es[j]).0,
        decreases rs_len - n,
    {
        let r = ratings[n];
        let keys_len = keys.len();
        let mut k: usize = 0;
        let mut found = false;
        while k < keys_len && !found
            invariant
                keys_len == keys@.len(),
                keys@.len() == groups@.len(),
                es == entries_of(keys@, groups@),
                k <= keys_len,
                !found ==> forall|m: int| 0 <= m < k ==> (#[trigger] es[m]).0 != r.movie_id,
                found ==> k < keys_len && es[k as int].0 == r.movie_id && (forall|m: int|
                    0 <= m < k ==> (#[trigger] es[m]).0 != r.movie_id),
            decreases keys_len - k, (if found { 0int } else { 1int }),
        {
            if keys[k] == r.movie_id {
                found = true;
            } else {
                k = k + 1;
            }
        }
        let ghost pre = es;
        if found {
            proof {
                lemma_key_index_of(es, r.movie_id, k as int);
            }
            groups[k].push(r);
            proof {
                es = entries_of(keys@, groups@);
                assert(es =~= spec_add(pre, r));
            }
        } else {
            proof {
                lemma_key_index_none(es, r.movie_id);
            }
            keys.push(r.movie_id);
            let mut g: Vec<Rating> = Vec::new();
            g.push(r);
            groups.push(g);
            proof {
                es = entries_of(keys@, groups@);
                assert(g@ =~= seq![r]);
                assert(es =~= spec_add(pre, r));
            }
        }
        proof {
            assert(ratings@.take(n as int + 1).drop_last() =~= ratings@.take(n as int));
            assert(ratings@.take(n as int + 1).last() == ratings@[n as int]);
        }
        n = n + 1;
    }
    proof {
        assert(ratings@.take(rs_len as int) =~= ratings@);
    }
    let index = RatingIndex { keys, groups };
    proof {
        assert(index@ =~= es);
    }
    index
}

/// All ratings the index holds, over all groups, as a multiset.
pub open spec fn index_contents(es: Seq<(u32, Seq<Rating>)>) -> Multiset<Rating>
    decreases es.len(),
{
    if es.len() == 0 {
        Multiset::empty()
    } else {
        index_contents(es.drop_last()).add(es.last().1.to_multiset())
    }
}

proof fn lemma_add_contents(es: Seq<(u32, Seq<Rating>)>, r: Rating)
    ensures
        index_contents(spec_add(es, r)) =~= index_contents(es).insert(r),
    decreases es.len(),
{
    broadcast use vstd::seq_lib::group_to_multiset_ensures;

    let k = spec_key_index(es, r.movie_id);
    lemma_key_index_valid(es, r.movie_id);
    if k < 0 {
        let es2 = es.push((r.movie_id, seq![r]));
        assert(es2.drop_last() =~= es);
        assert(seq![r] =~= Seq::<Rating>::empty().push(r));
        assert(seq![r].to_multiset() =~= Multiset::empty().insert(r));
    } else if k == es.len() - 1 {
        let es2 = spec_add(es, r);
        assert(es2.drop_last() =~= es.drop_last());
        assert(es2.last().1 == es.last().1.push(r));
        assert(es2.last().1.to_multiset() =~= es.last().1.to_multiset().insert(r));
    } else {
        let es2 = spec_add(es, r);
        assert(es2.drop_last() =~= spec_add(es.drop_last(), r)) by {
            lemma_key_index_of(es.drop_last(), r.movie_id, k);
            assert(es2.drop_last() =~= es.drop_last().update(
                k,
                (es[k].0, es[k].1.push(r)),
            ));
        }
        assert(es2.last() == es.last());
        lemma_add_contents(es.drop_last(), r);
    }
}

/// Building the index is a pure grouping: taken together, the groups
/// hold exactly the input rating collection, nothing dropped and
/// nothing duplicated.
pub proof fn lemma_build_is_grouping(rs: Seq<Rating>)
    ensures
        index_contents(spec_build(rs)) =~= rs.to_multiset(),
    decreases rs.len(),
{
    broadcast use vstd::seq_lib::group_to_multiset_ensures;

    if rs.len() == 0 {
        assert(rs =~= Seq::empty());
        assert(rs.to_multiset() =~= Multiset::empty());
    } else {
        lemma_build_is_grouping(rs.drop_last());
        lemma_add_contents(spec_build(rs.drop_last()), rs.last());
        assert(rs.drop_last().push(rs.last()) =~= rs);
        assert(rs.drop_last().push(rs.last()).to_multiset() =~= rs.drop_last().to_multiset().insert(
            rs.last(),
        ));
    }
}

} // verus!
