//! Ranking stored entries against a typed query.
//!
//! A search fetches the candidate entries, scores each text entry against
//! the query, drops the non-matches — those whose score is the sentinel — and
//! returns the rest in descending score order, entries with equal scores in
//! listing order.

use vstd::prelude::*;

use crate::entry::ClipboardEntry;
use crate::entry::ContentModel;
use crate::entry::EntryModel;
use crate::fzf::best_fzf_score;
use crate::fzf::fzf_best;
use crate::fzf::MAX_SCORED_TEXT_LEN;
use crate::fzf::NO_SCORE;
use crate::store::HistoryStore;

verus! {

/// The score of a stored entry against a query: its text payload scored by
/// the ranker; an image entry scores the sentinel.
pub open spec fn query_score(e: EntryModel, q: Seq<char>) -> int {
    match e.content {
        ContentModel::Text(t) => fzf_best(t, q),
        ContentModel::Image(_) => NO_SCORE as int,
    }
}

/// Whether a stored entry matches a query: its score is above the sentinel.
pub open spec fn matches_query(e: EntryModel, q: Seq<char>) -> bool {
    query_score(e, q) > NO_SCORE as int
}

/// Whether entries stand in descending score order.
pub open spec fn score_sorted(s: Seq<EntryModel>, q: Seq<char>) -> bool {
    forall|i: int, j: int|
        0 <= i < j < s.len() ==> query_score(#[trigger] s[i], q) >= query_score(#[trigger] s[j], q)
}

/// Stable descending insertion of an entry into a ranking: the entry goes
/// after every entry scoring at least as much as it.
pub open spec fn rank_insert(sorted: Seq<EntryModel>, e: EntryModel, q: Seq<char>) -> Seq<
    EntryModel,
>
    decreases sorted.len(),
{
    if sorted.len() == 0 {
        seq![e]
    } else if query_score(sorted[0], q) < query_score(e, q) {
        seq![e] + sorted
    } else {
        seq![sorted[0]] + rank_insert(sorted.drop_first(), e, q)
    }
}

/// The position `rank_insert` files an entry at.
pub open spec fn rank_point(sorted: Seq<EntryModel>, e: EntryModel, q: Seq<char>) -> int
    decreases sorted.len(),
{
    if sorted.len() == 0 {
        0
    } else if query_score(sorted[0], q) < query_score(e, q) {
        0
    } else {
        1 + rank_point(sorted.drop_first(), e, q)
    }
}

/// The ranking of a candidate log against a query: its matching entries in
/// descending score order, equal scores in log order.
pub open spec fn ranked(s: Seq<EntryModel>, q: Seq<char>) -> Seq<EntryModel>
    decreases s.len(),
{
    if s.len() == 0 {
        Seq::empty()
    } else {
        let rest = ranked(s.drop_last(), q);
        if matches_query(s.last(), q) {
            rank_insert(rest, s.last(), q)
        } else {
            rest
        }
    }
}

/// An entry is filed just after the entries scoring at least as much as it
/// and just before the rest.
pub proof fn lemma_rank_point_props(sorted: Seq<EntryModel>, e: EntryModel, q: Seq<char>)
    ensures
        0 <= rank_point(sorted, e, q) <= sorted.len(),
        forall|i: int|
            0 <= i < rank_point(sorted, e, q) ==> query_score(#[trigger] sorted[i], q)
                >= query_score(e, q),
        rank_point(sorted, e, q) < sorted.len() ==> query_score(
            sorted[rank_point(sorted, e, q)],
            q,
        ) < query_score(e, q),
        rank_insert(sorted, e, q) == sorted.insert(rank_point(sorted, e, q), e),
    decreases sorted.len(),
{
    let k = rank_point(sorted, e, q);
    if sorted.len() == 0 {
        assert(rank_insert(sorted, e, q) =~= sorted.insert(0, e));
    } else if query_score(sorted[0], q) < query_score(e, q) {
        assert(rank_insert(sorted, e, q) =~= sorted.insert(0, e));
    } else {
        let t = sorted.drop_first();
        lemma_rank_point_props(t, e, q);
        let kt = rank_point(t, e, q);
        assert forall|i: int| 0 <= i < k implies query_score(#[trigger] sorted[i], q)
            >= query_score(e, q) by {
            if i > 0 {
                assert(sorted[i] == t[i - 1]);
            }
        }
        if k < sorted.len() {
            assert(sorted[k] == t[kt]);
        }
        assert(rank_insert(sorted, e, q) =~= sorted.insert(k, e)) by {
            let lhs = seq![sorted[0]] + rank_insert(t, e, q);
            let rhs = sorted.insert(k, e);
            assert(rank_insert(t, e, q) == t.insert(kt, e));
            assert(lhs.len() == rhs.len());
            assert forall|i: int| 0 <= i < lhs.len() implies lhs[i] == rhs[i] by {
                if i == 0 {
                } else if i <= kt {
                    assert(lhs[i] == t.insert(kt, e)[i - 1]);
                    assert(t.insert(kt, e)[i - 1] == t[i - 1]);
                    assert(rhs[i] == sorted[i]);
                    assert(sorted[i] == t[i - 1]);
                } else if i == kt + 1 {
                    assert(lhs[i] == t.insert(kt, e)[i - 1]);
                } else {
                    assert(lhs[i] == t.insert(kt, e)[i - 1]);
                    assert(t.insert(kt, e)[i - 1] == t[i - 2]);
                    assert(rhs[i] == sorted[i - 1]);
                    assert(sorted[i - 1] == t[i - 2]);
                }
            }
        }
    }
}

/// Inserting into a descending ranking keeps it descending.
pub proof fn lemma_rank_insert_sorted(sorted: Seq<EntryModel>, e: EntryModel, q: Seq<char>)
    requires
        score_sorted(sorted, q),
    ensures
        score_sorted(rank_insert(sorted, e, q), q),
{
    lemma_rank_point_props(sorted, e, q);
    let k = rank_point(sorted, e, q);
    let out = rank_insert(sorted, e, q);
    assert forall|i: int, j: int| 0 <= i < j < out.len() implies query_score(#[trigger] out[i], q)
        >= query_score(#[trigger] out[j], q) by {
        let oi = if i < k {
            i
        } else {
            i - 1
        };
        let oj = if j < k {
            j
        } else {
            j - 1
        };
        if i != k {
            assert(out[i] == sorted.insert(k, e)[i] && sorted.insert(k, e)[i] == sorted[oi]);
        }
        if j != k {
            assert(out[j] == sorted.insert(k, e)[j] && sorted.insert(k, e)[j] == sorted[oj]);
        }
        if i == k && j != k {
            // Whatever follows the insertion point scored below the entry.
            assert(query_score(sorted[k], q) < query_score(e, q));
            if oj > k {
                assert(query_score(sorted[k], q) >= query_score(sorted[oj], q));
            }
        }
    }
}

/// A ranking is in descending score order.
pub proof fn lemma_ranked_sorted(s: Seq<EntryModel>, q: Seq<char>)
    ensures
        score_sorted(ranked(s, q), q),
    decreases s.len(),
{
    if s.len() > 0 {
        lemma_ranked_sorted(s.drop_last(), q);
        if matches_query(s.last(), q) {
            lemma_rank_insert_sorted(ranked(s.drop_last(), q), s.last(), q);
        }
    }
}

/// A ranking holds exactly the matching entries of its log, kept with their
/// multiplicity.
pub proof fn lemma_ranked_holds_matches(s: Seq<EntryModel>, q: Seq<char>)
    ensures
        ranked(s, q).to_multiset() == s.filter(|e: EntryModel| matches_query(e, q)).to_multiset(),
    decreases s.len(),
{
    broadcast use vstd::seq_lib::group_to_multiset_ensures;

    reveal(Seq::filter);
    if s.len() == 0 {
        assert(ranked(s, q) =~= s.filter(|e: EntryModel| matches_query(e, q)));
    } else {
        lemma_ranked_holds_matches(s.drop_last(), q);
        let rest = ranked(s.drop_last(), q);
        let frest = s.drop_last().filter(|e: EntryModel| matches_query(e, q));
        if matches_query(s.last(), q) {
            lemma_rank_point_props(rest, s.last(), q);
            assert(ranked(s, q) == rest.insert(rank_point(rest, s.last(), q), s.last()));
            assert(ranked(s, q).to_multiset() =~= rest.to_multiset().insert(s.last()));
            assert(s.filter(|e: EntryModel| matches_query(e, q)) == frest.push(s.last()));
            assert(frest.push(s.last()).to_multiset() =~= frest.to_multiset().insert(s.last()));
        }
    }
}

/// Ranks candidate entries against a query: the entries whose text scores
/// above the sentinel, in descending score order, equal scores in candidate
/// order.
pub fn search_entries(entries: &Vec<ClipboardEntry>, query: &String) -> (r: Vec<ClipboardEntry>)
    requires
        forall|i: int|
            0 <= i < entries@.len() ==> ((#[trigger] entries@[i]@).content matches
                ContentModel::Text(t) ==> t.len() <= MAX_SCORED_TEXT_LEN),
    ensures
        r@.map_values(|e: ClipboardEntry| e@) == ranked(
            entries@.map_values(|e: ClipboardEntry| e@),
            query@,
        ),
{
    let ghost s = entries@.map_values(|e: ClipboardEntry| e@);
    let ghost q = query@;
    let n = entries.len();
    let mut out: Vec<ClipboardEntry> = Vec::new();
    let mut out_scores: Vec<i32> = Vec::new();
    let mut j: usize = 0;
    proof {
        assert(s.take(0) =~= Seq::<EntryModel>::empty());
    }
    while j < n
        invariant
            j <= n,
            n == entries@.len(),
            s == entries@.map_values(|e: ClipboardEntry| e@),
            q == query@,
            forall|i: int|
                0 <= i < entries@.len() ==> ((#[trigger] entries@[i]@).content matches
                    ContentModel::Text(t) ==> t.len() <= MAX_SCORED_TEXT_LEN),
            out@.map_values(|e: ClipboardEntry| e@) == ranked(s.take(j as int), q),
            out_scores@.len() == out@.len(),
            forall|k: int|
                0 <= k < out@.len() ==> (#[trigger] out_scores@[k]) as int == query_score(
                    out@.map_values(|e: ClipboardEntry| e@)[k],
                    q,
                ),
        decreases n - j,
    {
        let ghost om = out@.map_values(|e: ClipboardEntry| e@);
        proof {
            assert(s.take(j as int + 1).drop_last() =~= s.take(j as int));
            assert(s.take(j as int + 1).last() == s[j as int]);
            assert(s[j as int] == entries@[j as int]@);
        }
        let score: i32 = match &entries[j].content {
            crate::entry::ClipboardHistory::Text(t) => best_fzf_score(t, query),
            crate::entry::ClipboardHistory::Image(_) => NO_SCORE,
        };
        proof {
            assert(score as int == query_score(s[j as int], q));
        }
        if score > NO_SCORE {
            let e = entries[j].clone();
            let ghost em = e@;
            let m = out.len();
            let mut k: usize = m;
            let mut c: usize = 0;
            while c < m
                invariant
                    c <= m,
                    m == out@.len(),
                    out_scores@.len() == m,
                    om == out@.map_values(|e2: ClipboardEntry| e2@),
                    forall|i: int|
                        0 <= i < m ==> (#[trigger] out_scores@[i]) as int == query_score(om[i], q),
                    k == m || (k < c && query_score(om[k as int], q) < score as int),
                    forall|i: int|
                        0 <= i < c && i < k ==> query_score(#[trigger] om[i], q) >= score as int,
                decreases m - c,
            {
                if k == m {
                    if out_scores[c] < score {
                        k = c;
                    }
                }
                c = c + 1;
            }
            proof {
                lemma_rank_point_props(om, em, q);
                let rp = rank_point(om, em, q);
                if (k as int) < rp {
                    assert(query_score(om[k as int], q) < query_score(em, q));
                } else if rp < k as int {
                    assert(query_score(om[rp], q) >= query_score(em, q));
                }
                assert(rp == k as int);
            }
            let ghost pre = out@;
            let ghost pre_scores = out_scores@;
            out.insert(k, e);
            out_scores.insert(k, score);
            proof {
                assert(out@ == pre.insert(k as int, e));
                assert(out_scores@ == pre_scores.insert(k as int, score));
                let om2 = out@.map_values(|e2: ClipboardEntry| e2@);
                assert(om2 =~= om.insert(k as int, em)) by {
                    assert forall|i: int| 0 <= i < om2.len() implies om2[i] == om.insert(
                        k as int,
                        em,
                    )[i] by {
                        assert(om2[i] == out@[i]@);
                        if i < k as int {
                            assert(out@[i] == pre[i]);
                            assert(om[i] == pre[i]@);
                        } else if i == k as int {
                            assert(out@[i] == e);
                        } else {
                            assert(out@[i] == pre[i - 1]);
                            assert(om[i - 1] == pre[i - 1]@);
                        }
                    }
                }
                assert forall|i: int| 0 <= i < om2.len() implies (#[trigger] out_scores@[i]) as int
                    == query_score(om2[i], q) by {
                    if i < k as int {
                        assert(out_scores@[i] == pre_scores[i]);
                        assert(om2[i] == om[i]);
                    } else if i == k as int {
                        assert(out_scores@[i] == score);
                        assert(om2[i] == em);
                    } else {
                        assert(out_scores@[i] == pre_scores[i - 1]);
                        assert(om2[i] == om[i - 1]);
                    }
                }
            }
        }
        j = j + 1;
    }
    proof {
        assert(s.take(n as int) =~= s);
    }
    out
}

impl HistoryStore {
    /// Ranks the stored entries against a query: the text entries the query
    /// matches, newest-scored-best first — descending score, equal scores in
    /// listing order. Image entries and non-matches are excluded.
    pub fn search(&self, query: &String) -> (r: Vec<ClipboardEntry>)
        requires
            self.well_formed(),
            forall|i: int|
                0 <= i < self@.len() ==> ((#[trigger] self@[i]).content matches ContentModel::Text(
                    t,
                ) ==> t.len() <= MAX_SCORED_TEXT_LEN),
        ensures
            r@.map_values(|e: ClipboardEntry| e@) == ranked(self@, query@),
            score_sorted(ranked(self@, query@), query@),
    {
        let all = self.get_all_entries();
        proof {
            lemma_ranked_sorted(self@, query@);
            assert forall|i: int| 0 <= i < all@.len() implies ((#[trigger] all@[i]@).content
                matches ContentModel::Text(t) ==> t.len() <= MAX_SCORED_TEXT_LEN) by {
                assert(all@[i]@ == all@.map_values(|e: ClipboardEntry| e@)[i]);
                assert(all@.map_values(|e: ClipboardEntry| e@)[i] == self@[i]);
            }
        }
        search_entries(&all, query)
    }
}

} // verus!
