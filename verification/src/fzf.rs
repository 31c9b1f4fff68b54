//! Fuzzy-subsequence scoring of a text against a query.
//!
//! A query aligns against a text as a gapped subsequence, matched character
//! by character without regard to ASCII case. Each matched character earns a
//! fixed reward plus a positional bonus; skipping text characters between two
//! matched ones costs a gap penalty per skipped position. A sentinel value
//! far below any achievable score marks text positions that cannot end an
//! alignment. The score of a pair is the best value over all end positions.

use vstd::prelude::*;

use crate::text::chars_eq_ignore_case;
use crate::text::chars_of;
use crate::text::eq_ignore_case;
use crate::text::is_lowercase_char;
use crate::text::is_uppercase_char;

verus! {

/// Bonus for a match on the very first character of the text.
pub const INITIAL_SCORE: i32 = 5;

/// Bonus for a match right after a boundary character.
pub const BOUNDARY_SCORE: i32 = 3;

/// Bonus for a match on an uppercase character right after a lowercase one.
pub const CAMEL_CASE_SCORE: i32 = 2;

/// Reward for each matched query character.
pub const MATCH_SCORE: i32 = 10;

/// Penalty per text character skipped between two matched ones.
pub const GAP_SCORE: i32 = -2;

/// The sentinel: no alignment ends at this position.
pub const NO_SCORE: i32 = -10000;

/// Texts up to this many characters keep every score within `i32`.
pub const MAX_SCORED_TEXT_LEN: usize = 100000000;

/// Whether a character marks a word boundary.
pub open spec fn is_boundary_char(c: char) -> bool {
    c == '/' || c == '_' || c == '-' || c == '.' || c == ' '
}

/// The positional bonus of text position `j`: the first character earns the
/// initial bonus; an uppercase character right after a lowercase one earns
/// the camel-case bonus; a character right after a boundary character earns
/// the boundary bonus; camel-case outranks boundary where both apply; every
/// other position earns nothing.
pub open spec fn bonus_at(text: Seq<char>, j: int) -> int {
    if j == 0 {
        INITIAL_SCORE as int
    } else if is_lowercase_char(text[j - 1]) && is_uppercase_char(text[j]) {
        CAMEL_CASE_SCORE as int
    } else if is_boundary_char(text[j - 1]) {
        BOUNDARY_SCORE as int
    } else {
        0
    }
}

/// The larger of two scores.
pub open spec fn max2(a: int, b: int) -> int {
    if a >= b {
        a
    } else {
        b
    }
}

/// The code points of a score vector, as unbounded integers.
pub open spec fn as_ints(s: Seq<i32>) -> Seq<int> {
    Seq::new(s.len(), |i: int| s[i] as int)
}

/// The best score carried into text position `j` from alignments of one
/// fewer query character ending strictly earlier: each carried score pays the
/// gap penalty per text position crossed and saturates at the sentinel.
pub open spec fn carry_at(prev: Seq<int>, j: int) -> int
    decreases j,
{
    if j <= 0 {
        NO_SCORE as int
    } else {
        max2(prev[j - 1], max2(carry_at(prev, j - 1) + GAP_SCORE as int, NO_SCORE as int))
    }
}

/// The score of aligning the first query character at text position `j`: a
/// case-insensitive match earns the match reward plus the positional bonus;
/// anything else is the sentinel.
pub open spec fn first_cell(text: Seq<char>, q: char, j: int) -> int {
    if eq_ignore_case(q, text[j]) {
        MATCH_SCORE as int + bonus_at(text, j)
    } else {
        NO_SCORE as int
    }
}

/// The score of aligning one more query character at text position `j`,
/// given the previous query character's row: a match needs a carried score
/// above the sentinel; with none, the position cannot end an alignment.
pub open spec fn next_cell(text: Seq<char>, q: char, prev: Seq<int>, j: int) -> int {
    if !eq_ignore_case(q, text[j]) {
        NO_SCORE as int
    } else if carry_at(prev, j) == NO_SCORE as int {
        NO_SCORE as int
    } else {
        carry_at(prev, j) + bonus_at(text, j) + MATCH_SCORE as int
    }
}

/// Row `i` of the alignment table: for each text position, the best score of
/// aligning the first `i + 1` query characters ending exactly there.
pub open spec fn score_row(text: Seq<char>, query: Seq<char>, i: int) -> Seq<int>
    decreases i,
{
    if i <= 0 {
        Seq::new(text.len(), |j: int| first_cell(text, query[0], j))
    } else {
        let prev = score_row(text, query, i - 1);
        Seq::new(text.len(), |j: int| next_cell(text, query[i], prev, j))
    }
}

/// The final alignment row for a text and a query: for each text position,
/// the best score of aligning the whole query ending exactly there; all
/// sentinel when the query is empty.
pub open spec fn fzf_scores(text: Seq<char>, query: Seq<char>) -> Seq<int> {
    if query.len() == 0 {
        Seq::new(text.len(), |j: int| NO_SCORE as int)
    } else {
        score_row(text, query, query.len() - 1)
    }
}

/// The best score in a row, or the sentinel for an empty row.
pub open spec fn row_max(s: Seq<int>) -> int
    decreases s.len(),
{
    if s.len() == 0 {
        NO_SCORE as int
    } else {
        max2(s.last(), row_max(s.drop_last()))
    }
}

/// The score of a text against a query: the best over all end positions, or
/// the sentinel when the query is empty or cannot be aligned.
pub open spec fn fzf_best(text: Seq<char>, query: Seq<char>) -> int {
    row_max(fzf_scores(text, query))
}

/// The sum of match reward and positional bonus over text positions
/// `0 ..= j`: the highest score any alignment ending by position `j` can
/// reach, and exactly what the text scores against itself there.
pub open spec fn prefix_weight(text: Seq<char>, j: int) -> int
    decreases j + 1,
{
    if j < 0 {
        0
    } else {
        prefix_weight(text, j - 1) + MATCH_SCORE as int + bonus_at(text, j)
    }
}

/// Every positional bonus lies between zero and the initial bonus.
pub proof fn lemma_bonus_range(text: Seq<char>, j: int)
    ensures
        0 <= bonus_at(text, j) <= INITIAL_SCORE as int,
{
}

/// Prefix weights only grow along the text.
pub proof fn lemma_prefix_weight_mono(text: Seq<char>, j1: int, j2: int)
    requires
        j1 <= j2,
    ensures
        prefix_weight(text, j1) <= prefix_weight(text, j2),
    decreases j2 - j1,
{
    if j1 < j2 {
        lemma_prefix_weight_mono(text, j1, j2 - 1);
        lemma_bonus_range(text, j2);
    }
}

/// A prefix weight never exceeds the largest per-position weight times the
/// number of positions.
pub proof fn lemma_prefix_weight_bound(text: Seq<char>, j: int)
    requires
        -1 <= j,
    ensures
        0 <= prefix_weight(text, j) <= 15 * (j + 1),
    decreases j + 1,
{
    if j >= 0 {
        lemma_prefix_weight_bound(text, j - 1);
        lemma_bonus_range(text, j);
    }
}

/// A carried score never drops below the sentinel.
pub proof fn lemma_carry_lower(prev: Seq<int>, j: int)
    ensures
        carry_at(prev, j) >= NO_SCORE as int,
{
    if j > 0 {
        assert(carry_at(prev, j) >= max2(carry_at(prev, j - 1) + GAP_SCORE as int, NO_SCORE as int));
    }
}

/// With every earlier cell below its prefix weight, the carried score stays
/// below the prefix weight of the previous position.
pub proof fn lemma_carry_upper(text: Seq<char>, prev: Seq<int>, j: int)
    requires
        0 <= j <= prev.len(),
        forall|k: int| 0 <= k < prev.len() ==> prev[k] <= prefix_weight(text, k),
    ensures
        carry_at(prev, j) <= prefix_weight(text, j - 1),
    decreases j,
{
    lemma_prefix_weight_bound(text, j - 1);
    if j > 0 {
        lemma_carry_upper(text, prev, j - 1);
        lemma_prefix_weight_mono(text, j - 2, j - 1);
    }
}

/// Every cell of every row lies between the sentinel and the prefix weight
/// of its position.
pub proof fn lemma_row_bounds(text: Seq<char>, query: Seq<char>, i: int)
    requires
        0 <= i < query.len(),
    ensures
        score_row(text, query, i).len() == text.len(),
        forall|j: int|
            0 <= j < text.len() ==> NO_SCORE as int <= #[trigger] score_row(text, query, i)[j]
                <= prefix_weight(text, j),
    decreases i,
{
    let row = score_row(text, query, i);
    if i == 0 {
        assert forall|j: int| 0 <= j < text.len() implies NO_SCORE as int <= #[trigger] row[j]
            <= prefix_weight(text, j) by {
            lemma_bonus_range(text, j);
            lemma_prefix_weight_bound(text, j - 1);
        }
    } else {
        lemma_row_bounds(text, query, i - 1);
        let prev = score_row(text, query, i - 1);
        assert forall|j: int| 0 <= j < text.len() implies NO_SCORE as int <= #[trigger] row[j]
            <= prefix_weight(text, j) by {
            lemma_bonus_range(text, j);
            lemma_carry_lower(prev, j);
            lemma_carry_upper(text, prev, j);
            lemma_prefix_weight_bound(text, j - 1);
        }
    }
}

/// Scoring a text against itself fills the diagonal with the full prefix
/// weight: every character matches itself in place, with no gaps.
pub proof fn lemma_self_diagonal(text: Seq<char>, i: int)
    requires
        0 <= i < text.len(),
    ensures
        score_row(text, text, i)[i] == prefix_weight(text, i),
    decreases i,
{
    assert(eq_ignore_case(text[i], text[i]));
    if i == 0 {
        assert(prefix_weight(text, -1) == 0);
        assert(score_row(text, text, 0)[0] == first_cell(text, text[0], 0));
    } else {
        lemma_self_diagonal(text, i - 1);
        lemma_row_bounds(text, text, i - 1);
        let prev = score_row(text, text, i - 1);
        lemma_carry_upper(text, prev, i);
        lemma_prefix_weight_bound(text, i - 1);
        assert(carry_at(prev, i) >= prev[i - 1]);
        assert(carry_at(prev, i) == prefix_weight(text, i - 1));
        assert(score_row(text, text, i)[i] == next_cell(text, text[i], prev, i));
    }
}

/// The row maximum dominates every cell.
pub proof fn lemma_row_max_ge(s: Seq<int>, j: int)
    requires
        0 <= j < s.len(),
    ensures
        row_max(s) >= s[j],
    decreases s.len(),
{
    if j < s.len() - 1 {
        lemma_row_max_ge(s.drop_last(), j);
        assert(s.drop_last()[j] == s[j]);
    }
}

/// The row maximum of cells all below a bound stays below that bound.
pub proof fn lemma_row_max_le(s: Seq<int>, b: int)
    requires
        NO_SCORE as int <= b,
        forall|j: int| 0 <= j < s.len() ==> s[j] <= b,
    ensures
        row_max(s) <= b,
    decreases s.len(),
{
    if s.len() > 0 {
        assert forall|j: int| 0 <= j < s.drop_last().len() implies s.drop_last()[j] <= b by {
            assert(s.drop_last()[j] == s[j]);
        }
        lemma_row_max_le(s.drop_last(), b);
        assert(s.last() == s[s.len() - 1]);
    }
}

/// An exact self match is never beaten: no query scores better against a
/// text than the text scores against itself.
pub proof fn lemma_self_score_maximal(text: Seq<char>, query: Seq<char>)
    ensures
        fzf_best(text, query) <= fzf_best(text, text),
{
    let n = text.len() as int;
    if n == 0 {
        assert(fzf_scores(text, query).len() == 0);
        assert(fzf_scores(text, text).len() == 0);
    } else {
        lemma_self_diagonal(text, n - 1);
        lemma_row_max_ge(fzf_scores(text, text), n - 1);
        lemma_prefix_weight_bound(text, n - 1);
        if query.len() == 0 {
            lemma_row_max_le(fzf_scores(text, query), prefix_weight(text, n - 1));
        } else {
            lemma_row_bounds(text, query, query.len() - 1);
            assert forall|j: int| 0 <= j < n implies fzf_scores(text, query)[j] <= prefix_weight(
                text,
                n - 1,
            ) by {
                lemma_prefix_weight_mono(text, j, n - 1);
            }
            lemma_row_max_le(fzf_scores(text, query), prefix_weight(text, n - 1));
        }
    }
}

/// With every cell of the previous row at the sentinel, nothing can be
/// carried forward.
pub proof fn lemma_carry_all_sentinel(prev: Seq<int>, j: int)
    requires
        0 <= j <= prev.len(),
        forall|k: int| 0 <= k < prev.len() ==> prev[k] == NO_SCORE as int,
    ensures
        carry_at(prev, j) == NO_SCORE as int,
    decreases j,
{
    if j > 0 {
        lemma_carry_all_sentinel(prev, j - 1);
    }
}

/// Once the row of query character `qi` is all sentinel, every later row is
/// all sentinel too.
proof fn lemma_rows_sentinel_from(text: Seq<char>, query: Seq<char>, qi: int, i: int)
    requires
        0 <= qi <= i < query.len(),
        forall|j: int| 0 <= j < text.len() ==> !eq_ignore_case(query[qi], text[j]),
    ensures
        forall|j: int|
            0 <= j < text.len() ==> #[trigger] score_row(text, query, i)[j] == NO_SCORE as int,
    decreases i,
{
    if i > qi {
        lemma_rows_sentinel_from(text, query, qi, i - 1);
        let prev = score_row(text, query, i - 1);
        assert forall|j: int| 0 <= j < text.len() implies #[trigger] score_row(text, query, i)[j]
            == NO_SCORE as int by {
            lemma_carry_all_sentinel(prev, j);
        }
    }
}

/// A query with a character the text lacks cannot be aligned anywhere: the
/// final row is all sentinel, and so is the overall score.
pub proof fn lemma_missing_char_unmatchable(text: Seq<char>, query: Seq<char>, qi: int)
    requires
        0 <= qi < query.len(),
        forall|j: int| 0 <= j < text.len() ==> !eq_ignore_case(query[qi], text[j]),
    ensures
        forall|j: int|
            0 <= j < text.len() ==> #[trigger] fzf_scores(text, query)[j] == NO_SCORE as int,
        fzf_best(text, query) == NO_SCORE as int,
{
    lemma_rows_sentinel_from(text, query, qi, query.len() - 1);
    let row = fzf_scores(text, query);
    lemma_row_max_le(row, NO_SCORE as int);
    if row.len() > 0 {
        lemma_row_max_ge(row, 0);
    }
}

/// Computes the positional bonus of every character of a text.
pub fn calculate_bonus_score(text: &String) -> (r: Vec<i32>)
    ensures
        r@.len() == text@.len(),
        forall|j: int| 0 <= j < r@.len() ==> r@[j] as int == bonus_at(text@, j),
{
    let chars = chars_of(text.as_str());
    let n = chars.len();
    let mut r: Vec<i32> = Vec::new();
    let mut j: usize = 0;
    while j < n
        invariant
            j <= n,
            n == text@.len(),
            chars@ == text@,
            r@.len() == j,
            forall|k: int| 0 <= k < j ==> r@[k] as int == bonus_at(text@, k),
        decreases n - j,
    {
        let b: i32 = if j == 0 {
            INITIAL_SCORE
        } else {
            let prev = chars[j - 1];
            let cur = chars[j];
            if prev.is_lowercase() && cur.is_uppercase() {
                CAMEL_CASE_SCORE
            } else if prev == '/' || prev == '_' || prev == '-' || prev == '.' || prev == ' ' {
                BOUNDARY_SCORE
            } else {
                0
            }
        };
        r.push(b);
        j = j + 1;
    }
    r
}

/// Computes the final alignment row of a text against a query: for each text
/// position, the best score of aligning the whole query ending exactly
/// there, or the sentinel where no alignment ends.
pub fn calculate_fzf_score(text: &String, query: &String) -> (r: Vec<i32>)
    requires
        text@.len() <= MAX_SCORED_TEXT_LEN,
    ensures
        r@.len() == text@.len(),
        as_ints(r@) == fzf_scores(text@, query@),
{
    let bonus = calculate_bonus_score(text);
    let tchars = chars_of(text.as_str());
    let qchars = chars_of(query.as_str());
    let n = tchars.len();
    let m = qchars.len();
    let mut prev: Vec<i32> = vec![NO_SCORE; n];
    let mut i: usize = 0;
    while i < m
        invariant
            i <= m,
            n == text@.len(),
            m == query@.len(),
            n <= MAX_SCORED_TEXT_LEN,
            tchars@ == text@,
            qchars@ == query@,
            bonus@.len() == n,
            forall|k: int| 0 <= k < n ==> bonus@[k] as int == bonus_at(text@, k),
            prev@.len() == n,
            i == 0 ==> forall|k: int| 0 <= k < n ==> prev@[k] == NO_SCORE,
            i > 0 ==> as_ints(prev@) == score_row(text@, query@, i - 1),
        decreases m - i,
    {
        let ghost prev_ints = as_ints(prev@);
        let ghost row = score_row(text@, query@, i as int);
        proof {
            if i > 0 {
                lemma_row_bounds(text@, query@, i as int - 1);
            }
        }
        let qc = qchars[i];
        let mut current: Vec<i32> = Vec::new();
        let mut best: i32 = NO_SCORE;
        let mut j: usize = 0;
        while j < n
            invariant
                j <= n,
                i < m,
                n == text@.len(),
                m == query@.len(),
                n <= MAX_SCORED_TEXT_LEN,
                tchars@ == text@,
                qc == query@[i as int],
                bonus@.len() == n,
                forall|k: int| 0 <= k < n ==> bonus@[k] as int == bonus_at(text@, k),
                prev@.len() == n,
                prev_ints == as_ints(prev@),
                i > 0 ==> prev_ints == score_row(text@, query@, i as int - 1),
                i > 0 ==> forall|k: int|
                    0 <= k < n ==> NO_SCORE as int <= #[trigger] prev_ints[k] <= prefix_weight(
                        text@,
                        k,
                    ),
                row == score_row(text@, query@, i as int),
                current@.len() == j,
                forall|k: int| 0 <= k < j ==> current@[k] as int == row[k],
                i > 0 ==> best as int == carry_at(prev_ints, j as int),
                i == 0 ==> best == NO_SCORE,
            decreases n - j,
        {
            proof {
                lemma_bonus_range(text@, j as int);
                lemma_prefix_weight_bound(text@, j as int - 1);
                lemma_prefix_weight_bound(text@, n as int - 1);
                if i > 0 {
                    lemma_carry_lower(prev_ints, j as int);
                    lemma_carry_upper(text@, prev_ints, j as int);
                }
            }
            let cell: i32 = if chars_eq_ignore_case(qc, tchars[j]) {
                if i == 0 {
                    MATCH_SCORE + bonus[j]
                } else if best == NO_SCORE {
                    NO_SCORE
                } else {
                    best + bonus[j] + MATCH_SCORE
                }
            } else {
                NO_SCORE
            };
            current.push(cell);
            if i > 0 {
                let mut t: i32 = best + GAP_SCORE;
                if t < NO_SCORE {
                    t = NO_SCORE;
                }
                let pj = prev[j];
                if pj > t {
                    t = pj;
                }
                best = t;
                proof {
                    assert(prev_ints[j as int] == prev@[j as int] as int);
                    assert(best as int == carry_at(prev_ints, j as int + 1));
                }
            }
            j = j + 1;
        }
        proof {
            assert(as_ints(current@) =~= row);
        }
        prev = current;
        i = i + 1;
    }
    proof {
        assert(as_ints(prev@) =~= fzf_scores(text@, query@));
    }
    prev
}

/// Computes the score of a text against a query: the best value in the final
/// alignment row, or the sentinel when nothing aligns.
pub fn best_fzf_score(text: &String, query: &String) -> (r: i32)
    requires
        text@.len() <= MAX_SCORED_TEXT_LEN,
    ensures
        r as int == fzf_best(text@, query@),
{
    let scores = calculate_fzf_score(text, query);
    let ghost row = fzf_scores(text@, query@);
    let mut r: i32 = NO_SCORE;
    let mut j: usize = 0;
    proof {
        assert(row.take(0) =~= Seq::<int>::empty());
    }
    while j < scores.len()
        invariant
            j <= scores.len(),
            scores@.len() == row.len(),
            as_ints(scores@) == row,
            r as int == row_max(row.take(j as int)),
        decreases scores.len() - j,
    {
        let s = scores[j];
        proof {
            assert(row.take(j as int + 1).drop_last() =~= row.take(j as int));
            assert(row.take(j as int + 1).last() == row[j as int]);
            assert(row[j as int] == scores@[j as int] as int);
        }
        if s > r {
            r = s;
        }
        j = j + 1;
    }
    proof {
        assert(row.take(row.len() as int) =~= row);
    }
    r
}

} // verus!
