//! Subsequence-based fuzzy matching.
//!
//! A query matches a candidate when the query's characters all occur in the
//! candidate in order, not necessarily contiguously. Matches are scored:
//! characters that continue a run score higher than isolated ones, characters
//! that start a word score higher still, and shorter candidates outrank
//! longer ones among equally good matches. The scan is greedy, always taking
//! the leftmost occurrence of the next query character; no backtracking
//! search for a better alignment is performed.

use vstd::prelude::*;
use vstd::string::StrSliceExecFns;
use vstd::multiset::Multiset;
use crate::SCORE_NORM;
use crate::text::lower_of;
use crate::text::to_lowercase;
use crate::views::ordered_view_ok;

verus! {

/// Characters that end a word, so that the character after them starts one.
pub open spec fn is_boundary(c: char) -> bool {
    c == ' ' || c == '-' || c == '_'
}

fn is_boundary_char(c: char) -> (r: bool)
    ensures
        r == is_boundary(c),
{
    c == ' ' || c == '-' || c == '_'
}

/// The state of the greedy scan after reading the first `n` characters of
/// `text`: accumulated score, number of pattern characters consumed, and the
/// position of the most recent match, meaningful once a first pattern
/// character has been consumed.
pub open spec fn scan_state(text: Seq<char>, pattern: Seq<char>, n: int) -> (int, int, int)
    decreases n,
{
    if n <= 0 {
        (0, 0, 0)
    } else {
        let prev = scan_state(text, pattern, n - 1);
        let ti = n - 1;
        if prev.1 < pattern.len() && text[ti] == pattern[prev.1] {
            let run: int = if prev.1 > 0 && ti == prev.2 + 1 {
                10
            } else {
                5
            };
            let word: int = if ti == 0 || is_boundary(text[ti - 1]) {
                15
            } else {
                0
            };
            (prev.0 + run + word, prev.1 + 1, ti)
        } else {
            prev
        }
    }
}

/// How many pattern characters the greedy scan has consumed after reading
/// the first `n` characters of `text`.
pub open spec fn scan_consumed(text: Seq<char>, pattern: Seq<char>, n: int) -> int {
    scan_state(text, pattern, n).1
}

/// The score of matching `pattern` against `text`, or `None` when the scan
/// does not consume the whole pattern. An empty pattern trivially matches
/// with score zero.
pub open spec fn spec_fuzzy_match(text: Seq<char>, pattern: Seq<char>) -> Option<int> {
    if pattern.len() == 0 {
        Some(0)
    } else {
        let st = scan_state(text, pattern, text.len() as int);
        if st.1 == pattern.len() {
            Some(st.0 + (SCORE_NORM as int) / (text.len() as int + 1))
        } else {
            None
        }
    }
}

proof fn lemma_scan_state_bounds(text: Seq<char>, pattern: Seq<char>, n: int)
    requires
        0 <= n <= text.len(),
    ensures
        0 <= scan_state(text, pattern, n).1 <= pattern.len(),
        0 <= scan_state(text, pattern, n).2 < if n > 0 {
            n
        } else {
            1
        },
        0 <= scan_state(text, pattern, n).0 <= 25 * scan_state(text, pattern, n).1,
    decreases n,
{
    if n > 0 {
        lemma_scan_state_bounds(text, pattern, n - 1);
    }
}

/// Scores `pattern` against `text`, comparing characters exactly as given.
///
/// Greedy scan: each text character is compared with the next unconsumed
/// pattern character; on a match the pattern advances and the score grows by
/// ten when the match directly follows the previous matched character, five
/// otherwise, plus fifteen when the matched character starts a word. A fully consumed pattern earns a final
/// `SCORE_NORM / (len + 1)` bonus favouring shorter texts. The bound on the
/// pattern length keeps the score within `usize`.
pub fn fuzzy_match(text: &str, pattern: &str) -> (r: Option<usize>)
    requires
        25 * pattern@.len() + SCORE_NORM <= usize::MAX,
    ensures
        ({
            let m = spec_fuzzy_match(text@, pattern@);
            match r {
                Some(s) => m == Some(s as int),
                None => m is None,
            }
        }),
{
    let tn = text.unicode_len();
    let pn = pattern.unicode_len();
    if pn == 0 {
        return Some(0);
    }
    let mut score: usize = 0;
    let mut pi: usize = 0;
    let mut lm: usize = 0;
    let mut ti: usize = 0;
    while ti < tn
        invariant
            tn == text@.len(),
            pn == pattern@.len(),
            25 * pn + SCORE_NORM <= usize::MAX,
            0 <= ti <= tn,
            pi <= pn,
            lm <= ti,
            scan_state(text@, pattern@, ti as int) == (score as int, pi as int, lm as int),
            score <= 25 * pi,
        decreases tn - ti,
    {
        if pi < pn {
            let tc = text.get_char(ti);
            let pc = pattern.get_char(pi);
            if tc == pc {
                let run: usize = if pi > 0 && ti == lm + 1 {
                    10
                } else {
                    5
                };
                let word: usize = if ti == 0 || is_boundary_char(text.get_char(ti - 1)) {
                    15
                } else {
                    0
                };
                score = score + run + word;
                lm = ti;
                pi = pi + 1;
            }
        }
        ti = ti + 1;
    }
    if pi == pn {
        let norm: usize = if tn < SCORE_NORM {
            SCORE_NORM / (tn + 1)
        } else {
            0
        };
        proof {
            if tn >= SCORE_NORM {
                vstd::arithmetic::div_mod::lemma_basic_div(SCORE_NORM as int, tn as int + 1);
            }
        }
        Some(score + norm)
    } else {
        None
    }
}

/// Positions in `text`, one per pattern character, strictly increasing and
/// each holding the corresponding pattern character: a witness that
/// `pattern` is a subsequence of `text`.
pub open spec fn match_positions(m: Seq<int>, pattern: Seq<char>, text: Seq<char>) -> bool {
    &&& m.len() == pattern.len()
    &&& forall|i: int| 0 <= i < m.len() ==> 0 <= #[trigger] m[i] < text.len() && text[m[i]]
        == pattern[i]
    &&& forall|i: int| 0 < i < m.len() ==> m[i - 1] < #[trigger] m[i]
}

/// `pattern` occurs in `text` in order, not necessarily contiguously.
pub open spec fn is_subsequence(pattern: Seq<char>, text: Seq<char>) -> bool {
    exists|m: Seq<int>| #[trigger] match_positions(m, pattern, text)
}

spec fn partial_positions(m: Seq<int>, pattern: Seq<char>, text: Seq<char>, n: int) -> bool {
    &&& m.len() == scan_consumed(text, pattern, n)
    &&& forall|i: int| 0 <= i < m.len() ==> 0 <= #[trigger] m[i] < n && text[m[i]] == pattern[i]
    &&& forall|i: int| 0 < i < m.len() ==> m[i - 1] < #[trigger] m[i]
}

#[verifier::rlimit(50)]
proof fn lemma_scan_builds_positions(text: Seq<char>, pattern: Seq<char>, n: int)
    requires
        0 <= n <= text.len(),
    ensures
        exists|m: Seq<int>| #[trigger] partial_positions(m, pattern, text, n),
    decreases n,
{
    if n <= 0 {
        let m = Seq::<int>::empty();
        assert(partial_positions(m, pattern, text, 0));
    } else {
        lemma_scan_builds_positions(text, pattern, n - 1);
        let m0 = choose|m: Seq<int>| #[trigger] partial_positions(m, pattern, text, n - 1);
        let prev = scan_state(text, pattern, n - 1);
        if prev.1 < pattern.len() && text[n - 1] == pattern[prev.1] {
            let m1 = m0.push(n - 1);
            assert(forall|i: int| 0 <= i < m0.len() ==> m1[i] == m0[i]);
            assert(partial_positions(m1, pattern, text, n));
        } else {
            assert(partial_positions(m0, pattern, text, n));
        }
    }
}

/// How many entries of `m` are smaller than `n`.
spec fn count_lt(m: Seq<int>, n: int) -> int
    decreases m.len(),
{
    if m.len() == 0 {
        0
    } else {
        count_lt(m.drop_last(), n) + if m.last() < n {
            1int
        } else {
            0int
        }
    }
}

spec fn strictly_increasing(m: Seq<int>) -> bool {
    forall|i: int, j: int| 0 <= i < j < m.len() ==> #[trigger] m[i] < #[trigger] m[j]
}

proof fn lemma_count_lt_characterizes(m: Seq<int>, n: int)
    requires
        strictly_increasing(m),
    ensures
        0 <= count_lt(m, n) <= m.len(),
        forall|j: int| 0 <= j < m.len() ==> (m[j] < n <==> j < count_lt(m, n)),
    decreases m.len(),
{
    if m.len() > 0 {
        let mp = m.drop_last();
        assert(strictly_increasing(mp));
        lemma_count_lt_characterizes(mp, n);
        let c = count_lt(m, n);
        let cp = count_lt(mp, n);
        if m.last() < n {
            assert forall|j: int| 0 <= j < m.len() implies (m[j] < n <==> j < c) by {
                if j < m.len() - 1 {
                    assert(m[j] == mp[j]);
                    assert(m[j] < m.last());
                }
            }
        } else {
            assert forall|j: int| 0 <= j < m.len() implies (m[j] < n <==> j < c) by {
                if j < m.len() - 1 {
                    assert(m[j] == mp[j]);
                }
            }
        }
    }
}

proof fn lemma_scan_monotone(text: Seq<char>, pattern: Seq<char>, n: int)
    requires
        0 < n <= text.len(),
    ensures
        scan_consumed(text, pattern, n - 1) <= scan_consumed(text, pattern, n)
            <= scan_consumed(text, pattern, n - 1) + 1,
{
}

proof fn lemma_witness_forces_scan(text: Seq<char>, pattern: Seq<char>, m: Seq<int>, n: int)
    requires
        match_positions(m, pattern, text),
        0 <= n <= text.len(),
    ensures
        scan_consumed(text, pattern, n) >= count_lt(m, n),
    decreases n,
{
    assert(strictly_increasing(m)) by {
        assert forall|i: int, j: int| 0 <= i < j < m.len() implies #[trigger] m[i] < #[trigger] m[j] by {
            lemma_inc_chain(m, i, j);
        }
    }
    lemma_count_lt_characterizes(m, n);
    if n == 0 {
        assert(count_lt(m, 0) <= 0) by {
            if count_lt(m, 0) > 0 {
                assert(m[0] < 0);
            }
        }
    } else {
        lemma_witness_forces_scan(text, pattern, m, n - 1);
        lemma_count_lt_characterizes(m, n - 1);
        lemma_scan_monotone(text, pattern, n);
        lemma_scan_state_bounds(text, pattern, n - 1);
        let c = count_lt(m, n);
        let cp = count_lt(m, n - 1);
        if c > cp {
            // position n - 1 itself occurs in m, at index cp
            assert(m[cp] < n);
            assert(!(m[cp] < n - 1));
            assert(m[cp] == n - 1);
            assert(c <= cp + 1) by {
                if c > cp + 1 {
                    assert(m[cp + 1] < n);
                    assert(!(m[cp + 1] < n - 1));
                    assert(m[cp] < m[cp + 1]);
                }
            }
            let prev = scan_state(text, pattern, n - 1);
            if prev.1 == cp {
                assert(cp < m.len());
                assert(text[n - 1] == pattern[cp]);
                assert(scan_consumed(text, pattern, n) == cp + 1);
            }
        }
    }
}

proof fn lemma_inc_chain(m: Seq<int>, i: int, j: int)
    requires
        forall|k: int| 0 < k < m.len() ==> m[k - 1] < #[trigger] m[k],
        0 <= i < j < m.len(),
    ensures
        m[i] < m[j],
    decreases j - i,
{
    if i + 1 < j {
        lemma_inc_chain(m, i + 1, j);
    }
}

/// A non-empty pattern fails to match exactly when its characters do not
/// occur, in order, within the text.
#[verifier::rlimit(50)]
pub proof fn lemma_match_none_iff_not_subsequence(text: Seq<char>, pattern: Seq<char>)
    requires
        pattern.len() > 0,
    ensures
        spec_fuzzy_match(text, pattern) is None <==> !is_subsequence(pattern, text),
{
    let n = text.len() as int;
    lemma_scan_state_bounds(text, pattern, n);
    if scan_consumed(text, pattern, n) == pattern.len() {
        // the scan consumed the whole pattern: its match positions witness
        // the subsequence
        lemma_scan_builds_positions(text, pattern, n);
        let m = choose|m: Seq<int>| #[trigger] partial_positions(m, pattern, text, n);
        assert(match_positions(m, pattern, text));
    } else {
        // no witness exists, else the scan would have consumed everything
        if is_subsequence(pattern, text) {
            let m = choose|m: Seq<int>| #[trigger] match_positions(m, pattern, text);
            lemma_witness_forces_scan(text, pattern, m, n);
            assert(strictly_increasing(m)) by {
                assert forall|i: int, j: int| 0 <= i < j < m.len() implies #[trigger] m[i] < #[trigger] m[j]
                by {
                    lemma_inc_chain(m, i, j);
                }
            }
            lemma_count_lt_characterizes(m, n);
            assert(count_lt(m, n) == m.len()) by {
                if count_lt(m, n) < m.len() {
                    assert(!(m[count_lt(m, n)] < n));
                }
            }
        }
    }
}

/// An empty pattern matches every text with score zero.
pub proof fn lemma_empty_pattern_scores_zero(text: Seq<char>)
    ensures
        spec_fuzzy_match(text, Seq::<char>::empty()) == Some(0int),
{
}

/// The score of the item at index `i` of `items` against the lowered query
/// `ql`, comparing case-insensitively by lowering the item first. Only
/// meaningful when the item matches at all.
pub open spec fn score_at(items: Seq<String>, ql: Seq<char>, i: int) -> int {
    spec_fuzzy_match(lower_of(items[i]@), ql).unwrap()
}

/// Whether the item at index `i` of `items` matches the lowered query `ql`.
pub open spec fn matches_at_index(items: Seq<String>, ql: Seq<char>, i: int) -> bool {
    spec_fuzzy_match(lower_of(items[i]@), ql) is Some
}

/// Ranking order on original indices: higher score first, ties broken by
/// original index ascending.
pub open spec fn rank_before(items: Seq<String>, ql: Seq<char>, a: int, b: int) -> bool {
    score_at(items, ql, a) > score_at(items, ql, b) || (score_at(items, ql, a) == score_at(
        items,
        ql,
        b,
    ) && a < b)
}

/// The search result holds exactly the matching items, best score first,
/// ties in original order.
pub open spec fn ranked_view_ok(
    items: Seq<String>,
    ql: Seq<char>,
    view: Seq<(usize, String)>,
) -> bool {
    ordered_view_ok(
        items.len() as int,
        |i: int| items[i],
        |i: int| matches_at_index(items, ql, i),
        |a: int, b: int| rank_before(items, ql, a, b),
        view,
    )
}

/// A candidate row while searching: original index, label, score.
type Candidate = (usize, String, usize);

spec fn cand_le(a: Candidate, b: Candidate) -> bool {
    a.2 > b.2 || (a.2 == b.2 && a.0 <= b.0)
}

fn cand_le_exec(a: &Candidate, b: &Candidate) -> (r: bool)
    ensures
        r == cand_le(*a, *b),
{
    a.2 > b.2 || (a.2 == b.2 && a.0 <= b.0)
}

/// Sorts candidate rows by score descending, ties by original index
/// ascending, preserving the rows themselves.
fn sort_candidates(cands: Vec<Candidate>) -> (out: Vec<Candidate>)
    ensures
        out@.to_multiset() == cands@.to_multiset(),
        forall|k: int, l: int| 0 <= k < l < out@.len() ==> cand_le(#[trigger] out@[k], #[trigger] out@[l]),
{
    let mut rest = cands;
    let mut out: Vec<Candidate> = Vec::new();
    proof {
        out@.to_multiset_ensures();
        rest@.to_multiset_ensures();
        assert(out@.to_multiset().add(rest@.to_multiset()) =~= rest@.to_multiset());
    }
    while rest.len() > 0
        invariant
            out@.to_multiset().add(rest@.to_multiset()) =~= cands@.to_multiset(),
            forall|k: int, l: int| 0 <= k < l < out@.len() ==> cand_le(#[trigger] out@[k], #[trigger] out@[l]),
            forall|a: int, b: int|
                0 <= a < out@.len() && 0 <= b < rest@.len() ==> cand_le(
                    #[trigger] out@[a],
                    #[trigger] rest@[b],
                ),
        decreases rest.len(),
    {
        let mut m: usize = 0;
        let mut j: usize = 1;
        while j < rest.len()
            invariant
                0 <= m < j <= rest@.len(),
                forall|k: int| 0 <= k < j ==> cand_le(rest@[m as int], #[trigger] rest@[k]),
            decreases rest.len() - j,
        {
            if !cand_le_exec(&rest[m], &rest[j]) {
                m = j;
            }
            j = j + 1;
        }
        let ghost old_rest = rest@;
        let ghost old_out = out@;
        let x = rest.remove(m);
        out.push(x);
        proof {
            old_rest.remove_ensures(m as int);
            old_rest.to_multiset_ensures();
            old_out.to_multiset_ensures();
            assert(out@.to_multiset() =~= old_out.to_multiset().insert(x));
            assert(rest@.to_multiset() =~= old_rest.to_multiset().remove(x));
            assert(old_rest.contains(x)) by {
                assert(old_rest[m as int] == x);
            }
            assert(old_rest.to_multiset().count(x) > 0);
            assert(out@.to_multiset().add(rest@.to_multiset()) =~= cands@.to_multiset());
            assert forall|a: int, b: int|
                0 <= a < out@.len() && 0 <= b < rest@.len() implies cand_le(
                #[trigger] out@[a],
                #[trigger] rest@[b],
            ) by {
                let bb = if b < m as int {
                    b
                } else {
                    b + 1
                };
                assert(rest@[b] == old_rest[bb]);
                if a < out@.len() - 1 {
                    assert(out@[a] == old_out[a]);
                } else {
                    assert(out@[a] == x);
                }
            }
            assert forall|k: int, l: int| 0 <= k < l < out@.len() implies cand_le(
                #[trigger] out@[k],
                #[trigger] out@[l],
            ) by {
                if l == out@.len() - 1 {
                    assert(out@[k] == old_out[k]);
                    assert(old_rest[m as int] == x);
                }
            }
        }
    }
    proof {
        assert(rest@.to_multiset() =~= Multiset::<Candidate>::empty()) by {
            rest@.to_multiset_ensures();
        }
        assert(out@.to_multiset().add(rest@.to_multiset()) =~= out@.to_multiset());
    }
    out
}

spec fn cand_ok(items: Seq<String>, ql: Seq<char>, c: Candidate) -> bool {
    &&& (c.0 as int) < items.len()
    &&& c.1 == items[c.0 as int]
    &&& matches_at_index(items, ql, c.0 as int)
    &&& c.2 as int == score_at(items, ql, c.0 as int)
}

/// Scores every item against `query`, case-insensitively, drops the items
/// that do not match, and ranks the rest by score descending with ties in
/// original order. Queries so long that their score could not be
/// represented match nothing.
pub fn fuzzy_search(items: &Vec<String>, query: &str) -> (r: Vec<(usize, String)>)
    ensures
        ({
            let ql = lower_of(query@);
            if 25 * ql.len() + (SCORE_NORM as int) <= usize::MAX as int {
                ranked_view_ok(items@, ql, r@)
            } else {
                r@.len() == 0
            }
        }),
{
    let query_lower = to_lowercase(query);
    let qlen = query_lower.as_str().unicode_len();
    if qlen > (usize::MAX - SCORE_NORM) / 25 {
        proof {
            assert(25 * (lower_of(query@).len() as int) + (SCORE_NORM as int) > usize::MAX as int)
                by (nonlinear_arith)
                requires
                    lower_of(query@).len() > (usize::MAX - SCORE_NORM) / 25,
                    usize::MAX >= SCORE_NORM,
            ;
        }
        return Vec::new();
    }
    proof {
        assert(25 * (lower_of(query@).len() as int) + (SCORE_NORM as int) <= usize::MAX as int)
            by (nonlinear_arith)
            requires
                lower_of(query@).len() <= (usize::MAX - SCORE_NORM) / 25,
                usize::MAX >= SCORE_NORM,
        ;
    }
    let ghost ql = lower_of(query@);
    let mut cands: Vec<Candidate> = Vec::new();
    let mut idx: usize = 0;
    while idx < items.len()
        invariant
            0 <= idx <= items@.len(),
            ql == lower_of(query@),
            25 * ql.len() + (SCORE_NORM as int) <= usize::MAX as int,
            query_lower@ == ql,
            forall|k: int| 0 <= k < cands@.len() ==> cand_ok(items@, ql, #[trigger] cands@[k]),
            forall|k: int, l: int|
                0 <= k < l < cands@.len() ==> (#[trigger] cands@[k]).0 < (#[trigger] cands@[l]).0,
            forall|k: int| 0 <= k < cands@.len() ==> (#[trigger] cands@[k]).0 < idx,
            forall|i: int|
                0 <= i < idx && #[trigger] matches_at_index(items@, ql, i) ==> exists|k: int|
                    0 <= k < cands@.len() && (#[trigger] cands@[k]).0 as int == i,
        decreases items@.len() - idx,
    {
        let item_lower = to_lowercase(items[idx].as_str());
        match fuzzy_match(item_lower.as_str(), query_lower.as_str()) {
            Some(score) => {
                let ghost old_cands = cands@;
                cands.push((idx, items[idx].clone(), score));
                assert forall|i: int|
                    0 <= i < idx + 1 && #[trigger] matches_at_index(items@, ql, i) implies exists|
                    k: int,
                |
                    0 <= k < cands@.len() && (#[trigger] cands@[k]).0 as int == i by {
                    if i < idx {
                        let k = choose|k: int|
                            0 <= k < old_cands.len() && (#[trigger] old_cands[k]).0 as int == i;
                        assert((cands@[k]).0 as int == i);
                    } else {
                        assert((cands@[cands@.len() - 1]).0 as int == i);
                    }
                }
            },
            None => {},
        }
        idx = idx + 1;
    }
    let sorted = sort_candidates(cands);
    let mut r: Vec<(usize, String)> = Vec::new();
    let mut k: usize = 0;
    while k < sorted.len()
        invariant
            0 <= k <= sorted@.len(),
            r@.len() == k,
            forall|j: int| 0 <= j < k ==> (#[trigger] r@[j]).0 == sorted@[j].0 && r@[j].1
                == sorted@[j].1,
        decreases sorted@.len() - k,
    {
        let i = sorted[k].0;
        let s = sorted[k].1.clone();
        r.push((i, s));
        k = k + 1;
    }
    proof {
        lemma_projection_ranked(items@, ql, cands@, sorted@, r@);
    }
    r
}

proof fn lemma_projection_ranked(
    items: Seq<String>,
    ql: Seq<char>,
    cands: Seq<Candidate>,
    sorted: Seq<Candidate>,
    r: Seq<(usize, String)>,
)
    requires
        forall|k: int| 0 <= k < cands.len() ==> cand_ok(items, ql, #[trigger] cands[k]),
        forall|k: int, l: int|
            0 <= k < l < cands.len() ==> (#[trigger] cands[k]).0 < (#[trigger] cands[l]).0,
        forall|i: int|
            0 <= i < items.len() && #[trigger] matches_at_index(items, ql, i) ==> exists|k: int|
                0 <= k < cands.len() && (#[trigger] cands[k]).0 as int == i,
        sorted.to_multiset() == cands.to_multiset(),
        forall|k: int, l: int|
            0 <= k < l < sorted.len() ==> cand_le(#[trigger] sorted[k], #[trigger] sorted[l]),
        r.len() == sorted.len(),
        forall|j: int|
            0 <= j < sorted.len() ==> (#[trigger] r[j]).0 == sorted[j].0 && r[j].1 == sorted[j].1,
    ensures
        ranked_view_ok(items, ql, r),
{
    cands.to_multiset_ensures();
    sorted.to_multiset_ensures();
    // every sorted row is one of the candidate rows
    assert forall|k: int| 0 <= k < sorted.len() implies cand_ok(items, ql, #[trigger] sorted[k])
        by {
        assert(sorted.contains(sorted[k]));
        assert(sorted.to_multiset().count(sorted[k]) > 0);
        assert(cands.contains(sorted[k]));
        let j = choose|j: int| 0 <= j < cands.len() && cands[j] == sorted[k];
        assert(cand_ok(items, ql, cands[j]));
    }
    // distinct candidate rows never share an index, so the strict rank order
    // holds between any two sorted rows
    assert(cands.no_duplicates()) by {
        assert forall|k: int, l: int|
            0 <= k < cands.len() && 0 <= l < cands.len() && k != l implies cands[k] != cands[l] by {
            if k < l {
                assert(cands[k].0 < cands[l].0);
            } else {
                assert(cands[l].0 < cands[k].0);
            }
        }
    }
    cands.lemma_multiset_has_no_duplicates();
    sorted.lemma_multiset_has_no_duplicates_conv();
    let keep = |i: int| matches_at_index(items, ql, i);
    let lbl = |i: int| items[i];
    let before = |a: int, b: int| rank_before(items, ql, a, b);
    assert forall|k: int, l: int| 0 <= k < l < r.len() implies before(
        (#[trigger] r[k]).0 as int,
        (#[trigger] r[l]).0 as int,
    ) by {
        assert(cand_le(sorted[k], sorted[l]));
        assert(cand_ok(items, ql, sorted[k]));
        assert(cand_ok(items, ql, sorted[l]));
        if sorted[k].0 == sorted[l].0 {
            assert(sorted[k] == sorted[l]);
            assert(false);
        }
    }
    assert forall|i: int| 0 <= i < items.len() && #[trigger] keep(i) implies exists|k: int|
        0 <= k < r.len() && (#[trigger] r[k]).0 as int == i by {
        let j = choose|j: int| 0 <= j < cands.len() && (#[trigger] cands[j]).0 as int == i;
        assert(cands.contains(cands[j]));
        assert(cands.to_multiset().count(cands[j]) > 0);
        assert(sorted.contains(cands[j]));
        let k = choose|k: int| 0 <= k < sorted.len() && sorted[k] == cands[j];
        assert((r[k]).0 as int == i);
    }
    assert(ordered_view_ok(items.len() as int, lbl, keep, before, r));
}

} // verus!
