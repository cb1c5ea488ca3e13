//! Facts that relate the game's functions to one another.

use vstd::prelude::*;

use crate::game::{
    analysis_of, entry_for, error_message, first_unreached, increasing, insert_by_word, last_reached,
    normalize, ordered_by_word, pangram_total, parses_to, percent, puzzle_input_valid,
    puzzle_words, qualifies, rank_count, rank_index, rank_name, rank_threshold,
    saturating_product, shuffle_seed, shuffle_step, sort_by_word, submission_outcome,
    threshold_points, total_points, without, word_score, words_of, Puzzle, SubmitError,
    WordEntry,
};
use crate::dictionary::{is_white_space, listed_words, nonblank_trimmed, split_lines, trim, trim_end, trim_start};
use crate::text::{
    ascii_lower, ascii_upper, is_ascii_alpha, lemma_lex_asymmetric, lemma_lex_total,
    lemma_lex_transitive, lex_lt,
};
use vstd::arithmetic::div_mod::{lemma_div_by_multiple, lemma_div_is_ordered};
use vstd::arithmetic::mul::lemma_mul_inequality;

verus! {

// ---------------------------------------------------------------------------
// Words of a puzzle

/// The puzzle's words are exactly the listed words that the hive admits.
pub proof fn lemma_puzzle_words_contains(
    ws: Seq<Seq<char>>,
    letters: Seq<char>,
    center: char,
    w: Seq<char>,
)
    ensures
        puzzle_words(ws, letters, center).contains(w) <==> ws.contains(w) && qualifies(
            w,
            letters,
            center,
        ),
    decreases ws.len(),
{
    if ws.len() > 0 {
        let init = ws.drop_last();
        lemma_puzzle_words_contains(init, letters, center, w);
        let rest = puzzle_words(init, letters, center);
        let all = puzzle_words(ws, letters, center);
        if ws.contains(w) {
            let i = choose|i: int| 0 <= i < ws.len() && ws[i] == w;
            if i < ws.len() - 1 {
                assert(init[i] == w);
            }
        }
        if init.contains(w) {
            let i = choose|i: int| 0 <= i < init.len() && init[i] == w;
            assert(ws[i] == w);
        }
        if rest.contains(w) {
            let i = choose|i: int| 0 <= i < rest.len() && rest[i] == w;
            assert(all[i] == w);
        }
        if all.contains(w) {
            let i = choose|i: int| 0 <= i < all.len() && all[i] == w;
            if i < rest.len() {
                assert(rest[i] == w);
            }
        }
        if qualifies(ws.last(), letters, center) && w == ws.last() {
            assert(all[all.len() - 1] == w);
        }
    }
}

/// A typed word is accepted exactly when, once its letters are lowercased and
/// everything else dropped, it is one of the puzzle's words and has not been
/// found yet; the accepted word is that word.
pub proof fn lemma_accepted_iff_unfound_puzzle_word(
    raw: Seq<char>,
    puzzle: Puzzle,
    found: Seq<Seq<char>>,
    dictionary: Seq<Seq<char>>,
)
    ensures
        submission_outcome(raw, puzzle.letters@, puzzle.center, found, dictionary) is Ok <==> (
        puzzle_words(dictionary, puzzle.letters@, puzzle.center).contains(normalize(raw))
            && !found.contains(normalize(raw))),
        submission_outcome(raw, puzzle.letters@, puzzle.center, found, dictionary) matches Ok(w)
            ==> w == normalize(raw),
{
    lemma_puzzle_words_contains(dictionary, puzzle.letters@, puzzle.center, normalize(raw));
}

/// A word refused for any reason but having been found already is refused
/// whatever the list of found words holds.
pub proof fn lemma_refusal_ignores_found(
    raw: Seq<char>,
    puzzle: Puzzle,
    found: Seq<Seq<char>>,
    other: Seq<Seq<char>>,
    dictionary: Seq<Seq<char>>,
)
    requires
        submission_outcome(raw, puzzle.letters@, puzzle.center, found, dictionary) matches Err(e)
            && e != SubmitError::AlreadyFound,
    ensures
        submission_outcome(raw, puzzle.letters@, puzzle.center, other, dictionary)
            == submission_outcome(raw, puzzle.letters@, puzzle.center, found, dictionary),
{
}

// ---------------------------------------------------------------------------
// Outer letters

proof fn lemma_without_facts(s: Seq<char>, c: char)
    ensures
        forall|x: char| without(s, c).contains(x) <==> s.contains(x) && x != c,
        s.no_duplicates() && s.contains(c) ==> without(s, c).len() + 1 == s.len(),
        !s.contains(c) ==> without(s, c).len() == s.len(),
    decreases s.len(),
{
    if s.len() > 0 {
        let init = s.drop_last();
        lemma_without_facts(init, c);
        let rest = without(init, c);
        let all = without(s, c);
        assert forall|x: char| all.contains(x) <==> s.contains(x) && x != c by {
            if s.contains(x) {
                let i = choose|i: int| 0 <= i < s.len() && s[i] == x;
                if i < s.len() - 1 {
                    assert(init[i] == x);
                }
            }
            if init.contains(x) {
                let i = choose|i: int| 0 <= i < init.len() && init[i] == x;
                assert(s[i] == x);
            }
            if rest.contains(x) {
                let i = choose|i: int| 0 <= i < rest.len() && rest[i] == x;
                assert(all[i] == x);
            }
            if all.contains(x) {
                let i = choose|i: int| 0 <= i < all.len() && all[i] == x;
                if i < rest.len() {
                    assert(rest[i] == x);
                }
            }
            if s.last() == x && x != c {
                assert(all[all.len() - 1] == x);
            }
        }
        if s.no_duplicates() {
            assert(init.no_duplicates()) by {
                assert forall|i: int, j: int|
                    0 <= i < init.len() && 0 <= j < init.len() && i != j implies init[i]
                    != init[j] by {
                    assert(s[i] == init[i] && s[j] == init[j]);
                }
            }
            if s.last() == c {
                assert(!init.contains(c)) by {
                    if init.contains(c) {
                        let i = choose|i: int| 0 <= i < init.len() && init[i] == c;
                        assert(s[i] == s[s.len() - 1]);
                    }
                }
            }
        }
        if s.contains(c) && s.last() != c {
            let i = choose|i: int| 0 <= i < s.len() && s[i] == c;
            assert(init[i] == c);
        }
        if !s.contains(c) {
            assert(!init.contains(c)) by {
                if init.contains(c) {
                    let i = choose|i: int| 0 <= i < init.len() && init[i] == c;
                    assert(s[i] == c);
                }
            }
        }
    }
}

/// For a well-formed puzzle the outer letters are its six letters other than
/// the center.
pub proof fn lemma_outer_letters(puzzle: Puzzle)
    requires
        puzzle.wf(),
    ensures
        without(puzzle.letters@, puzzle.center).len() == 6,
        forall|x: char| #[trigger]
            without(puzzle.letters@, puzzle.center).contains(x) <==> puzzle.letters@.contains(x)
                && x != puzzle.center,
{
    let s = puzzle.letters@;
    assert(s.no_duplicates()) by {
        assert forall|i: int, j: int| 0 <= i < s.len() && 0 <= j < s.len() && i != j implies s[i]
            != s[j] by {
            if i < j {
                assert(s[i] < s[j]);
            } else {
                assert(s[j] < s[i]);
            }
        }
    }
    lemma_without_facts(s, puzzle.center);
}

// ---------------------------------------------------------------------------
// Ranks

/// The next rank is the one just above the current one.
pub proof fn lemma_next_rank_follows_current(pct: int)
    requires
        pct >= 0,
    ensures
        first_unreached(pct, 0) == last_reached(pct, rank_count()) + 1,
{
    reveal_with_fuel(last_reached, 11);
    reveal_with_fuel(first_unreached, 11);
}

proof fn lemma_last_reached_bound(pct: int, n: int)
    ensures
        0 <= last_reached(pct, n),
        n >= 1 ==> last_reached(pct, n) <= n - 1,
    decreases n,
{
    if n > 1 {
        lemma_last_reached_bound(pct, n - 1);
    }
}

proof fn lemma_last_reached_monotone(p1: int, p2: int, n: int)
    requires
        p1 <= p2,
    ensures
        last_reached(p1, n) <= last_reached(p2, n),
    decreases n,
{
    if n > 1 {
        lemma_last_reached_monotone(p1, p2, n - 1);
        lemma_last_reached_bound(p1, n - 1);
    }
}

proof fn lemma_last_reached_at_least(pct: int, n: int, k: int)
    requires
        0 <= k < n,
        rank_threshold(k) <= pct,
    ensures
        last_reached(pct, n) >= k,
    decreases n,
{
    if n > 1 && k < n - 1 && rank_threshold(n - 1) > pct {
        lemma_last_reached_at_least(pct, n - 1, k);
    }
}

proof fn lemma_percent_monotone(s1: u32, s2: u32, max_score: u32)
    requires
        s1 <= s2,
        max_score > 0,
    ensures
        0 <= percent(s1, max_score) <= percent(s2, max_score),
{
    lemma_mul_inequality(s1 as int, s2 as int, 100);
    lemma_div_is_ordered(saturating_product(s1, 100), saturating_product(s2, 100), max_score as int);
    lemma_div_is_ordered(0, saturating_product(s1, 100), max_score as int);
}

/// A higher score never holds a lower rank.
pub proof fn lemma_rank_monotone(s1: u32, s2: u32, max_score: u32)
    requires
        s1 <= s2,
    ensures
        rank_index(s1, max_score) <= rank_index(s2, max_score),
{
    if max_score > 0 {
        lemma_percent_monotone(s1, s2, max_score);
        lemma_last_reached_monotone(percent(s1, max_score), percent(s2, max_score), rank_count());
    }
}

/// A score that reaches the maximum holds the top rank, as long as the score
/// times one hundred fits in a `u32`.
pub proof fn lemma_full_score_is_top_rank(score: u32, max_score: u32)
    requires
        max_score > 0,
        score >= max_score,
        score * 100 <= u32::MAX,
    ensures
        rank_index(score, max_score) == rank_count() - 1,
        first_unreached(percent(score, max_score), 0) == rank_count(),
{
    let m = max_score as int;
    lemma_mul_inequality(m, score as int, 100);
    lemma_div_is_ordered(100 * m, score * 100, m);
    lemma_div_by_multiple(100, m);
    assert(100 * m == 100int * m);
    assert((100 * m) / m == 100);
    assert(percent(score, max_score) >= 100);
    reveal_with_fuel(last_reached, 2);
    reveal_with_fuel(first_unreached, 11);
}

proof fn lemma_threshold_points_ceiling(p: int)
    requires
        p >= 0,
    ensures
        (if p % 100 == 0 {
            p / 100
        } else {
            p / 100 + 1
        }) == (p + 99) / 100,
{
}

/// The marker of a higher rank never stands below that of a lower one.
pub proof fn lemma_markers_ordered(i: int, j: int, max_score: u32)
    requires
        0 <= i <= j < rank_count(),
    ensures
        threshold_points(rank_threshold(i), max_score) <= threshold_points(
            rank_threshold(j),
            max_score,
        ),
{
    assert(rank_threshold(i) <= rank_threshold(j));
    lemma_mul_inequality(rank_threshold(i) as int, rank_threshold(j) as int, max_score as int);
    let p1 = saturating_product(rank_threshold(i), max_score);
    let p2 = saturating_product(rank_threshold(j), max_score);
    lemma_threshold_points_ceiling(p1);
    lemma_threshold_points_ceiling(p2);
    lemma_div_is_ordered(p1 + 99, p2 + 99, 100);
}

/// Scoring the points that `next_rank` names reaches that rank, as long as
/// neither the threshold's share of the maximum nor the new score times one
/// hundred overflows a `u32`.
pub proof fn lemma_needed_points_reach_next_rank(score: u32, max_score: u32)
    requires
        max_score > 0,
        first_unreached(percent(score, max_score), 0) < rank_count(),
        ({
            let k = first_unreached(percent(score, max_score), 0);
            let t = threshold_points(rank_threshold(k), max_score);
            &&& rank_threshold(k) * max_score <= u32::MAX
            &&& (if t > score {
                t
            } else {
                score as int
            }) * 100 <= u32::MAX
        }),
    ensures
        ({
            let k = first_unreached(percent(score, max_score), 0);
            let t = threshold_points(rank_threshold(k), max_score);
            let reached: u32 = if t > score {
                t as u32
            } else {
                score
            };
            rank_index(reached, max_score) >= k
        }),
{
    let pct = percent(score, max_score);
    let k = first_unreached(pct, 0);
    let th = rank_threshold(k) as int;
    let m = max_score as int;
    let p = th * m;
    let t = threshold_points(rank_threshold(k), max_score);
    let reached: u32 = if t > score {
        t as u32
    } else {
        score
    };
    lemma_div_is_ordered(0, saturating_product(score, 100), m);
    lemma_threshold_points_ceiling(p);
    assert(p >= 0) by {
        lemma_mul_inequality(0, th, m);
    }
    // t = ceil(p / 100), so 100 * t >= p
    assert(100 * t >= p) by {
        assert((p + 99) / 100 * 100 >= p) by (nonlinear_arith)
            requires
                p >= 0,
        ;
    }
    assert(reached * 100 >= th * m) by {
        assert(reached >= t);
        lemma_mul_inequality(t, reached as int, 100);
    }
    assert(saturating_product(reached, 100) == reached * 100);
    lemma_div_is_ordered(th * m, reached * 100, m);
    lemma_div_by_multiple(th, m);
    assert(percent(reached, max_score) >= th);
    assert(0 <= k) by {
        reveal_with_fuel(first_unreached, 11);
    }
    lemma_last_reached_at_least(percent(reached, max_score), rank_count(), k);
}

/// For a maximum of at most `u32::MAX / 100`, a score reaches a percentage
/// threshold exactly when it reaches that threshold's marker.
proof fn lemma_marker_reached_iff(score: u32, max_score: u32, t: u32)
    requires
        0 < max_score <= u32::MAX / 100,
        t <= 100,
    ensures
        (t <= percent(score, max_score)) == (threshold_points(t, max_score) <= score),
{
    let m = max_score as int;
    let s = score as int;
    let ti = t as int;
    let x = ti * m;
    assert(0 <= x <= 100 * m) by (nonlinear_arith)
        requires
            0 <= ti <= 100,
            m > 0,
            x == ti * m,
    ;
    assert(saturating_product(t, max_score) == x);
    lemma_threshold_points_ceiling(x);
    assert(threshold_points(t, max_score) == (x + 99) / 100);
    assert(((x + 99) / 100 <= s) == (x <= 100 * s)) by (nonlinear_arith)
        requires
            x >= 0,
            s >= 0,
    ;
    if s * 100 <= u32::MAX {
        assert(saturating_product(score, 100) == s * 100);
        assert((ti <= (s * 100) / m) == (ti * m <= s * 100)) by (nonlinear_arith)
            requires
                m > 0,
                s >= 0,
                ti >= 0,
        ;
    } else {
        assert(saturating_product(score, 100) == u32::MAX);
        let big = u32::MAX as int;
        assert(big / m >= 100) by (nonlinear_arith)
            requires
                0 < m <= big / 100,
                big == 4294967295,
        ;
        assert(s > m);
        assert(x <= 100 * s) by (nonlinear_arith)
            requires
                0 <= x <= 100 * m,
                s > m,
        ;
    }
}

/// The highest of the first `n` ranks whose marker `score` reaches; rank 0
/// when no other marker is reached.
pub open spec fn last_marker_reached(score: u32, max_score: u32, n: int) -> int
    decreases n,
{
    if n <= 1 {
        0
    } else if threshold_points(rank_threshold(n - 1), max_score) <= score {
        n - 1
    } else {
        last_marker_reached(score, max_score, n - 1)
    }
}

proof fn lemma_last_reached_by_markers(score: u32, max_score: u32, n: int)
    requires
        0 < max_score <= u32::MAX / 100,
    ensures
        last_reached(percent(score, max_score), n) == last_marker_reached(score, max_score, n),
    decreases n,
{
    if n > 1 {
        lemma_last_reached_by_markers(score, max_score, n - 1);
        lemma_marker_reached_iff(score, max_score, rank_threshold(n - 1));
    }
}

/// A rank is held exactly when the score reaches its marker: the rank that a
/// score holds is the last rank whose marker (as `rank_markers` gives it) is
/// at most the score, for a maximum of at most `u32::MAX / 100`.
pub proof fn lemma_rank_is_last_marker_reached(score: u32, max_score: u32)
    requires
        0 < max_score <= u32::MAX / 100,
    ensures
        rank_index(score, max_score) == last_marker_reached(score, max_score, rank_count()),
{
    lemma_last_reached_by_markers(score, max_score, rank_count());
}

proof fn lemma_last_reached_below(pct: int, n: int, k: int)
    requires
        0 < k < n <= rank_count(),
        pct < rank_threshold(k),
    ensures
        last_reached(pct, n) < k,
    decreases n,
{
    if n - 1 > k {
        assert(rank_threshold(k) <= rank_threshold(n - 1));
        lemma_last_reached_below(pct, n - 1, k);
    } else {
        lemma_last_reached_bound(pct, n - 1);
    }
}

/// The points that `next_rank` names are the fewest that reach the next rank:
/// at least one, scoring them reaches that rank, and one point fewer does not,
/// for a maximum of at most `u32::MAX / 100`.
pub proof fn lemma_needed_points_are_fewest(score: u32, max_score: u32)
    requires
        0 < max_score <= u32::MAX / 100,
        first_unreached(percent(score, max_score), 0) < rank_count(),
    ensures
        ({
            let k = first_unreached(percent(score, max_score), 0);
            let t = threshold_points(rank_threshold(k), max_score);
            let needed = if t > score {
                t - score
            } else {
                0
            };
            &&& needed >= 1
            &&& score + needed <= u32::MAX
            &&& rank_index((score + needed) as u32, max_score) >= k
            &&& rank_index((score + needed - 1) as u32, max_score) < k
        }),
{
    let pct = percent(score, max_score);
    let k = first_unreached(pct, 0);
    let th = rank_threshold(k);
    let t = threshold_points(th, max_score);
    lemma_div_is_ordered(0, saturating_product(score, 100), max_score as int);
    reveal_with_fuel(first_unreached, 11);
    assert(0 < k && pct < th);
    lemma_marker_reached_iff(score, max_score, th);
    assert(t > score);
    let reached = t as u32;
    let below = (t - 1) as u32;
    // t is at most the maximum score
    let x = th * max_score;
    assert(x <= 100 * max_score) by (nonlinear_arith)
        requires
            th <= 100,
            x == th * max_score,
    ;
    lemma_threshold_points_ceiling(x);
    assert(t <= max_score);
    lemma_marker_reached_iff(reached, max_score, th);
    lemma_last_reached_at_least(percent(reached, max_score), rank_count(), k);
    lemma_marker_reached_iff(below, max_score, th);
    lemma_last_reached_below(percent(below, max_score), rank_count(), k);
    assert(score + (t - score) == t);
}

// ---------------------------------------------------------------------------
// Ordering by word

proof fn lemma_insert_by_word_facts(s: Seq<WordEntry>, e: WordEntry)
    requires
        ordered_by_word(s),
    ensures
        ordered_by_word(insert_by_word(s, e)),
        insert_by_word(s, e).to_multiset() =~= s.to_multiset().insert(e),
        insert_by_word(s, e).len() == s.len() + 1,
        forall|w: Seq<char>|
            (forall|k: int| 0 <= k < s.len() ==> !lex_lt(w, #[trigger] s[k].word@)) && !lex_lt(
                w,
                e.word@,
            ) ==> forall|k: int|
                0 <= k < insert_by_word(s, e).len() ==> !lex_lt(
                    w,
                    #[trigger] insert_by_word(s, e)[k].word@,
                ),
    decreases s.len(),
{
    broadcast use vstd::seq_lib::group_to_multiset_ensures;
    broadcast use vstd::multiset::group_multiset_axioms;

    let r = insert_by_word(s, e);
    if s.len() == 0 {
        assert(r =~= seq![e]);
        assert(seq![e] =~= Seq::<WordEntry>::empty().push(e));
    } else if lex_lt(e.word@, s.last().word@) {
        let init = s.drop_last();
        let x = s.last();
        assert(ordered_by_word(init));
        lemma_insert_by_word_facts(init, e);
        let ri = insert_by_word(init, e);
        assert(r == ri.push(x));
        assert(s =~= init.push(x));
        // everything in ri is no later than x
        assert forall|k: int| 0 <= k < ri.len() implies !lex_lt(x.word@, #[trigger] ri[k].word@) by {
            assert forall|m: int| 0 <= m < init.len() implies !lex_lt(
                x.word@,
                #[trigger] init[m].word@,
            ) by {
                assert(s[m] == init[m]);
                assert(!lex_lt(s[s.len() - 1].word@, s[m].word@));
            }
            lemma_lex_asymmetric(e.word@, x.word@);
        }
        assert forall|a: int, b: int| 0 <= a < b < r.len() implies !lex_lt(
            #[trigger] r[b].word@,
            #[trigger] r[a].word@,
        ) by {
            if b == r.len() - 1 {
                assert(r[a] == ri[a]);
            } else {
                assert(r[a] == ri[a] && r[b] == ri[b]);
            }
        }
        assert forall|w: Seq<char>|
            (forall|k: int| 0 <= k < s.len() ==> !lex_lt(w, #[trigger] s[k].word@)) && !lex_lt(
                w,
                e.word@,
            ) implies forall|k: int| 0 <= k < r.len() ==> !lex_lt(w, #[trigger] r[k].word@) by {
            assert forall|k: int| 0 <= k < init.len() implies !lex_lt(w, #[trigger] init[k].word@) by {
                assert(s[k] == init[k]);
            }
            assert forall|k: int| 0 <= k < r.len() implies !lex_lt(w, #[trigger] r[k].word@) by {
                if k < ri.len() {
                    assert(r[k] == ri[k]);
                } else {
                    assert(r[k] == s[s.len() - 1]);
                }
            }
        }
    } else {
        assert(r == s.push(e));
        assert forall|a: int, b: int| 0 <= a < b < r.len() implies !lex_lt(
            #[trigger] r[b].word@,
            #[trigger] r[a].word@,
        ) by {
            if b == r.len() - 1 {
                assert(r[a] == s[a]);
                if a < s.len() - 1 {
                    assert(!lex_lt(s[s.len() - 1].word@, s[a].word@));
                    if lex_lt(e.word@, s[a].word@) {
                        if s[s.len() - 1].word@ == s[a].word@ {
                        } else {
                            lemma_lex_total(s[s.len() - 1].word@, s[a].word@);
                            lemma_lex_transitive(e.word@, s[a].word@, s[s.len() - 1].word@);
                        }
                    }
                }
            } else {
                assert(r[a] == s[a] && r[b] == s[b]);
            }
        }
        assert forall|w: Seq<char>|
            (forall|k: int| 0 <= k < s.len() ==> !lex_lt(w, #[trigger] s[k].word@)) && !lex_lt(
                w,
                e.word@,
            ) implies forall|k: int| 0 <= k < r.len() ==> !lex_lt(w, #[trigger] r[k].word@) by {
            assert forall|k: int| 0 <= k < r.len() implies !lex_lt(w, #[trigger] r[k].word@) by {
                if k < s.len() {
                    assert(r[k] == s[k]);
                }
            }
        }
    }
}

/// Ordering by word only reorders: the result is ordered and holds the same
/// entries, each as often as before.
pub proof fn lemma_sort_by_word(s: Seq<WordEntry>)
    ensures
        ordered_by_word(sort_by_word(s)),
        sort_by_word(s).to_multiset() =~= s.to_multiset(),
        sort_by_word(s).len() == s.len(),
    decreases s.len(),
{
    broadcast use vstd::seq_lib::group_to_multiset_ensures;

    if s.len() > 0 {
        lemma_sort_by_word(s.drop_last());
        lemma_insert_by_word_facts(sort_by_word(s.drop_last()), s.last());
        assert(s =~= s.drop_last().push(s.last()));
    }
}

// ---------------------------------------------------------------------------
// Reading a hive

/// Two increasing sequences with the same elements are equal.
proof fn lemma_increasing_same_elements(a: Seq<char>, b: Seq<char>)
    requires
        increasing(a),
        increasing(b),
        forall|c: char| a.contains(c) <==> b.contains(c),
    ensures
        a == b,
    decreases a.len(),
{
    if a.len() == 0 {
        if b.len() > 0 {
            assert(b.contains(b[0]));
        }
        assert(a =~= b);
    } else {
        if b.len() == 0 {
            assert(a.contains(a[0]));
        }
        let x = a.last();
        let y = b.last();
        assert(a.contains(x));
        assert(b.contains(y));
        let j = choose|j: int| 0 <= j < b.len() && b[j] == x;
        let k = choose|k: int| 0 <= k < a.len() && a[k] == y;
        assert(x <= y) by {
            if j < b.len() - 1 {
                assert(b[j] < b[b.len() - 1]);
            }
        }
        assert(y <= x) by {
            if k < a.len() - 1 {
                assert(a[k] < a[a.len() - 1]);
            }
        }
        let a1 = a.drop_last();
        let b1 = b.drop_last();
        assert forall|c: char| a1.contains(c) <==> b1.contains(c) by {
            if a1.contains(c) {
                let i = choose|i: int| 0 <= i < a1.len() && a1[i] == c;
                assert(a[i] == c && a[i] < x);
                assert(a.contains(c));
                let m = choose|m: int| 0 <= m < b.len() && b[m] == c;
                assert(m != b.len() - 1);
                assert(b1[m] == c);
            }
            if b1.contains(c) {
                let i = choose|i: int| 0 <= i < b1.len() && b1[i] == c;
                assert(b[i] == c && b[i] < y);
                assert(b.contains(c));
                let m = choose|m: int| 0 <= m < a.len() && a[m] == c;
                assert(m != a.len() - 1);
                assert(a1[m] == c);
            }
        }
        assert(increasing(a1));
        assert(increasing(b1));
        lemma_increasing_same_elements(a1, b1);
        assert(a =~= a1.push(x));
        assert(b =~= b1.push(y));
    }
}

/// The hive that letters and a center read as is unique.
pub proof fn lemma_parse_result_unique(raw: Seq<char>, center: char, p: Puzzle, q: Puzzle)
    requires
        parses_to(raw, center, p),
        parses_to(raw, center, q),
    ensures
        p.letters@ == q.letters@,
        p.center == q.center,
{
    assert forall|c: char| p.letters@.contains(c) <==> q.letters@.contains(c) by {
        assert(p.letters@.contains(c) <==> normalize(raw).contains(c));
        assert(q.letters@.contains(c) <==> normalize(raw).contains(c));
    }
    lemma_increasing_same_elements(p.letters@, q.letters@);
}

proof fn lemma_multiset_facts(a: Seq<char>, b: Seq<char>)
    requires
        a.to_multiset() == b.to_multiset(),
    ensures
        a.len() == b.len(),
        forall|c: char| a.contains(c) <==> b.contains(c),
        a.no_duplicates() <==> b.no_duplicates(),
{
    broadcast use vstd::seq_lib::group_to_multiset_ensures;

    assert(a.len() == a.to_multiset().len());
    assert(b.len() == b.to_multiset().len());
    assert forall|c: char| a.contains(c) <==> b.contains(c) by {
        assert(a.contains(c) <==> a.to_multiset().count(c) > 0);
        assert(b.contains(c) <==> b.to_multiset().count(c) > 0);
    }
    if a.no_duplicates() {
        a.lemma_multiset_has_no_duplicates();
        b.lemma_multiset_has_no_duplicates_conv();
    }
    if b.no_duplicates() {
        b.lemma_multiset_has_no_duplicates();
        a.lemma_multiset_has_no_duplicates_conv();
    }
}

/// Reading a hive ignores letter case, everything but letters, and the order
/// of the letters: inputs whose letters, lowercased, are the same letters as
/// often, with centers equal once lowercased, are accepted alike and read as
/// the same hive.
pub proof fn lemma_parse_ignores_case_and_order(s1: Seq<char>, c1: char, s2: Seq<char>, c2: char)
    requires
        normalize(s1).to_multiset() == normalize(s2).to_multiset(),
        ascii_lower(c1) == ascii_lower(c2),
    ensures
        puzzle_input_valid(s1, c1) == puzzle_input_valid(s2, c2),
        forall|p: Puzzle| #[trigger] parses_to(s1, c1, p) <==> parses_to(s2, c2, p),
{
    lemma_multiset_facts(normalize(s1), normalize(s2));
}

/// `s` with every ASCII letter uppercased.
pub open spec fn uppercased(s: Seq<char>) -> Seq<char> {
    s.map_values(|c: char| ascii_upper(c))
}

proof fn lemma_normalize_lowercase(s: Seq<char>)
    requires
        forall|i: int| 0 <= i < s.len() ==> 'a' <= #[trigger] s[i] <= 'z',
    ensures
        normalize(s) == s,
        normalize(uppercased(s)) == s,
    decreases s.len(),
{
    if s.len() > 0 {
        let init = s.drop_last();
        lemma_normalize_lowercase(init);
        let x = s.last();
        assert('a' <= x <= 'z');
        assert(is_ascii_alpha(x));
        assert(ascii_lower(x) == x);
        let u = uppercased(s);
        assert(u.drop_last() =~= uppercased(init));
        let ux = ascii_upper(x);
        assert(u.last() == ux);
        assert('A' <= ux <= 'Z');
        assert(is_ascii_alpha(ux));
        assert(ascii_lower(ux) == x);
        assert(s =~= init.push(x));
    } else {
        assert(uppercased(s) =~= s);
    }
}

/// Reading back a hive's own letters, as they are or uppercased, with its
/// center, as it is or uppercased, gives the same hive.
pub proof fn lemma_reparse_round_trip(p: Puzzle)
    requires
        p.wf(),
    ensures
        puzzle_input_valid(p.letters@, p.center),
        parses_to(p.letters@, p.center, p),
        forall|q: Puzzle| #[trigger]
            parses_to(p.letters@, p.center, q) ==> q.letters@ == p.letters@ && q.center == p.center,
        puzzle_input_valid(uppercased(p.letters@), ascii_upper(p.center)),
        parses_to(uppercased(p.letters@), ascii_upper(p.center), p),
        forall|q: Puzzle| #[trigger]
            parses_to(uppercased(p.letters@), ascii_upper(p.center), q)
                ==> q.letters@ == p.letters@ && q.center == p.center,
{
    let s = p.letters@;
    lemma_normalize_lowercase(s);
    assert(s.contains(p.center));
    let k = choose|k: int| 0 <= k < s.len() && s[k] == p.center;
    assert('a' <= s[k] <= 'z');
    assert(ascii_lower(p.center) == p.center);
    assert(ascii_lower(ascii_upper(p.center)) == p.center);
    assert(s.no_duplicates()) by {
        assert forall|i: int, j: int| 0 <= i < s.len() && 0 <= j < s.len() && i != j implies s[i]
            != s[j] by {
            if i < j {
                assert(s[i] < s[j]);
            } else {
                assert(s[j] < s[i]);
            }
        }
    }
    let u = uppercased(s);
    assert forall|q: Puzzle| #[trigger] parses_to(s, p.center, q) implies q.letters@ == s
        && q.center == p.center by {
        lemma_parse_result_unique(s, p.center, p, q);
    }
    assert forall|q: Puzzle| #[trigger] parses_to(u, ascii_upper(p.center), q) implies q.letters@
        == s && q.center == p.center by {
        lemma_parse_result_unique(u, ascii_upper(p.center), p, q);
    }
}

// ---------------------------------------------------------------------------
// Submissions and analysis

proof fn lemma_normalize_normalized(s: Seq<char>)
    ensures
        forall|i: int| 0 <= i < normalize(s).len() ==> 'a' <= #[trigger] normalize(s)[i] <= 'z',
{
    crate::game::lemma_normalize_letters(s);
}

/// Only the lowercased letters of what was typed matter: submitting them
/// instead gives the same outcome.
pub proof fn lemma_submission_uses_letters_only(
    raw: Seq<char>,
    puzzle: Puzzle,
    found: Seq<Seq<char>>,
    dictionary: Seq<Seq<char>>,
)
    ensures
        normalize(normalize(raw)) == normalize(raw),
        submission_outcome(normalize(raw), puzzle.letters@, puzzle.center, found, dictionary)
            == submission_outcome(raw, puzzle.letters@, puzzle.center, found, dictionary),
{
    lemma_normalize_normalized(raw);
    lemma_normalize_lowercase(normalize(raw));
}

/// With nothing found yet, the words accepted are exactly the hive's answer
/// list: each listed word is accepted, as the entry listed for it, and every
/// accepted word is listed.
pub proof fn lemma_answers_are_exactly_accepted(
    puzzle: Puzzle,
    dictionary: Seq<Seq<char>>,
    stats: crate::game::PuzzleStats,
)
    requires
        puzzle.wf(),
        analysis_of(stats, puzzle.letters@, puzzle.center, dictionary),
    ensures
        forall|i: int|
            0 <= i < stats.words@.len() ==> submission_outcome(
                #[trigger] stats.words@[i].word@,
                puzzle.letters@,
                puzzle.center,
                Seq::<Seq<char>>::empty(),
                dictionary,
            ) == Ok::<Seq<char>, SubmitError>(stats.words@[i].word@),
        forall|i: int, e: WordEntry|
            #![trigger entry_for(e, puzzle.letters@), stats.words@[i]]
            0 <= i < stats.words@.len() && entry_for(e, puzzle.letters@) && e.word@
                == stats.words@[i].word@ ==> e.points == stats.words@[i].points && e.pangram
                == stats.words@[i].pangram,
        forall|raw: Seq<char>|
            #[trigger] submission_outcome(
                raw,
                puzzle.letters@,
                puzzle.center,
                Seq::<Seq<char>>::empty(),
                dictionary,
            ) is Ok ==> words_of(stats.words@).contains(normalize(raw)),
{
    let l = puzzle.letters@;
    let c = puzzle.center;
    assert forall|i: int| 0 <= i < stats.words@.len() implies submission_outcome(
        #[trigger] stats.words@[i].word@,
        l,
        c,
        Seq::<Seq<char>>::empty(),
        dictionary,
    ) == Ok::<Seq<char>, SubmitError>(stats.words@[i].word@) by {
        let w = stats.words@[i].word@;
        assert(qualifies(w, l, c));
        assert forall|k: int| 0 <= k < w.len() implies 'a' <= #[trigger] w[k] <= 'z' by {
            assert(l.contains(w[k]));
            let m = choose|m: int| 0 <= m < l.len() && l[m] == w[k];
            assert('a' <= l[m] <= 'z');
        }
        lemma_normalize_lowercase(w);
        assert(!Seq::<Seq<char>>::empty().contains(w));
    }
    assert forall|raw: Seq<char>|
        #[trigger] submission_outcome(raw, l, c, Seq::<Seq<char>>::empty(), dictionary)
            is Ok implies words_of(stats.words@).contains(normalize(raw)) by {
        lemma_puzzle_words_contains(dictionary, l, c, normalize(raw));
    }
}

proof fn lemma_pangram_total_same(a: Seq<WordEntry>, b: Seq<WordEntry>)
    requires
        a.len() == b.len(),
        forall|i: int| 0 <= i < a.len() ==> (#[trigger] a[i]).pangram == b[i].pangram,
    ensures
        pangram_total(a) == pangram_total(b),
    decreases a.len(),
{
    if a.len() > 0 {
        lemma_pangram_total_same(a.drop_last(), b.drop_last());
    }
}

/// Two analyses of one hive on one word list agree: the same words, each with
/// the same points and pangram flag, and the same totals.
pub proof fn lemma_analysis_unique(
    a: crate::game::PuzzleStats,
    b: crate::game::PuzzleStats,
    puzzle: Puzzle,
    dictionary: Seq<Seq<char>>,
)
    requires
        analysis_of(a, puzzle.letters@, puzzle.center, dictionary),
        analysis_of(b, puzzle.letters@, puzzle.center, dictionary),
    ensures
        words_of(a.words@) == words_of(b.words@),
        a.words@.len() == b.words@.len(),
        forall|i: int|
            0 <= i < a.words@.len() ==> (#[trigger] a.words@[i]).points == b.words@[i].points
                && a.words@[i].pangram == b.words@[i].pangram,
        a.max_score == b.max_score,
        a.pangram_count == b.pangram_count,
{
    assert(words_of(a.words@).len() == words_of(b.words@).len());
    assert(a.words@.len() == b.words@.len());
    assert forall|i: int| 0 <= i < a.words@.len() implies (#[trigger] a.words@[i]).points
        == b.words@[i].points && a.words@[i].pangram == b.words@[i].pangram by {
        assert(words_of(a.words@)[i] == words_of(b.words@)[i]);
        assert(entry_for(a.words@[i], puzzle.letters@));
        assert(entry_for(b.words@[i], puzzle.letters@));
    }
    lemma_pangram_total_same(a.words@, b.words@);
}

// ---------------------------------------------------------------------------
// The documented rules, over all inputs

/// The rank ladder by percentage of the maximum score: below 2% Beginner, from
/// 2% Good Start, 5% Moving Up, 8% Good, 15% Solid, 25% Nice, 40% Great, 50%
/// Amazing, 70% Genius and from 100% Queen Bee; with no maximum, Beginner.
pub proof fn lemma_rank_names_by_percentage(score: u32, max_score: u32)
    ensures
        ({
            let name = rank_name(rank_index(score, max_score));
            let p = percent(score, max_score);
            &&& max_score == 0 ==> name == "Beginner"@
            &&& max_score > 0 ==> {
                &&& p < 2 ==> name == "Beginner"@
                &&& 2 <= p < 5 ==> name == "Good Start"@
                &&& 5 <= p < 8 ==> name == "Moving Up"@
                &&& 8 <= p < 15 ==> name == "Good"@
                &&& 15 <= p < 25 ==> name == "Solid"@
                &&& 25 <= p < 40 ==> name == "Nice"@
                &&& 40 <= p < 50 ==> name == "Great"@
                &&& 50 <= p < 70 ==> name == "Amazing"@
                &&& 70 <= p < 100 ==> name == "Genius"@
                &&& 100 <= p ==> name == "Queen Bee"@
            }
        }),
{
    if max_score > 0 {
        lemma_div_is_ordered(0, saturating_product(score, 100), max_score as int);
        reveal_with_fuel(last_reached, 11);
    }
}

/// The shuffle's generator: a salt starts it at `salt * 0x9E3779B97F4A7C15 + 1`
/// and each step takes `state` to `state * 6364136223846793005 + 1`, both
/// modulo 2^64.
pub proof fn lemma_shuffle_generator(salt: u64, state: u64)
    ensures
        shuffle_seed(salt) as int == (salt as int * 0x9E3779B97F4A7C15int + 1) % 0x1_0000_0000_0000_0000int,
        shuffle_step(state) as int == (state as int * 6364136223846793005int + 1) % 0x1_0000_0000_0000_0000int,
{
    let m = 0x1_0000_0000_0000_0000int;
    let a = (salt as int * 0x9E3779B97F4A7C15int) % m;
    assert(0 <= a < m) by (nonlinear_arith)
        requires
            m > 0,
            a == (salt as int * 0x9E3779B97F4A7C15int) % m,
    ;
    assert((a + 1) % m == (salt as int * 0x9E3779B97F4A7C15int + 1) % m) by {
        vstd::arithmetic::div_mod::lemma_add_mod_noop(
            salt as int * 0x9E3779B97F4A7C15int,
            1,
            m,
        );
        vstd::arithmetic::div_mod::lemma_mod_twice(salt as int * 0x9E3779B97F4A7C15int, m);
    }
    let b = (state as int * 6364136223846793005int) % m;
    assert(0 <= b < m) by (nonlinear_arith)
        requires
            m > 0,
            b == (state as int * 6364136223846793005int) % m,
    ;
    assert((b + 1) % m == (state as int * 6364136223846793005int + 1) % m) by {
        vstd::arithmetic::div_mod::lemma_add_mod_noop(
            state as int * 6364136223846793005int,
            1,
            m,
        );
        vstd::arithmetic::div_mod::lemma_mod_twice(state as int * 6364136223846793005int, m);
    }
}

/// The pangram count counts the entries whose pangram flag is set: none for no
/// entries, one more for each pangram added, and as many as the pangram
/// entries.
pub proof fn lemma_pangram_count(s: Seq<WordEntry>, e: WordEntry)
    ensures
        pangram_total(Seq::<WordEntry>::empty()) == 0,
        pangram_total(s.push(e)) == pangram_total(s) + if e.pangram {
            1int
        } else {
            0int
        },
        pangram_total(s) == s.filter(|x: WordEntry| x.pangram).len(),
    decreases s.len(),
{
    assert(s.push(e).drop_last() =~= s);
    if s.len() > 0 {
        lemma_pangram_count(s.drop_last(), s.last());
        assert(s.drop_last().push(s.last()) =~= s);
        s.drop_last().lemma_filter_push(s.last(), |x: WordEntry| x.pangram);
    } else {
        assert(s.filter(|x: WordEntry| x.pangram).len() == 0) by {
            reveal(Seq::filter);
        }
    }
}

/// The total of points adds each entry's points: none for no entries, and an
/// added entry's points on top.
pub proof fn lemma_points_total(s: Seq<WordEntry>, e: WordEntry)
    ensures
        total_points(Seq::<WordEntry>::empty()) == 0,
        total_points(s.push(e)) == total_points(s) + e.points,
{
    assert(s.push(e).drop_last() =~= s);
}

/// The scoring table: a word of four letters scores 1, one of five letters or
/// more one point per letter, and a pangram seven more.
pub proof fn lemma_scoring_table(n: nat)
    requires
        n <= u32::MAX,
    ensures
        n == 4 ==> word_score(n, false) == 1 && word_score(n, true) == 8,
        n >= 5 ==> word_score(n, false) == n && word_score(n, true) == n + 7,
{
}

proof fn lemma_split_without_newline(t: Seq<char>)
    requires
        !t.contains('\n'),
    ensures
        split_lines(t) == seq![t],
    decreases t.len(),
{
    if t.len() > 0 {
        let init = t.drop_last();
        assert(!init.contains('\n')) by {
            if init.contains('\n') {
                let i = choose|i: int| 0 <= i < init.len() && init[i] == '\n';
                assert(t[i] == '\n');
            }
        }
        lemma_split_without_newline(init);
        assert(t[t.len() - 1] == t.last());
        assert(t.last() != '\n');
        assert(init.push(t.last()) =~= t);
        let r = seq![init];
        assert(r.len() == 1 && r.last() == init);
        assert(r.update(0, init.push(t.last())) =~= seq![t]);
    } else {
        assert(t =~= Seq::<char>::empty());
    }
}

/// A text of one line, newline or not after it, lists that line, trimmed, as
/// its only word, unless it is blank.
pub proof fn lemma_single_line_words(t: Seq<char>)
    requires
        !t.contains('\n'),
    ensures
        listed_words(t) == if trim(t).len() > 0 {
            seq![trim(t)]
        } else {
            Seq::<Seq<char>>::empty()
        },
        listed_words(t.push('\n')) == listed_words(t),
{
    lemma_split_without_newline(t);
    let l = seq![t];
    assert(l.len() == 1);
    assert(l.drop_last() =~= Seq::<Seq<char>>::empty());
    assert(l.last() == t);
    assert(nonblank_trimmed(Seq::<Seq<char>>::empty()) == Seq::<Seq<char>>::empty());
    assert(Seq::<Seq<char>>::empty().push(trim(t)) =~= seq![trim(t)]);
    assert(listed_words(t) == nonblank_trimmed(l));
    lemma_trailing_newline(t);
}

/// A last line without a newline after it is read like any other: adding the
/// newline lists the same words.
pub proof fn lemma_trailing_newline(t: Seq<char>)
    ensures
        listed_words(t.push('\n')) == listed_words(t),
{
    let u = t.push('\n');
    assert(u.drop_last() =~= t);
    let lines = split_lines(t);
    assert(split_lines(u) == lines.push(Seq::<char>::empty()));
    assert(lines.push(Seq::<char>::empty()).drop_last() =~= lines);
    assert(trim_start(Seq::<char>::empty()) == Seq::<char>::empty());
    assert(trim(Seq::<char>::empty()).len() == 0);
}

/// The percentage is the score's share of the maximum in whole percent,
/// rounded down: `p * max <= 100 * score < (p + 1) * max`, where the score
/// times one hundred fits in a `u32`.
pub proof fn lemma_percent_rounds_down(score: u32, max_score: u32)
    requires
        max_score > 0,
        score * 100 <= u32::MAX,
    ensures
        percent(score, max_score) * max_score <= 100 * score < (percent(score, max_score) + 1)
            * max_score,
{
    let m = max_score as int;
    let x = score * 100;
    assert(saturating_product(score, 100) == x);
    let p = x / m;
    assert(p * m <= x < (p + 1) * m) by (nonlinear_arith)
        requires
            m > 0,
            x >= 0,
            p == x / m,
    ;
}

/// A refusal names the first rule the typed word breaks, in this order:
/// fewer than four letters, no center letter, a letter outside the hive, not
/// in the word list, found already.
pub proof fn lemma_refusal_order(
    raw: Seq<char>,
    puzzle: Puzzle,
    found: Seq<Seq<char>>,
    dictionary: Seq<Seq<char>>,
)
    ensures
        ({
            let w = normalize(raw);
            let r = submission_outcome(raw, puzzle.letters@, puzzle.center, found, dictionary);
            &&& w.len() < 4 ==> r == Err::<Seq<char>, SubmitError>(SubmitError::TooShort)
            &&& w.len() >= 4 && !w.contains(puzzle.center) ==> r == Err::<Seq<char>, SubmitError>(
                SubmitError::MissingCenter,
            )
            &&& w.len() >= 4 && w.contains(puzzle.center) && (exists|i: int|
                0 <= i < w.len() && !puzzle.letters@.contains(#[trigger] w[i])) ==> r == Err::<
                Seq<char>,
                SubmitError,
            >(SubmitError::InvalidLetters)
            &&& qualifies(w, puzzle.letters@, puzzle.center) && !dictionary.contains(w) ==> r
                == Err::<Seq<char>, SubmitError>(SubmitError::NotInDictionary)
            &&& qualifies(w, puzzle.letters@, puzzle.center) && dictionary.contains(w)
                && found.contains(w) ==> r == Err::<Seq<char>, SubmitError>(
                SubmitError::AlreadyFound,
            )
            &&& qualifies(w, puzzle.letters@, puzzle.center) && dictionary.contains(w)
                && !found.contains(w) ==> r == Ok::<Seq<char>, SubmitError>(w)
        }),
{
}

proof fn lemma_split_concat(a: Seq<char>, b: Seq<char>)
    ensures
        split_lines(a.push('\n') + b) == split_lines(a) + split_lines(b),
    decreases b.len(),
{
    let x = a.push('\n') + b;
    if b.len() == 0 {
        assert(x =~= a.push('\n'));
        assert(a.push('\n').drop_last() =~= a);
        assert(split_lines(a).push(Seq::<char>::empty()) =~= split_lines(a) + seq![
            Seq::<char>::empty(),
        ]);
    } else {
        let b1 = b.drop_last();
        let c = b.last();
        lemma_split_concat(a, b1);
        assert(x.drop_last() =~= a.push('\n') + b1);
        assert(x.last() == c);
        assert(b.drop_last() == b1);
        let la = split_lines(a);
        let lb = split_lines(b1);
        assert(lb.len() >= 1) by {
            lemma_split_nonempty(b1);
        }
        if c == '\n' {
            assert((la + lb).push(Seq::<char>::empty()) =~= la + lb.push(Seq::<char>::empty()));
        } else {
            let l = la + lb;
            assert(l.update(l.len() - 1, l.last().push(c)) =~= la + lb.update(
                lb.len() - 1,
                lb.last().push(c),
            ));
        }
    }
}

proof fn lemma_split_nonempty(t: Seq<char>)
    ensures
        split_lines(t).len() >= 1,
    decreases t.len(),
{
    if t.len() > 0 {
        lemma_split_nonempty(t.drop_last());
    }
}

proof fn lemma_nonblank_trimmed_concat(x: Seq<Seq<char>>, y: Seq<Seq<char>>)
    ensures
        nonblank_trimmed(x + y) == nonblank_trimmed(x) + nonblank_trimmed(y),
    decreases y.len(),
{
    if y.len() == 0 {
        assert(x + y =~= x);
        assert(nonblank_trimmed(x) + nonblank_trimmed(y) =~= nonblank_trimmed(x));
    } else {
        lemma_nonblank_trimmed_concat(x, y.drop_last());
        assert((x + y).drop_last() =~= x + y.drop_last());
        assert((x + y).last() == y.last());
        let nx = nonblank_trimmed(x);
        let ny = nonblank_trimmed(y.drop_last());
        assert((nx + ny).push(trim(y.last())) =~= nx + ny.push(trim(y.last())));
    }
}

/// The words of two texts joined by a newline are the words of the first
/// followed by those of the second.
pub proof fn lemma_joined_texts_words(a: Seq<char>, b: Seq<char>)
    ensures
        listed_words(a.push('\n') + b) == listed_words(a) + listed_words(b),
{
    lemma_split_concat(a, b);
    lemma_nonblank_trimmed_concat(split_lines(a), split_lines(b));
}

proof fn lemma_trim_start_facts(s: Seq<char>) -> (i: int)
    ensures
        0 <= i <= s.len(),
        trim_start(s) == s.skip(i),
        forall|k: int| 0 <= k < i ==> is_white_space(#[trigger] s[k]),
        i < s.len() ==> !is_white_space(s[i]),
    decreases s.len(),
{
    if s.len() > 0 && is_white_space(s[0]) {
        let j = lemma_trim_start_facts(s.drop_first());
        assert(s.drop_first().skip(j) =~= s.skip(j + 1));
        assert forall|k: int| 0 <= k < j + 1 implies is_white_space(#[trigger] s[k]) by {
            if k > 0 {
                assert(s[k] == s.drop_first()[k - 1]);
            }
        }
        if j + 1 < s.len() {
            assert(s[j + 1] == s.drop_first()[j]);
        }
        j + 1
    } else {
        assert(s.skip(0) =~= s);
        0
    }
}

proof fn lemma_trim_end_facts(s: Seq<char>) -> (j: int)
    ensures
        0 <= j <= s.len(),
        trim_end(s) == s.take(j),
        forall|k: int| j <= k < s.len() ==> is_white_space(#[trigger] s[k]),
        j > 0 ==> !is_white_space(s[j - 1]),
    decreases s.len(),
{
    if s.len() > 0 && is_white_space(s.last()) {
        let j = lemma_trim_end_facts(s.drop_last());
        assert(s.drop_last().take(j) =~= s.take(j));
        assert forall|k: int| j <= k < s.len() implies is_white_space(#[trigger] s[k]) by {
            if k < s.len() - 1 {
                assert(s[k] == s.drop_last()[k]);
            }
        }
        if j > 0 {
            assert(s[j - 1] == s.drop_last()[j - 1]);
        }
        j
    } else {
        assert(s.take(s.len() as int) =~= s);
        s.len() as int
    }
}

/// Trimming removes exactly the white space at both ends: the result is a
/// stretch of the line that neither starts nor ends with white space, and
/// everything outside it is white space.
pub proof fn lemma_trim_removes_outer_space(s: Seq<char>)
    ensures
        exists|i: int, j: int|
            0 <= i <= j <= s.len() && trim(s) == s.subrange(i, j) && (forall|k: int|
                0 <= k < i ==> is_white_space(#[trigger] s[k])) && (forall|k: int|
                j <= k < s.len() ==> is_white_space(#[trigger] s[k])),
        trim(s).len() > 0 ==> !is_white_space(trim(s)[0]) && !is_white_space(trim(s).last()),
{
    let i = lemma_trim_start_facts(s);
    let t = s.skip(i);
    let j = lemma_trim_end_facts(t);
    assert(t.take(j) =~= s.subrange(i, i + j));
    assert forall|k: int| i + j <= k < s.len() implies is_white_space(#[trigger] s[k]) by {
        assert(s[k] == t[k - i]);
    }
    if j > 0 {
        assert(t[0] == s[i]);
        assert(trim(s)[0] == s[i]);
        if i < s.len() {
        }
        assert(trim(s).last() == t[j - 1]);
    }
    assert(0 <= i <= i + j <= s.len() && trim(s) == s.subrange(i, i + j));
}

/// The messages shown for refusals, one per reason.
pub proof fn lemma_refusal_messages()
    ensures
        error_message(SubmitError::TooShort) == "Too short"@,
        error_message(SubmitError::MissingCenter) == "Missing center letter"@,
        error_message(SubmitError::InvalidLetters) == "Invalid letters"@,
        error_message(SubmitError::NotInDictionary) == "Not in word list"@,
        error_message(SubmitError::AlreadyFound) == "Already found"@,
{
}

/// ASCII case: exactly `A`..`Z` and `a`..`z` are letters; lowercasing moves
/// `A`..`Z` down by 32 code points and leaves everything else, uppercasing
/// moves `a`..`z` up by 32 and leaves everything else.
pub proof fn lemma_ascii_case(c: char)
    ensures
        is_ascii_alpha(c) <==> ('A' <= c <= 'Z' || 'a' <= c <= 'z'),
        'A' <= c <= 'Z' ==> ascii_lower(c) as u32 == c as u32 + 32,
        !('A' <= c <= 'Z') ==> ascii_lower(c) == c,
        'a' <= c <= 'z' ==> ascii_upper(c) as u32 == c as u32 - 32,
        !('a' <= c <= 'z') ==> ascii_upper(c) == c,
{
}

/// Keeping the lowercased letters of a text works piece by piece: the letters
/// of two texts together are the letters of the first followed by those of
/// the second, and a single character gives its lowercase form if it is a
/// letter and nothing otherwise.
pub proof fn lemma_normalize_pieces(a: Seq<char>, b: Seq<char>, c: char)
    ensures
        normalize(a + b) == normalize(a) + normalize(b),
        normalize(seq![c]) == if is_ascii_alpha(c) {
            seq![ascii_lower(c)]
        } else {
            Seq::<char>::empty()
        },
    decreases b.len(),
{
    if b.len() == 0 {
        assert(a + b =~= a);
        assert(normalize(a) + normalize(b) =~= normalize(a));
    } else {
        lemma_normalize_pieces(a, b.drop_last(), c);
        assert((a + b).drop_last() =~= a + b.drop_last());
        assert((a + b).last() == b.last());
        let na = normalize(a);
        let nb = normalize(b.drop_last());
        assert((na + nb).push(ascii_lower(b.last())) =~= na + nb.push(ascii_lower(b.last())));
    }
    let one = seq![c];
    assert(one.len() == 1);
    assert(one.drop_last() =~= Seq::<char>::empty());
    assert(one.last() == c);
    assert(normalize(Seq::<char>::empty()) == Seq::<char>::empty());
    assert(normalize(one) == if is_ascii_alpha(c) {
        normalize(one.drop_last()).push(ascii_lower(c))
    } else {
        normalize(one.drop_last())
    });
    assert(Seq::<char>::empty().push(ascii_lower(c)) =~= seq![ascii_lower(c)]);
}

} // verus!
