//! The rules of the game: the puzzle, what a valid word is, how words score,
//! the ranks, and the order in which the outer letters are shown.

use vstd::prelude::*;

use crate::dictionary::{strictly_sorted, Dictionary};
use crate::text::{
    ascii_lower, chars_of, compare_chars, is_ascii_alpha, is_ascii_alphabetic, lex_lt,
    string_from_chars, to_ascii_lowercase, LexOrder,
};
use std::collections::HashMap;

verus! {

/// A hive: seven letters and the one that every word must use.
#[derive(Clone, Debug, PartialEq, Eq)]
pub struct Puzzle {
    pub letters: Vec<char>,
    pub center: char,
}

/// Why a submitted word was refused.
#[derive(Clone, Copy, Debug, PartialEq, Eq, Structural)]
pub enum SubmitError {
    TooShort,
    MissingCenter,
    InvalidLetters,
    NotInDictionary,
    AlreadyFound,
}

/// The text shown to the player for each refusal.
pub open spec fn error_message(e: SubmitError) -> Seq<char> {
    match e {
        SubmitError::TooShort => "Too short"@,
        SubmitError::MissingCenter => "Missing center letter"@,
        SubmitError::InvalidLetters => "Invalid letters"@,
        SubmitError::NotInDictionary => "Not in word list"@,
        SubmitError::AlreadyFound => "Already found"@,
    }
}

impl SubmitError {
    pub fn message(&self) -> (m: &'static str)
        ensures
            m@ == error_message(*self),
    {
        match self {
            SubmitError::TooShort => "Too short",
            SubmitError::MissingCenter => "Missing center letter",
            SubmitError::InvalidLetters => "Invalid letters",
            SubmitError::NotInDictionary => "Not in word list",
            SubmitError::AlreadyFound => "Already found",
        }
    }
}

/// An accepted word with its score.
#[derive(Clone, Debug, PartialEq, Eq)]
pub struct WordEntry {
    pub word: String,
    pub points: u32,
    pub pangram: bool,
}

/// Every word that a puzzle admits, with the totals.
#[derive(Clone, Debug)]
pub struct PuzzleStats {
    pub words: Vec<WordEntry>,
    pub max_score: u32,
    pub pangram_count: u32,
}

/// A rank and the share of the maximum score, in percent, that reaches it.
#[derive(Clone, Copy, Debug, PartialEq, Eq)]
pub struct Rank {
    pub name: &'static str,
    pub threshold_pct: u32,
}

// ---------------------------------------------------------------------------
// Letters

/// The ASCII letters of `s`, in order, in lowercase; everything else dropped.
pub open spec fn normalize(s: Seq<char>) -> Seq<char>
    decreases s.len(),
{
    if s.len() == 0 {
        Seq::<char>::empty()
    } else {
        let rest = normalize(s.drop_last());
        if is_ascii_alpha(s.last()) {
            rest.push(ascii_lower(s.last()))
        } else {
            rest
        }
    }
}

/// The ASCII letters of `s`, lowercased.
pub fn normalized(s: &str) -> (v: Vec<char>)
    ensures
        v@ == normalize(s@),
{
    let mut v: Vec<char> = Vec::new();
    proof {
        assert(s@.take(0) =~= Seq::<char>::empty());
    }
    for c in it: s.chars()
        invariant
            it.seq() == s@,
            0 <= it.index() <= s@.len(),
            v@ == normalize(s@.take(it.index() as int)),
    {
        proof {
            let p = s@.take(it.index() as int);
            assert(s@.take(it.index() + 1) =~= p.push(c));
            assert(p.push(c).drop_last() =~= p);
        }
        if is_ascii_alphabetic(c) {
            v.push(to_ascii_lowercase(c));
        }
    }
    proof {
        assert(s@.take(s@.len() as int) =~= s@);
    }
    v
}

/// Each letter comes strictly before the next.
pub open spec fn increasing(s: Seq<char>) -> bool {
    forall|i: int, j: int| 0 <= i < j < s.len() ==> s[i] < s[j]
}

/// The letters and center that `parse_puzzle` accepts: seven distinct letters
/// once non-letters are dropped and case is folded, with the center among them.
pub open spec fn puzzle_input_valid(raw: Seq<char>, center: char) -> bool {
    let n = normalize(raw);
    &&& n.len() == 7
    &&& n.no_duplicates()
    &&& n.contains(ascii_lower(center))
}

impl Puzzle {
    /// Seven lowercase letters in increasing order, the center among them.
    pub open spec fn wf(&self) -> bool {
        &&& self.letters@.len() == 7
        &&& increasing(self.letters@)
        &&& forall|i: int|
            0 <= i < self.letters@.len() ==> 'a' <= #[trigger] self.letters@[i] <= 'z'
        &&& self.letters@.contains(self.center)
    }
}

/// The hive read from these letters and center: well formed, holding exactly
/// the letters of the input (lowercased, non-letters dropped), in increasing
/// order, with the lowercased center.
pub open spec fn parses_to(raw: Seq<char>, center: char, p: Puzzle) -> bool {
    &&& p.wf()
    &&& forall|c: char| #[trigger] p.letters@.contains(c) <==> normalize(raw).contains(c)
    &&& p.center == ascii_lower(center)
}

/// Whether `c` is in `v`.
pub(crate) fn contains_char(v: &Vec<char>, c: char) -> (r: bool)
    ensures
        r == v@.contains(c),
{
    let mut i: usize = 0;
    while i < v.len()
        invariant
            i <= v.len(),
            forall|k: int| 0 <= k < i ==> v@[k] != c,
        decreases v.len() - i,
    {
        if v[i] == c {
            return true;
        }
        i += 1;
    }
    false
}

pub proof fn lemma_normalize_letters(s: Seq<char>)
    ensures
        forall|i: int| 0 <= i < normalize(s).len() ==> 'a' <= #[trigger] normalize(s)[i] <= 'z',
    decreases s.len(),
{
    if s.len() > 0 {
        lemma_normalize_letters(s.drop_last());
        let c = s.last();
        if is_ascii_alpha(c) {
            if 'A' <= c && c <= 'Z' {
                assert('a' <= ((c as u32) + 32) as char <= 'z');
            }
        }
        let n = normalize(s);
        let m = normalize(s.drop_last());
        assert forall|i: int| 0 <= i < n.len() implies 'a' <= #[trigger] n[i] <= 'z' by {
            if i < m.len() {
                assert(n[i] == m[i]);
            }
        }
    }
}

/// Reads a hive from the letters typed and the chosen center: `None` unless
/// there are exactly seven distinct letters and the center is one of them.
pub fn parse_puzzle(raw_letters: &str, center: char) -> (r: Option<Puzzle>)
    ensures
        r is Some <==> puzzle_input_valid(raw_letters@, center),
        r matches Some(p) ==> parses_to(raw_letters@, center, p),
{
    let norm = normalized(raw_letters);
    if norm.len() != 7 {
        return None;
    }
    let mut letters: Vec<char> = Vec::new();
    let mut i: usize = 0;
    proof {
        assert(norm@.take(0) =~= Seq::<char>::empty());
    }
    while i < 7
        invariant
            norm@ == normalize(raw_letters@),
            norm@.len() == 7,
            i <= 7,
            letters@.len() == i,
            increasing(letters@),
            norm@.take(i as int).no_duplicates(),
            forall|c: char| #[trigger]
                letters@.contains(c) <==> norm@.take(i as int).contains(c),
        decreases 7 - i,
    {
        let c = norm[i];
        let ghost p = norm@.take(i as int);
        proof {
            assert(norm@.take(i + 1) =~= p.push(c));
        }
        let mut k: usize = 0;
        while k < letters.len() && letters[k] < c
            invariant
                k <= letters@.len(),
                forall|m: int| 0 <= m < k ==> letters@[m] < c,
            decreases letters@.len() - k,
        {
            k += 1;
        }
        if k < letters.len() && letters[k] == c {
            proof {
                assert(letters@.contains(c));
                assert(p.contains(c));
                let j = choose|j: int| 0 <= j < p.len() && p[j] == c;
                assert(norm@[j] == norm@[i as int]);
                assert(!norm@.no_duplicates());
            }
            return None;
        }
        let ghost old_letters = letters@;
        letters.insert(k, c);
        proof {
            assert(letters@ =~= old_letters.insert(k as int, c));
            assert forall|a: int, b: int| 0 <= a < b < letters@.len() implies letters@[a]
                < letters@[b] by {
                if b < k {
                } else if b == k {
                } else if a < k {
                    assert(old_letters[a] < c);
                    if k < old_letters.len() {
                        assert(old_letters[k as int] > c);
                    }
                } else if a == k {
                    assert(old_letters[k as int] > c);
                } else {
                }
            }
            assert(!old_letters.contains(c)) by {
                if old_letters.contains(c) {
                    let j = choose|j: int| 0 <= j < old_letters.len() && old_letters[j] == c;
                    if j < k {
                    } else {
                        assert(old_letters[k as int] > c || j == k);
                    }
                }
            }
            assert(!p.contains(c));
            let q = p.push(c);
            assert forall|a: int, b: int| 0 <= a < q.len() && 0 <= b < q.len() && a != b implies q[a]
                != q[b] by {
                if a == q.len() - 1 {
                    assert(q[b] == p[b]);
                } else if b == q.len() - 1 {
                    assert(q[a] == p[a]);
                }
            }
            assert forall|x: char| #[trigger] letters@.contains(x) <==> q.contains(x) by {
                if letters@.contains(x) {
                    let j = choose|j: int| 0 <= j < letters@.len() && letters@[j] == x;
                    if j < k {
                        assert(old_letters[j] == x);
                        assert(old_letters.contains(x));
                        let m = choose|m: int| 0 <= m < p.len() && p[m] == x;
                        assert(q[m] == x);
                    } else if j == k {
                        assert(q[q.len() - 1] == x);
                    } else {
                        assert(old_letters[j - 1] == x);
                        assert(old_letters.contains(x));
                        let m = choose|m: int| 0 <= m < p.len() && p[m] == x;
                        assert(q[m] == x);
                    }
                }
                if q.contains(x) {
                    let m = choose|m: int| 0 <= m < q.len() && q[m] == x;
                    if m == q.len() - 1 {
                        assert(letters@[k as int] == x);
                    } else {
                        assert(p[m] == x);
                        assert(old_letters.contains(x));
                        let j = choose|j: int| 0 <= j < old_letters.len() && old_letters[j] == x;
                        if j < k {
                            assert(letters@[j] == x);
                        } else {
                            assert(letters@[j + 1] == x);
                        }
                    }
                }
            }
        }
        i += 1;
    }
    proof {
        assert(norm@.take(7) =~= norm@);
    }
    let center = to_ascii_lowercase(center);
    if !contains_char(&letters, center) {
        return None;
    }
    proof {
        lemma_normalize_letters(raw_letters@);
        assert forall|i: int| 0 <= i < letters@.len() implies 'a' <= #[trigger] letters@[i]
            <= 'z' by {
            assert(letters@.contains(letters@[i]));
            let j = choose|j: int| 0 <= j < norm@.len() && norm@[j] == letters@[i];
        }
    }
    Some(Puzzle { letters, center })
}

/// `s` with every occurrence of `c` removed.
pub open spec fn without(s: Seq<char>, c: char) -> Seq<char>
    decreases s.len(),
{
    if s.len() == 0 {
        Seq::<char>::empty()
    } else {
        let rest = without(s.drop_last(), c);
        if s.last() == c {
            rest
        } else {
            rest.push(s.last())
        }
    }
}

/// The letters other than the center, in the puzzle's order.
pub fn outer_letters(puzzle: &Puzzle) -> (r: Vec<char>)
    ensures
        r@ == without(puzzle.letters@, puzzle.center),
{
    let mut r: Vec<char> = Vec::new();
    let mut i: usize = 0;
    proof {
        assert(puzzle.letters@.take(0) =~= Seq::<char>::empty());
    }
    while i < puzzle.letters.len()
        invariant
            i <= puzzle.letters@.len(),
            r@ == without(puzzle.letters@.take(i as int), puzzle.center),
        decreases puzzle.letters@.len() - i,
    {
        let c = puzzle.letters[i];
        proof {
            let p = puzzle.letters@.take(i as int);
            assert(puzzle.letters@.take(i + 1) =~= p.push(c));
            assert(p.push(c).drop_last() =~= p);
        }
        if c != puzzle.center {
            r.push(c);
        }
        i += 1;
    }
    proof {
        assert(puzzle.letters@.take(puzzle.letters@.len() as int) =~= puzzle.letters@);
    }
    r
}

/// `word` uses every one of `letters`.
pub open spec fn uses_all(word: Seq<char>, letters: Seq<char>) -> bool {
    forall|i: int| 0 <= i < letters.len() ==> word.contains(#[trigger] letters[i])
}

/// Every character of `word` is one of `letters`.
pub open spec fn uses_only(word: Seq<char>, letters: Seq<char>) -> bool {
    forall|i: int| 0 <= i < word.len() ==> letters.contains(#[trigger] word[i])
}

/// Whether every letter of `chars` appears in `letters`.
fn all_in(chars: &Vec<char>, letters: &Vec<char>) -> (r: bool)
    ensures
        r == uses_only(chars@, letters@),
{
    let mut i: usize = 0;
    while i < chars.len()
        invariant
            i <= chars@.len(),
            forall|k: int| 0 <= k < i ==> letters@.contains(#[trigger] chars@[k]),
        decreases chars@.len() - i,
    {
        if !contains_char(letters, chars[i]) {
            return false;
        }
        i += 1;
    }
    true
}

/// Whether the characters `chars` use every letter of the puzzle.
fn uses_every_letter(chars: &Vec<char>, letters: &Vec<char>) -> (r: bool)
    ensures
        r == uses_all(chars@, letters@),
{
    let mut i: usize = 0;
    while i < letters.len()
        invariant
            i <= letters@.len(),
            forall|k: int| 0 <= k < i ==> chars@.contains(#[trigger] letters@[k]),
        decreases letters@.len() - i,
    {
        if !contains_char(chars, letters[i]) {
            return false;
        }
        i += 1;
    }
    true
}

/// A pangram uses every letter of the hive.
pub fn is_pangram(word: &str, puzzle: &Puzzle) -> (r: bool)
    ensures
        r == uses_all(word@, puzzle.letters@),
{
    let chars = chars_of(word);
    uses_every_letter(&chars, &puzzle.letters)
}

// ---------------------------------------------------------------------------
// Scoring

/// Points for a word of `len` characters: one for four letters, otherwise one
/// per letter, and seven more for a pangram. The length is counted in a `u32`.
pub open spec fn word_score(len: nat, pangram: bool) -> int {
    let n = len as u32;
    let base: int = if n == 4 {
        1
    } else {
        n as int
    };
    if pangram {
        base + 7
    } else {
        base
    }
}

/// The points for a word of `len` characters.
fn points_for(len: usize, pangram: bool) -> (r: u32)
    requires
        word_score(len as nat, pangram) <= u32::MAX,
    ensures
        r == word_score(len as nat, pangram),
{
    let n = len as u32;
    let base: u32 = if n == 4 {
        1
    } else {
        n
    };
    if pangram {
        base + 7
    } else {
        base
    }
}

pub fn score_word(word: &str, pangram: bool) -> (r: u32)
    requires
        word_score(word@.len(), pangram) <= u32::MAX,
    ensures
        r == word_score(word@.len(), pangram),
{
    points_for(word.unicode_len(), pangram)
}

// ---------------------------------------------------------------------------
// Submissions

/// The words held by a list of strings.
pub open spec fn strings_view(v: Seq<String>) -> Seq<Seq<char>> {
    v.map_values(|s: String| s@)
}

/// A word that the hive admits: four letters or more, the center among them,
/// and no letter from outside the hive.
pub open spec fn qualifies(w: Seq<char>, letters: Seq<char>, center: char) -> bool {
    &&& w.len() >= 4
    &&& w.contains(center)
    &&& uses_only(w, letters)
}

/// What a submission comes to: the word it names, or the first rule it breaks
/// in the order length, center, letters, word list, already found.
pub open spec fn submission_outcome(
    raw: Seq<char>,
    letters: Seq<char>,
    center: char,
    found: Seq<Seq<char>>,
    dictionary: Seq<Seq<char>>,
) -> Result<Seq<char>, SubmitError> {
    let w = normalize(raw);
    if w.len() < 4 {
        Err(SubmitError::TooShort)
    } else if !w.contains(center) {
        Err(SubmitError::MissingCenter)
    } else if !uses_only(w, letters) {
        Err(SubmitError::InvalidLetters)
    } else if !dictionary.contains(w) {
        Err(SubmitError::NotInDictionary)
    } else if found.contains(w) {
        Err(SubmitError::AlreadyFound)
    } else {
        Ok(w)
    }
}

/// The entry for `w` in a hive with these letters: its pangram flag and points.
pub open spec fn entry_for(e: WordEntry, letters: Seq<char>) -> bool {
    &&& e.pangram == uses_all(e.word@, letters)
    &&& e.points == word_score(e.word@.len(), e.pangram)
}

/// Whether `w` is one of the strings in `v`.
fn contains_string(v: &Vec<String>, w: &String) -> (r: bool)
    ensures
        r == strings_view(v@).contains(w@),
{
    let mut i: usize = 0;
    while i < v.len()
        invariant
            i <= v@.len(),
            forall|k: int| 0 <= k < i ==> v@[k]@ != w@,
        decreases v@.len() - i,
    {
        if v[i] == *w {
            assert(strings_view(v@)[i as int] == w@);
            return true;
        }
        i += 1;
    }
    false
}

/// Checks a typed word against the hive, the word list and the words already
/// found, and scores it when it passes.
pub fn validate_submission(
    raw: &str,
    puzzle: &Puzzle,
    found: &Vec<String>,
    dictionary: &Dictionary,
) -> (r: Result<WordEntry, SubmitError>)
    requires
        submission_outcome(raw@, puzzle.letters@, puzzle.center, strings_view(found@), dictionary@) matches Ok(w)
            ==> word_score(w.len(), uses_all(w, puzzle.letters@)) <= u32::MAX,
    ensures
        match r {
            Ok(e) => {
                &&& submission_outcome(raw@, puzzle.letters@, puzzle.center, strings_view(found@), dictionary@)
                    == Ok::<Seq<char>, SubmitError>(e.word@)
                &&& entry_for(e, puzzle.letters@)
            },
            Err(err) => submission_outcome(raw@, puzzle.letters@, puzzle.center, strings_view(found@), dictionary@)
                == Err::<Seq<char>, SubmitError>(err),
        },
{
    let chars = normalized(raw);
    if chars.len() < 4 {
        return Err(SubmitError::TooShort);
    }
    if !contains_char(&chars, puzzle.center) {
        return Err(SubmitError::MissingCenter);
    }
    if !all_in(&chars, &puzzle.letters) {
        return Err(SubmitError::InvalidLetters);
    }
    if !dictionary.contains(&chars) {
        return Err(SubmitError::NotInDictionary);
    }
    let word = string_from_chars(&chars);
    if contains_string(found, &word) {
        return Err(SubmitError::AlreadyFound);
    }
    let pangram = uses_every_letter(&chars, &puzzle.letters);
    let points = points_for(chars.len(), pangram);
    Ok(WordEntry { word, points, pangram })
}

// ---------------------------------------------------------------------------
// Analysis

/// The words of a list of entries.
pub open spec fn words_of(entries: Seq<WordEntry>) -> Seq<Seq<char>> {
    entries.map_values(|e: WordEntry| e.word@)
}

/// The sum of the entries' points.
pub open spec fn total_points(entries: Seq<WordEntry>) -> int
    decreases entries.len(),
{
    if entries.len() == 0 {
        0
    } else {
        total_points(entries.drop_last()) + entries.last().points
    }
}

/// How many of the entries are pangrams.
pub open spec fn pangram_total(entries: Seq<WordEntry>) -> int
    decreases entries.len(),
{
    if entries.len() == 0 {
        0
    } else {
        pangram_total(entries.drop_last()) + if entries.last().pangram {
            1int
        } else {
            0int
        }
    }
}

/// The sum of the scores of the words of `ws` that the hive admits.
pub open spec fn qualifying_points(ws: Seq<Seq<char>>, letters: Seq<char>, center: char) -> int
    decreases ws.len(),
{
    if ws.len() == 0 {
        0
    } else {
        qualifying_points(ws.drop_last(), letters, center) + if qualifies(
            ws.last(),
            letters,
            center,
        ) {
            word_score(ws.last().len(), uses_all(ws.last(), letters))
        } else {
            0
        }
    }
}

/// The words of `ws` that the hive admits, in order.
pub open spec fn puzzle_words(ws: Seq<Seq<char>>, letters: Seq<char>, center: char) -> Seq<Seq<char>>
    decreases ws.len(),
{
    if ws.len() == 0 {
        Seq::<Seq<char>>::empty()
    } else {
        let rest = puzzle_words(ws.drop_last(), letters, center);
        if qualifies(ws.last(), letters, center) {
            rest.push(ws.last())
        } else {
            rest
        }
    }
}

/// The words of a prefix of a list score no more than those of the whole list.
pub proof fn lemma_qualifying_points_prefix(ws: Seq<Seq<char>>, letters: Seq<char>, center: char, i: int)
    requires
        0 <= i <= ws.len(),
    ensures
        qualifying_points(ws.take(i), letters, center) <= qualifying_points(ws, letters, center),
    decreases ws.len() - i,
{
    if i < ws.len() {
        lemma_qualifying_points_prefix(ws, letters, center, i + 1);
        assert(ws.take(i + 1).drop_last() =~= ws.take(i));
        let w = ws[i];
        assert(word_score(w.len(), uses_all(w, letters)) >= 0);
    } else {
        assert(ws.take(i) =~= ws);
    }
}

/// Whether the hive's words in this list score, together, no more than a
/// `u32` holds.
pub fn hive_points_fit(puzzle: &Puzzle, dictionary: &Dictionary) -> (r: bool)
    ensures
        r == (qualifying_points(dictionary@, puzzle.letters@, puzzle.center) <= u32::MAX),
{
    let ghost d = dictionary@;
    let ghost letters = puzzle.letters@;
    let ghost center = puzzle.center;
    let n = dictionary.len();
    let mut total: u64 = 0;
    let mut i: usize = 0;
    proof {
        assert(d.take(0) =~= Seq::<Seq<char>>::empty());
    }
    while i < n
        invariant
            d == dictionary@,
            letters == puzzle.letters@,
            center == puzzle.center,
            n == d.len(),
            i <= n,
            total == qualifying_points(d.take(i as int), letters, center),
            total <= u32::MAX,
        decreases n - i,
    {
        let w = dictionary.word_at(i);
        let ghost p = d.take(i as int);
        proof {
            assert(d.take(i + 1) =~= p.push(w@));
            assert(p.push(w@).drop_last() =~= p);
        }
        if w.len() >= 4 && contains_char(w, puzzle.center) && all_in(w, &puzzle.letters) {
            let pangram = uses_every_letter(w, &puzzle.letters);
            let len = w.len() as u32;
            let base: u64 = if len == 4 {
                1
            } else {
                len as u64
            };
            let points: u64 = if pangram {
                base + 7
            } else {
                base
            };
            total = total + points;
        }
        if total > 0xffff_ffff {
            proof {
                lemma_qualifying_points_prefix(d, letters, center, i + 1);
            }
            return false;
        }
        i += 1;
    }
    proof {
        assert(d.take(n as int) =~= d);
    }
    true
}

/// What the analysis of a hive gives: each word of the list that the hive
/// admits, in increasing order, scored, with the total of the points and the
/// number of pangrams.
pub open spec fn analysis_of(
    st: PuzzleStats,
    letters: Seq<char>,
    center: char,
    dictionary: Seq<Seq<char>>,
) -> bool {
    &&& forall|i: int| 0 <= i < st.words@.len() ==> {
        let e = #[trigger] st.words@[i];
        &&& qualifies(e.word@, letters, center)
        &&& dictionary.contains(e.word@)
        &&& entry_for(e, letters)
    }
    &&& words_of(st.words@) == puzzle_words(dictionary, letters, center)
    &&& strictly_sorted(words_of(st.words@))
    &&& st.max_score == total_points(st.words@)
    &&& st.pangram_count == pangram_total(st.words@)
    &&& st.max_score == qualifying_points(dictionary, letters, center)
}

/// Every word of the word list that the hive admits, in increasing order, with
/// the total of their points and the number of pangrams.
pub fn analyze_puzzle(puzzle: &Puzzle, dictionary: &Dictionary) -> (stats: PuzzleStats)
    requires
        qualifying_points(dictionary@, puzzle.letters@, puzzle.center) <= u32::MAX,
    ensures
        analysis_of(stats, puzzle.letters@, puzzle.center, dictionary@),
{
    proof {
        use_type_invariant(dictionary);
        dictionary.lemma_strictly_sorted();
    }
    let ghost d = dictionary@;
    let ghost letters = puzzle.letters@;
    let ghost center = puzzle.center;
    let n = dictionary.len();
    let mut words: Vec<WordEntry> = Vec::new();
    let mut total: u32 = 0;
    let mut pangrams: u32 = 0;
    let mut i: usize = 0;
    proof {
        assert(d.take(0) =~= Seq::<Seq<char>>::empty());
    }
    while i < n
        invariant
            d == dictionary@,
            letters == puzzle.letters@,
            center == puzzle.center,
            n == d.len(),
            i <= n,
            strictly_sorted(d),
            qualifying_points(d, letters, center) <= u32::MAX,
            forall|k: int| 0 <= k < words@.len() ==> {
                let e = #[trigger] words@[k];
                &&& qualifies(e.word@, letters, center)
                &&& d.contains(e.word@)
                &&& entry_for(e, letters)
            },
            forall|k: int, m: int|
                0 <= k < words@.len() && i <= m < n ==> lex_lt(
                    #[trigger] words_of(words@)[k],
                    #[trigger] d[m],
                ),
            words_of(words@) == puzzle_words(d.take(i as int), letters, center),
            strictly_sorted(words_of(words@)),
            total == total_points(words@),
            total == qualifying_points(d.take(i as int), letters, center),
            pangrams == pangram_total(words@),
            7 * pangrams <= total,
        decreases n - i,
    {
        let w = dictionary.word_at(i);
        let ghost p = d.take(i as int);
        proof {
            assert(d.take(i + 1) =~= p.push(w@));
            assert(p.push(w@).drop_last() =~= p);
            lemma_qualifying_points_prefix(d, letters, center, i + 1);
        }
        if w.len() >= 4 && contains_char(w, puzzle.center) && all_in(w, &puzzle.letters) {
            let pangram = uses_every_letter(w, &puzzle.letters);
            let points = points_for(w.len(), pangram);
            let word = string_from_chars(w);
            let ghost old_words = words@;
            let e = WordEntry { word, points, pangram };
            total = total + points;
            if pangram {
                pangrams = pangrams + 1;
            }
            words.push(e);
            proof {
                assert(words@.drop_last() =~= old_words);
                assert(words_of(words@) =~= words_of(old_words).push(w@));
                assert(d[i as int] == w@);
                assert(d.contains(w@));
                assert forall|a: int, b: int| 0 <= a < b < words_of(words@).len() implies lex_lt(
                    #[trigger] words_of(words@)[a],
                    #[trigger] words_of(words@)[b],
                ) by {
                    if b == words_of(words@).len() - 1 {
                        assert(words_of(old_words)[a] == words_of(words@)[a]);
                    } else {
                        assert(words_of(old_words)[a] == words_of(words@)[a]);
                        assert(words_of(old_words)[b] == words_of(words@)[b]);
                    }
                }
                assert forall|k: int, m: int|
                    0 <= k < words@.len() && i + 1 <= m < n implies lex_lt(
                    #[trigger] words_of(words@)[k],
                    #[trigger] d[m],
                ) by {
                    if k == words@.len() - 1 {
                    } else {
                        assert(words_of(old_words)[k] == words_of(words@)[k]);
                    }
                }
            }
        }
        i += 1;
    }
    proof {
        assert(d.take(n as int) =~= d);
    }
    PuzzleStats { words, max_score: total, pangram_count: pangrams }
}

// ---------------------------------------------------------------------------
// Ranks

/// The share of the maximum score, in percent, that reaches rank `i` (0..10).
pub open spec fn rank_threshold(i: int) -> u32 {
    if i <= 0 {
        0
    } else if i == 1 {
        2
    } else if i == 2 {
        5
    } else if i == 3 {
        8
    } else if i == 4 {
        15
    } else if i == 5 {
        25
    } else if i == 6 {
        40
    } else if i == 7 {
        50
    } else if i == 8 {
        70
    } else {
        100
    }
}

/// The name of rank `i` (0..10).
pub open spec fn rank_name(i: int) -> Seq<char> {
    if i <= 0 {
        "Beginner"@
    } else if i == 1 {
        "Good Start"@
    } else if i == 2 {
        "Moving Up"@
    } else if i == 3 {
        "Good"@
    } else if i == 4 {
        "Solid"@
    } else if i == 5 {
        "Nice"@
    } else if i == 6 {
        "Great"@
    } else if i == 7 {
        "Amazing"@
    } else if i == 8 {
        "Genius"@
    } else {
        "Queen Bee"@
    }
}

/// How many ranks there are.
pub open spec fn rank_count() -> int {
    10
}

/// The ranks from lowest to highest.
pub fn ranks() -> (r: Vec<Rank>)
    ensures
        r@.len() == rank_count(),
        forall|i: int|
            0 <= i < rank_count() ==> (#[trigger] r@[i]).name@ == rank_name(i)
                && r@[i].threshold_pct == rank_threshold(i),
{
    let mut r: Vec<Rank> = Vec::new();
    r.push(Rank { name: "Beginner", threshold_pct: 0 });
    r.push(Rank { name: "Good Start", threshold_pct: 2 });
    r.push(Rank { name: "Moving Up", threshold_pct: 5 });
    r.push(Rank { name: "Good", threshold_pct: 8 });
    r.push(Rank { name: "Solid", threshold_pct: 15 });
    r.push(Rank { name: "Nice", threshold_pct: 25 });
    r.push(Rank { name: "Great", threshold_pct: 40 });
    r.push(Rank { name: "Amazing", threshold_pct: 50 });
    r.push(Rank { name: "Genius", threshold_pct: 70 });
    r.push(Rank { name: "Queen Bee", threshold_pct: 100 });
    r
}

/// `a * b`, or `u32::MAX` where the product does not fit.
pub open spec fn saturating_product(a: u32, b: u32) -> int {
    if a * b > u32::MAX {
        u32::MAX as int
    } else {
        a * b
    }
}

fn saturating_mul(a: u32, b: u32) -> (r: u32)
    ensures
        r == saturating_product(a, b),
{
    match a.checked_mul(b) {
        Some(v) => v,
        None => u32::MAX,
    }
}

/// The score as a whole percentage of the maximum, rounded down, the score
/// times one hundred saturating at `u32::MAX`.
pub open spec fn percent(score: u32, max_score: u32) -> int {
    saturating_product(score, 100) / (max_score as int)
}

fn percent_of(score: u32, max_score: u32) -> (r: u32)
    requires
        max_score > 0,
    ensures
        r == percent(score, max_score),
{
    saturating_mul(score, 100) / max_score
}

/// The highest of the first `n` ranks whose threshold `pct` reaches; rank 0
/// when none of the others is reached.
pub open spec fn last_reached(pct: int, n: int) -> int
    decreases n,
{
    if n <= 1 {
        0
    } else if rank_threshold(n - 1) <= pct {
        n - 1
    } else {
        last_reached(pct, n - 1)
    }
}

/// The index of the rank that a score holds.
pub open spec fn rank_index(score: u32, max_score: u32) -> int {
    if max_score == 0 {
        0
    } else {
        last_reached(percent(score, max_score), rank_count())
    }
}

/// The name of the rank that `score` holds out of `max_score`.
pub fn current_rank(score: u32, max_score: u32) -> (r: &'static str)
    ensures
        r@ == rank_name(rank_index(score, max_score)),
{
    if max_score == 0 {
        return "Beginner";
    }
    let pct = percent_of(score, max_score);
    let table = ranks();
    let mut current = table[0].name;
    let mut i: usize = 0;
    while i < table.len()
        invariant
            table@.len() == rank_count(),
            forall|k: int|
                0 <= k < rank_count() ==> (#[trigger] table@[k]).name@ == rank_name(k)
                    && table@[k].threshold_pct == rank_threshold(k),
            i <= table@.len(),
            current@ == rank_name(last_reached(pct as int, i as int)),
        decreases table@.len() - i,
    {
        if pct >= table[i].threshold_pct {
            current = table[i].name;
        }
        i += 1;
    }
    current
}

/// The first rank, from index `i` on, whose threshold `pct` has not reached;
/// `rank_count()` when there is none.
pub open spec fn first_unreached(pct: int, i: int) -> int
    decreases rank_count() - i,
{
    if i >= rank_count() {
        rank_count()
    } else if pct < rank_threshold(i) {
        i
    } else {
        first_unreached(pct, i + 1)
    }
}

/// The score that reaches a threshold: the threshold's share of the maximum,
/// rounded up, the product saturating at `u32::MAX`.
pub open spec fn threshold_points(threshold_pct: u32, max_score: u32) -> int {
    let p = saturating_product(threshold_pct, max_score);
    if p % 100 == 0 {
        p / 100
    } else {
        p / 100 + 1
    }
}

fn threshold_points_of(threshold_pct: u32, max_score: u32) -> (r: u32)
    ensures
        r == threshold_points(threshold_pct, max_score),
{
    let p = saturating_mul(threshold_pct, max_score);
    if p % 100 == 0 {
        p / 100
    } else {
        p / 100 + 1
    }
}

/// The next rank above the current one and how many more points reach it;
/// `None` when the maximum is zero or the top rank is held.
pub fn next_rank(score: u32, max_score: u32) -> (r: Option<(&'static str, u32)>)
    ensures
        r is None <==> max_score == 0 || first_unreached(percent(score, max_score), 0)
            == rank_count(),
        r matches Some((name, needed)) ==> {
            let k = first_unreached(percent(score, max_score), 0);
            &&& name@ == rank_name(k)
            &&& needed == if threshold_points(rank_threshold(k), max_score) > score {
                threshold_points(rank_threshold(k), max_score) - score
            } else {
                0
            }
        },
{
    if max_score == 0 {
        return None;
    }
    let pct = percent_of(score, max_score);
    let table = ranks();
    let mut i: usize = 0;
    while i < table.len()
        invariant
            table@.len() == rank_count(),
            forall|k: int|
                0 <= k < rank_count() ==> (#[trigger] table@[k]).name@ == rank_name(k)
                    && table@[k].threshold_pct == rank_threshold(k),
            i <= table@.len(),
            max_score > 0,
            pct == percent(score, max_score),
            first_unreached(pct as int, 0) == first_unreached(pct as int, i as int),
        decreases table@.len() - i,
    {
        if pct < table[i].threshold_pct {
            let needed_score = threshold_points_of(table[i].threshold_pct, max_score);
            return Some((table[i].name, needed_score.saturating_sub(score)));
        }
        i += 1;
    }
    None
}

/// For each rank, its name and the score that reaches it.
pub fn rank_markers(max_score: u32) -> (r: Vec<(&'static str, u32)>)
    ensures
        r@.len() == rank_count(),
        forall|i: int|
            0 <= i < rank_count() ==> (#[trigger] r@[i]).0@ == rank_name(i) && r@[i].1
                == threshold_points(rank_threshold(i), max_score),
{
    let table = ranks();
    let mut r: Vec<(&'static str, u32)> = Vec::new();
    let mut i: usize = 0;
    while i < table.len()
        invariant
            table@.len() == rank_count(),
            forall|k: int|
                0 <= k < rank_count() ==> (#[trigger] table@[k]).name@ == rank_name(k)
                    && table@[k].threshold_pct == rank_threshold(k),
            i <= table@.len(),
            r@.len() == i,
            forall|k: int|
                0 <= k < i ==> (#[trigger] r@[k]).0@ == rank_name(k) && r@[k].1
                    == threshold_points(rank_threshold(k), max_score),
        decreases table@.len() - i,
    {
        let points = threshold_points_of(table[i].threshold_pct, max_score);
        r.push((table[i].name, points));
        i += 1;
    }
    r
}

/// Whether the marker of rank `i` falls strictly inside the progress bar: its
/// score is above zero and below the maximum.
pub open spec fn marker_visible(i: int, max_score: u32) -> bool {
    0 < threshold_points(rank_threshold(i), max_score) < max_score
}

/// The ranks among the first `n` whose markers fall inside the bar, in order.
pub open spec fn visible_ranks(max_score: u32, n: int) -> Seq<int>
    decreases n,
{
    if n <= 0 {
        Seq::<int>::empty()
    } else {
        let rest = visible_ranks(max_score, n - 1);
        if marker_visible(n - 1, max_score) {
            rest.push(n - 1)
        } else {
            rest
        }
    }
}

/// The rank markers shown on the progress bar: those strictly between zero
/// and the maximum score, lowest rank first.
pub fn visible_rank_markers(max_score: u32) -> (r: Vec<(&'static str, u32)>)
    ensures
        r@.len() == visible_ranks(max_score, rank_count()).len(),
        forall|k: int|
            0 <= k < r@.len() ==> {
                let i = visible_ranks(max_score, rank_count())[k];
                &&& (#[trigger] r@[k]).0@ == rank_name(i)
                &&& r@[k].1 == threshold_points(rank_threshold(i), max_score)
            },
{
    let all = rank_markers(max_score);
    let mut r: Vec<(&'static str, u32)> = Vec::new();
    let mut i: usize = 0;
    while i < all.len()
        invariant
            all@.len() == rank_count(),
            forall|k: int|
                0 <= k < rank_count() ==> (#[trigger] all@[k]).0@ == rank_name(k) && all@[k].1
                    == threshold_points(rank_threshold(k), max_score),
            i <= all@.len(),
            r@.len() == visible_ranks(max_score, i as int).len(),
            forall|k: int|
                0 <= k < r@.len() ==> {
                    let j = visible_ranks(max_score, i as int)[k];
                    &&& (#[trigger] r@[k]).0@ == rank_name(j)
                    &&& r@[k].1 == threshold_points(rank_threshold(j), max_score)
                },
        decreases all@.len() - i,
    {
        let (name, points) = all[i];
        let ghost before = visible_ranks(max_score, i as int);
        proof {
            assert(all@[i as int].0 == name && all@[i as int].1 == points);
        }
        if 0 < points && points < max_score {
            r.push((name, points));
            proof {
                let v = visible_ranks(max_score, i + 1);
                assert(v == before.push(i as int));
                assert forall|k: int| 0 <= k < r@.len() implies {
                    let j = v[k];
                    &&& (#[trigger] r@[k]).0@ == rank_name(j)
                    &&& r@[k].1 == threshold_points(rank_threshold(j), max_score)
                } by {
                    if k < before.len() {
                        assert(v[k] == before[k]);
                    }
                }
            }
        } else {
            proof {
                assert(visible_ranks(max_score, i + 1) == before);
            }
        }
        i += 1;
    }
    r
}

// ---------------------------------------------------------------------------
// Shuffling

/// The generator state that a salt starts from.
pub open spec fn shuffle_seed(salt: u64) -> u64 {
    salt.wrapping_mul(0x9E3779B97F4A7C15).wrapping_add(1)
}

/// The next generator state.
pub open spec fn shuffle_step(state: u64) -> u64 {
    state.wrapping_mul(6364136223846793005).wrapping_add(1)
}

/// `s` with the elements at `i` and `j` exchanged.
pub open spec fn swapped(s: Seq<char>, i: int, j: int) -> Seq<char> {
    s.update(i, s[j]).update(j, s[i])
}

/// The Fisher-Yates passes for positions `i` down to 1, each drawing the
/// partner position from the next generator state.
pub open spec fn shuffle_from(s: Seq<char>, i: int, state: u64) -> Seq<char>
    decreases i,
{
    if i < 1 || i >= s.len() {
        s
    } else {
        let next = shuffle_step(state);
        let j = (next as usize) as int % (i + 1);
        shuffle_from(swapped(s, i, j), i - 1, next)
    }
}

/// The order in which `s` is shown for a given salt.
pub open spec fn shuffled(s: Seq<char>, salt: u64) -> Seq<char> {
    if s.len() <= 1 {
        s
    } else {
        shuffle_from(s, s.len() - 1, shuffle_seed(salt))
    }
}

/// The outer letters in an order that depends on `salt` alone.
pub fn shuffle_letters(puzzle: &Puzzle, salt: u64) -> (r: Vec<char>)
    ensures
        r@ == shuffled(without(puzzle.letters@, puzzle.center), salt),
{
    let mut outer = outer_letters(puzzle);
    let n = outer.len();
    if n <= 1 {
        return outer;
    }
    let ghost s0 = outer@;
    let mut state = salt.wrapping_mul(0x9E3779B97F4A7C15).wrapping_add(1);
    let mut i: usize = n - 1;
    while i >= 1
        invariant
            n == outer@.len() == s0.len(),
            n >= 2,
            i < n,
            shuffle_from(s0, n - 1, shuffle_seed(salt)) == shuffle_from(outer@, i as int, state),
        decreases i,
    {
        state = state.wrapping_mul(6364136223846793005).wrapping_add(1);
        let j = (state as usize) % (i + 1);
        let a = outer[i];
        let b = outer[j];
        let ghost before = outer@;
        outer.set(i, b);
        outer.set(j, a);
        proof {
            assert(outer@ =~= swapped(before, i as int, j as int));
        }
        i -= 1;
    }
    outer
}

proof fn lemma_update_multiset(s: Seq<char>, i: int, x: char)
    requires
        0 <= i < s.len(),
    ensures
        s.update(i, x).to_multiset() =~= s.to_multiset().remove(s[i]).insert(x),
{
    broadcast use vstd::seq_lib::group_to_multiset_ensures;
    broadcast use vstd::multiset::group_multiset_axioms;

    let u = s.update(i, x);
    assert(u.remove(i) =~= s.remove(i));
    assert(u[i] == x);
    assert(u.remove(i).to_multiset() =~= u.to_multiset().remove(x));
    assert(s.remove(i).to_multiset() =~= s.to_multiset().remove(s[i]));
    assert(u.to_multiset().count(x) > 0) by {
        assert(u.contains(x));
    }
}

/// Exchanging two elements keeps the same elements.
pub proof fn lemma_swapped_multiset(s: Seq<char>, i: int, j: int)
    requires
        0 <= i < s.len(),
        0 <= j < s.len(),
    ensures
        swapped(s, i, j).to_multiset() =~= s.to_multiset(),
{
    broadcast use vstd::multiset::group_multiset_axioms;

    let t = s.update(i, s[j]);
    lemma_update_multiset(s, i, s[j]);
    lemma_update_multiset(t, j, s[i]);
    if i == j {
        assert(t =~= s);
    } else {
        assert(t[j] == s[j]);
    }
    assert(s.contains(s[i]));
    assert(s.contains(s[j]));
    broadcast use vstd::seq_lib::group_to_multiset_ensures;
}

proof fn lemma_shuffle_from_multiset(s: Seq<char>, i: int, state: u64)
    ensures
        shuffle_from(s, i, state).to_multiset() =~= s.to_multiset(),
        shuffle_from(s, i, state).len() == s.len(),
    decreases i,
{
    if i >= 1 && i < s.len() {
        let next = shuffle_step(state);
        let m = i + 1;
        let x = (next as usize) as int;
        assert(0 <= x % m < m) by (nonlinear_arith)
            requires
                m > 0,
        ;
        let j = x % m;
        lemma_swapped_multiset(s, i, j);
        assert(swapped(s, i, j).len() == s.len());
        lemma_shuffle_from_multiset(swapped(s, i, j), i - 1, next);
    }
}

/// Shuffling only reorders: the same letters, each as often as before.
pub proof fn lemma_shuffled_is_permutation(s: Seq<char>, salt: u64)
    ensures
        shuffled(s, salt).to_multiset() =~= s.to_multiset(),
        shuffled(s, salt).len() == s.len(),
{
    if s.len() > 1 {
        lemma_shuffle_from_multiset(s, s.len() - 1, shuffle_seed(salt));
    }
}

// ---------------------------------------------------------------------------
// Grouping

/// The entries whose words have `len` characters, in their order.
pub open spec fn of_length(entries: Seq<WordEntry>, len: nat) -> Seq<WordEntry>
    decreases entries.len(),
{
    if entries.len() == 0 {
        Seq::<WordEntry>::empty()
    } else {
        let rest = of_length(entries.drop_last(), len);
        if entries.last().word@.len() == len {
            rest.push(entries.last())
        } else {
            rest
        }
    }
}

/// `s` with `e` placed after every entry whose word does not come after `e`'s.
pub open spec fn insert_by_word(s: Seq<WordEntry>, e: WordEntry) -> Seq<WordEntry>
    decreases s.len(),
{
    if s.len() == 0 {
        seq![e]
    } else if lex_lt(e.word@, s.last().word@) {
        insert_by_word(s.drop_last(), e).push(s.last())
    } else {
        s.push(e)
    }
}

/// The entries ordered by word; entries with the same word keep their order.
pub open spec fn sort_by_word(s: Seq<WordEntry>) -> Seq<WordEntry>
    decreases s.len(),
{
    if s.len() == 0 {
        s
    } else {
        insert_by_word(sort_by_word(s.drop_last()), s.last())
    }
}

/// No word comes before the word of an earlier entry.
pub open spec fn ordered_by_word(s: Seq<WordEntry>) -> bool {
    forall|i: int, j: int| 0 <= i < j < s.len() ==> !lex_lt(#[trigger] s[j].word@, #[trigger] s[i].word@)
}

/// A copy of `e`.
fn copy_entry(e: &WordEntry) -> (r: WordEntry)
    ensures
        r == *e,
{
    WordEntry { word: e.word.clone(), points: e.points, pangram: e.pangram }
}

/// Places `e` into `g` as `insert_by_word` says.
pub(crate) fn insert_entry(g: &mut Vec<WordEntry>, e: WordEntry)
    ensures
        final(g)@ == insert_by_word(old(g)@, e),
{
    let ew = chars_of(e.word.as_str());
    let ghost s = g@;
    let mut k: usize = g.len();
    proof {
        assert(s.take(s.len() as int) =~= s);
        assert(s.take(s.len() as int) + s.skip(s.len() as int) =~= s);
    }
    while k > 0
        invariant
            g@ == s,
            k <= s.len(),
            ew@ == e.word@,
            insert_by_word(s, e) == insert_by_word(s.take(k as int), e) + s.skip(k as int),
        ensures
            k <= s.len(),
            insert_by_word(s, e) == insert_by_word(s.take(k as int), e) + s.skip(k as int),
            k == 0 || !lex_lt(e.word@, s[k - 1].word@),
        decreases k,
    {
        let gw = chars_of(g[k - 1].word.as_str());
        match compare_chars(&ew, &gw) {
            LexOrder::Less => {},
            _ => {
                break;
            },
        }
        proof {
            let t = s.take(k as int);
            assert(t.last() == s[k - 1]);
            assert(t.drop_last() =~= s.take(k - 1));
            assert(insert_by_word(t, e) == insert_by_word(s.take(k - 1), e).push(s[k - 1]));
            assert(insert_by_word(s.take(k - 1), e).push(s[k - 1]) + s.skip(k as int)
                =~= insert_by_word(s.take(k - 1), e) + s.skip(k - 1));
        }
        k -= 1;
    }
    proof {
        let t = s.take(k as int);
        if k > 0 {
            assert(t.last() == s[k - 1]);
        }
        assert(insert_by_word(t, e) =~= t.push(e));
        assert(t.push(e) + s.skip(k as int) =~= s.insert(k as int, e));
    }
    g.insert(k, e);
}

/// The entries grouped by the number of characters in their words, each group
/// ordered by word.
pub fn group_words_by_length(entries: &[WordEntry]) -> (groups: HashMap<usize, Vec<WordEntry>>)
    ensures
        forall|len: usize| #[trigger]
            groups@.contains_key(len) <==> of_length(entries@, len as nat).len() > 0,
        forall|len: usize| #[trigger]
            groups@.contains_key(len) ==> groups@[len]@ == sort_by_word(
                of_length(entries@, len as nat),
            ),
{
    let mut groups: HashMap<usize, Vec<WordEntry>> = HashMap::new();
    let mut i: usize = 0;
    proof {
        assert(entries@.take(0) =~= Seq::<WordEntry>::empty());
    }
    while i < entries.len()
        invariant
            i <= entries@.len(),
            forall|len: usize| #[trigger]
                groups@.contains_key(len) <==> of_length(entries@.take(i as int), len as nat).len()
                    > 0,
            forall|len: usize| #[trigger]
                groups@.contains_key(len) ==> groups@[len]@ == sort_by_word(
                    of_length(entries@.take(i as int), len as nat),
                ),
        decreases entries@.len() - i,
    {
        let e = copy_entry(&entries[i]);
        let len = e.word.as_str().unicode_len();
        let ghost p = entries@.take(i as int);
        let ghost before = groups@;
        proof {
            assert(entries@.take(i + 1) =~= p.push(e));
            assert(p.push(e).drop_last() =~= p);
        }
        let mut g = match groups.remove(&len) {
            Some(g) => g,
            None => Vec::new(),
        };
        proof {
            assert(g@ == sort_by_word(of_length(p, len as nat)));
        }
        insert_entry(&mut g, e);
        groups.insert(len, g);
        proof {
            let q = p.push(e);
            assert(of_length(q, len as nat) == of_length(p, len as nat).push(e));
            assert(of_length(q, len as nat).drop_last() =~= of_length(p, len as nat));
            assert forall|l: usize| #[trigger] groups@.contains_key(l) <==> of_length(q, l as nat).len() > 0 by {
                if l != len {
                    assert(of_length(q, l as nat) == of_length(p, l as nat));
                }
            }
            assert forall|l: usize| #[trigger] groups@.contains_key(l) implies groups@[l]@ == sort_by_word(
                of_length(q, l as nat),
            ) by {
                if l != len {
                    assert(of_length(q, l as nat) == of_length(p, l as nat));
                    assert(groups@[l] == before[l]);
                }
            }
        }
        i += 1;
    }
    proof {
        assert(entries@.take(entries@.len() as int) =~= entries@);
    }
    groups
}

} // verus!
