//! One game as the player goes through it: the setup inputs, the hive in play,
//! the words found, the word being typed and the messages shown. The user
//! interface reads this state and hands each click and key press to it.

use vstd::prelude::*;

use crate::dictionary::{strictly_sorted, Dictionary};
use crate::game::{
    analysis_of, analyze_puzzle, current_rank, entry_for, error_message, first_unreached,
    insert_by_word, insert_entry, next_rank, normalize, of_length, ordered_by_word,
    parse_puzzle, parses_to, percent, puzzle_input_valid, puzzle_words,
    qualifies, qualifying_points, rank_count, rank_index, rank_name, rank_threshold,
    shuffle_letters, shuffled, sort_by_word, strings_view, submission_outcome,
    threshold_points, total_points, validate_submission, without, word_score, words_of,
    Puzzle, PuzzleStats, SubmitError, WordEntry,
};
use crate::text::{
    ascii_lower, ascii_upper, chars_of, decimal, is_ascii_alpha, is_ascii_alphabetic,
    lemma_lex_asymmetric, lemma_lex_irreflexive, lemma_lex_transitive, lex_lt, push_char,
    push_decimal, str_equals, to_ascii_lowercase, to_ascii_uppercase,
};

verus! {

/// Which screen is shown.
#[derive(Clone, Copy, Debug, PartialEq, Eq, Structural)]
pub enum Screen {
    Setup,
    Play,
}

/// The state of a game, as plain values.
#[verifier::ext_equal]
pub struct GameView {
    pub screen: Screen,
    pub letters_input: Seq<char>,
    pub center_input: Seq<char>,
    pub setup_error: Option<Seq<char>>,
    pub puzzle: Option<Puzzle>,
    pub stats: Option<PuzzleStats>,
    pub found: Seq<WordEntry>,
    pub current_word: Seq<char>,
    pub feedback: Option<(bool, Seq<char>)>,
    pub shuffle_salt: u64,
    pub show_answers: bool,
    pub show_word_list: bool,
    pub dictionary: Seq<Seq<char>>,
}

/// ASCII uppercase letters only.
pub open spec fn upper_letters_only(s: Seq<char>) -> bool {
    forall|i: int| 0 <= i < s.len() ==> 'A' <= #[trigger] s[i] <= 'Z'
}

/// The found words are some of the hive's words, each once, in order, each
/// scored as the hive scores it.
pub open spec fn found_describe(found: Seq<WordEntry>, p: Puzzle, st: PuzzleStats) -> bool {
    &&& strictly_sorted(words_of(found))
    &&& forall|i: int|
        0 <= i < found.len() ==> words_of(st.words@).contains(#[trigger] found[i].word@)
            && entry_for(found[i], p.letters@)
}

impl GameView {
    /// What every game state satisfies.
    pub open spec fn wf(self) -> bool {
        &&& upper_letters_only(self.letters_input)
        &&& self.letters_input.len() <= 7
        &&& upper_letters_only(self.center_input)
        &&& self.center_input.len() <= 1
        &&& self.screen == Screen::Play ==> self.puzzle is Some
        &&& (self.puzzle is Some <==> self.stats is Some)
        &&& match (self.puzzle, self.stats) {
            (Some(p), Some(st)) => {
                &&& p.wf()
                &&& analysis_of(st, p.letters@, p.center, self.dictionary)
                &&& found_describe(self.found, p, st)
            },
            _ => self.found.len() == 0,
        }
    }
}

pub open spec fn center_message() -> Seq<char> {
    "Pick exactly one center letter."@
}

pub open spec fn letters_message() -> Seq<char> {
    "Enter exactly 7 unique letters (A\u{2013}Z)."@
}

pub open spec fn no_words_message() -> Seq<char> {
    "No valid words for this letter set."@
}

/// The message for an accepted word.
pub open spec fn accepted_message(word: Seq<char>, points: u32, pangram: bool) -> Seq<char> {
    if pangram {
        "Pangram! +"@ + decimal(points as nat) + " \u{2014} "@ + word
    } else {
        "+"@ + decimal(points as nat) + " \u{2014} "@ + word
    }
}

/// The letters typed into a setup field: ASCII letters only, uppercased, at
/// most `limit` of them.
pub open spec fn field_letters(s: Seq<char>) -> Seq<char>
    decreases s.len(),
{
    if s.len() == 0 {
        Seq::<char>::empty()
    } else {
        let rest = field_letters(s.drop_last());
        if is_ascii_alpha(s.last()) {
            rest.push(ascii_upper(s.last()))
        } else {
            rest
        }
    }
}

pub open spec fn limit(s: Seq<char>, n: nat) -> Seq<char> {
    if s.len() <= n {
        s
    } else {
        s.take(n as int)
    }
}

/// Starting a game from `g` scores the hive's words within a `u32`: the hive's
/// total points fit wherever the setup inputs name a hive.
pub open spec fn start_fits(g: GameView) -> bool {
    g.center_input.len() == 1 && puzzle_input_valid(g.letters_input, g.center_input[0])
        ==> qualifying_points(g.dictionary, normalize(g.letters_input), ascii_lower(g.center_input[0]))
        <= u32::MAX
}

/// The outcome of starting a game from `g`: one of three refusals, each
/// leaving a message and nothing else changed, or the game in play.
pub open spec fn start_result(g: GameView, h: GameView) -> bool {
    if g.center_input.len() != 1 {
        h =~= GameView { setup_error: Some(center_message()), ..g }
    } else if !puzzle_input_valid(g.letters_input, g.center_input[0]) {
        h =~= GameView { setup_error: Some(letters_message()), ..g }
    } else if puzzle_words(g.dictionary, normalize(g.letters_input), ascii_lower(g.center_input[0])).len()
        == 0 {
        h =~= GameView { setup_error: Some(no_words_message()), ..g }
    } else {
        &&& h.screen == Screen::Play
        &&& h.setup_error is None
        &&& h.puzzle matches Some(p) && parses_to(g.letters_input, g.center_input[0], p)
        &&& h.stats is Some
        &&& h.found.len() == 0
        &&& h.current_word.len() == 0
        &&& h.feedback is None
        &&& h.shuffle_salt == 1
        &&& !h.show_answers
        &&& h.letters_input == g.letters_input
        &&& h.center_input == g.center_input
        &&& h.show_word_list == g.show_word_list
        &&& h.dictionary == g.dictionary
    }
}

/// The outcome of submitting the typed word: nothing without a hive; else
/// the word is cleared and either the scored word joins the found words in
/// order, with its message, or the refusal's message is shown.
pub open spec fn submit_result(g: GameView, h: GameView) -> bool {
    match g.puzzle {
        None => h =~= g,
        Some(p) => match submission_outcome(
            g.current_word,
            p.letters@,
            p.center,
            words_of(g.found),
            g.dictionary,
        ) {
            Ok(w) => exists|e: WordEntry|
                #![trigger entry_for(e, p.letters@)]
                e.word@ == w && entry_for(e, p.letters@) && h =~= GameView {
                    found: sort_by_word(g.found.push(e)),
                    current_word: Seq::empty(),
                    feedback: Some((true, accepted_message(w, e.points, e.pangram))),
                    ..g
                },
            Err(err) => h =~= GameView {
                current_word: Seq::empty(),
                feedback: Some((false, error_message(err))),
                ..g
            },
        },
    }
}

/// What a key press asks for.
#[derive(Clone, Copy, Debug, PartialEq, Eq, Structural)]
pub enum KeyCommand {
    Ignore,
    Submit,
    Delete,
    Clear,
    Type(char),
}

/// What a key press asks for: nothing off the play screen, with a modifier
/// held, or while a text field has the focus; Enter submits, Backspace
/// deletes, Escape clears, and a single letter of the hive is typed.
pub open spec fn key_command(g: GameView, key: Seq<char>, modifier: bool, editing: bool) -> KeyCommand {
    if g.screen != Screen::Play || modifier || editing {
        KeyCommand::Ignore
    } else if key == "Enter"@ {
        KeyCommand::Submit
    } else if key == "Backspace"@ {
        KeyCommand::Delete
    } else if key == "Escape"@ {
        KeyCommand::Clear
    } else if key.len() == 1 && is_ascii_alpha(key[0]) && (g.puzzle matches Some(p)
        && p.letters@.contains(ascii_lower(key[0]))) {
        KeyCommand::Type(ascii_lower(key[0]))
    } else {
        KeyCommand::Ignore
    }
}

/// Whether an element with this tag name takes typed text itself.
pub open spec fn is_text_entry(tag: Seq<char>, content_editable: bool) -> bool {
    let t = tag.map_values(|c: char| ascii_lower(c));
    t == "input"@ || t == "textarea"@ || content_editable
}

/// A game: its word list and its state.
pub struct Game {
    dictionary: Dictionary,
    screen: Screen,
    letters_input: String,
    center_input: String,
    setup_error: Option<String>,
    puzzle: Option<Puzzle>,
    stats: Option<PuzzleStats>,
    found: Vec<WordEntry>,
    current_word: String,
    feedback: Option<(bool, String)>,
    shuffle_salt: u64,
    show_answers: bool,
    show_word_list: bool,
}

pub open spec fn opt_string_view(o: Option<String>) -> Option<Seq<char>> {
    match o {
        Some(s) => Some(s@),
        None => None,
    }
}

pub open spec fn feedback_view(o: Option<(bool, String)>) -> Option<(bool, Seq<char>)> {
    match o {
        Some((ok, s)) => Some((ok, s@)),
        None => None,
    }
}

impl View for Game {
    type V = GameView;

    closed spec fn view(&self) -> GameView {
        GameView {
            screen: self.screen,
            letters_input: self.letters_input@,
            center_input: self.center_input@,
            setup_error: opt_string_view(self.setup_error),
            puzzle: self.puzzle,
            stats: self.stats,
            found: self.found@,
            current_word: self.current_word@,
            feedback: feedback_view(self.feedback),
            shuffle_salt: self.shuffle_salt,
            show_answers: self.show_answers,
            show_word_list: self.show_word_list,
            dictionary: self.dictionary@,
        }
    }
}

impl Game {
    pub open spec fn wf(&self) -> bool {
        self@.wf()
    }

    /// A new game on the setup screen with empty inputs.
    pub fn new(dictionary: Dictionary) -> (g: Game)
        ensures
            g.wf(),
            g@ == (GameView {
                screen: Screen::Setup,
                letters_input: Seq::empty(),
                center_input: Seq::empty(),
                setup_error: None,
                puzzle: None,
                stats: None,
                found: Seq::empty(),
                current_word: Seq::empty(),
                feedback: None,
                shuffle_salt: 0,
                show_answers: false,
                show_word_list: true,
                dictionary: dictionary@,
            }),
    {
        Game {
            dictionary,
            screen: Screen::Setup,
            letters_input: String::new(),
            center_input: String::new(),
            setup_error: None,
            puzzle: None,
            stats: None,
            found: Vec::new(),
            current_word: String::new(),
            feedback: None,
            shuffle_salt: 0,
            show_answers: false,
            show_word_list: true,
        }
    }

    pub fn screen(&self) -> (r: Screen)
        ensures
            r == self@.screen,
    {
        self.screen
    }

    pub fn letters_input(&self) -> (r: &String)
        ensures
            r@ == self@.letters_input,
    {
        &self.letters_input
    }

    pub fn center_input(&self) -> (r: &String)
        ensures
            r@ == self@.center_input,
    {
        &self.center_input
    }

    pub fn setup_error(&self) -> (r: &Option<String>)
        ensures
            opt_string_view(*r) == self@.setup_error,
    {
        &self.setup_error
    }

    pub fn puzzle(&self) -> (r: &Option<Puzzle>)
        ensures
            *r == self@.puzzle,
    {
        &self.puzzle
    }

    pub fn stats(&self) -> (r: &Option<PuzzleStats>)
        ensures
            *r == self@.stats,
    {
        &self.stats
    }

    pub fn found_words(&self) -> (r: &Vec<WordEntry>)
        ensures
            r@ == self@.found,
    {
        &self.found
    }

    pub fn current_word(&self) -> (r: &String)
        ensures
            r@ == self@.current_word,
    {
        &self.current_word
    }

    pub fn feedback(&self) -> (r: &Option<(bool, String)>)
        ensures
            feedback_view(*r) == self@.feedback,
    {
        &self.feedback
    }

    pub fn show_answers(&self) -> (r: bool)
        ensures
            r == self@.show_answers,
    {
        self.show_answers
    }

    pub fn show_word_list(&self) -> (r: bool)
        ensures
            r == self@.show_word_list,
    {
        self.show_word_list
    }

    pub fn dictionary(&self) -> (r: &Dictionary)
        ensures
            r@ == self@.dictionary,
    {
        &self.dictionary
    }

    /// Takes what was typed into the letters field: its ASCII letters,
    /// uppercased, at most seven.
    pub fn set_letters_input(&mut self, value: &str)
        requires
            old(self).wf(),
        ensures
            final(self).wf(),
            final(self)@ == (GameView {
                letters_input: limit(field_letters(value@), 7),
                ..old(self)@
            }),
    {
        self.letters_input = filtered_field(value, 7);
    }

    /// Takes what was typed into the center field: its first ASCII letter,
    /// uppercased.
    pub fn set_center_input(&mut self, value: &str)
        requires
            old(self).wf(),
        ensures
            final(self).wf(),
            final(self)@ == (GameView {
                center_input: limit(field_letters(value@), 1),
                ..old(self)@
            }),
    {
        self.center_input = filtered_field(value, 1);
    }

    /// Back to the setup screen; the hive and the words found are dropped.
    pub fn reset(&mut self)
        requires
            old(self).wf(),
        ensures
            final(self).wf(),
            final(self)@ == (GameView {
                screen: Screen::Setup,
                puzzle: None,
                stats: None,
                found: Seq::empty(),
                current_word: Seq::empty(),
                feedback: None,
                ..old(self)@
            }),
    {
        self.screen = Screen::Setup;
        self.puzzle = None;
        self.stats = None;
        self.found = Vec::new();
        self.current_word = String::new();
        self.feedback = None;
    }

    /// Types a letter, in lowercase, and clears the message.
    pub fn append_letter(&mut self, letter: char)
        requires
            old(self).wf(),
        ensures
            final(self).wf(),
            final(self)@ == (GameView {
                current_word: old(self)@.current_word.push(ascii_lower(letter)),
                feedback: None,
                ..old(self)@
            }),
    {
        self.feedback = None;
        push_char(&mut self.current_word, to_ascii_lowercase(letter));
    }

    /// Removes the last typed letter, if any, and clears the message.
    pub fn delete_letter(&mut self)
        requires
            old(self).wf(),
        ensures
            final(self).wf(),
            final(self)@ == (GameView {
                current_word: if old(self)@.current_word.len() > 0 {
                    old(self)@.current_word.drop_last()
                } else {
                    old(self)@.current_word
                },
                feedback: None,
                ..old(self)@
            }),
    {
        self.feedback = None;
        pop_char(&mut self.current_word);
    }

    /// Clears the typed word and the message.
    pub fn clear_word(&mut self)
        requires
            old(self).wf(),
        ensures
            final(self).wf(),
            final(self)@ == (GameView {
                current_word: Seq::empty(),
                feedback: None,
                ..old(self)@
            }),
    {
        self.current_word = String::new();
        self.feedback = None;
    }

    /// Shows the outer letters in another order.
    pub fn shuffle(&mut self)
        requires
            old(self).wf(),
        ensures
            final(self).wf(),
            final(self)@ == (GameView {
                shuffle_salt: old(self)@.shuffle_salt.wrapping_add(1),
                ..old(self)@
            }),
    {
        self.shuffle_salt = self.shuffle_salt.wrapping_add(1);
    }

    pub fn toggle_answers(&mut self)
        requires
            old(self).wf(),
        ensures
            final(self).wf(),
            final(self)@ == (GameView { show_answers: !old(self)@.show_answers, ..old(self)@ }),
    {
        self.show_answers = !self.show_answers;
    }

    pub fn toggle_word_list(&mut self)
        requires
            old(self).wf(),
        ensures
            final(self).wf(),
            final(self)@ == (GameView { show_word_list: !old(self)@.show_word_list, ..old(self)@ }),
    {
        self.show_word_list = !self.show_word_list;
    }

    /// The best score the hive allows; zero with no hive.
    pub fn max_score(&self) -> (r: u32)
        ensures
            r == match self@.stats {
                Some(st) => st.max_score,
                None => 0,
            },
    {
        match &self.stats {
            Some(st) => st.max_score,
            None => 0,
        }
    }

    /// The points of the words found so far.
    pub fn total_score(&self) -> (r: u32)
        requires
            self.wf(),
        ensures
            r == total_points(self@.found),
    {
        let ghost f = self.found@;
        let ghost gv = self@;
        proof {
            match (gv.puzzle, gv.stats) {
                (Some(p), Some(st)) => {
                    lemma_found_points_bounded(f, st.words@, p.letters@);
                },
                _ => {},
            }
        }
        let mut total: u32 = 0;
        let mut i: usize = 0;
        proof {
            assert(f.take(0) =~= Seq::<WordEntry>::empty());
        }
        while i < self.found.len()
            invariant
                f == self.found@,
                i <= f.len(),
                total == total_points(f.take(i as int)),
                total_points(f) <= u32::MAX,
            decreases f.len() - i,
        {
            proof {
                let p = f.take(i as int);
                assert(f.take(i + 1) =~= p.push(f[i as int]));
                assert(p.push(f[i as int]).drop_last() =~= p);
                lemma_total_points_prefix(f, i + 1);
            }
            total = total + self.found[i].points;
            i += 1;
        }
        proof {
            assert(f.take(f.len() as int) =~= f);
        }
        total
    }

    /// The rank that the points found so far hold.
    pub fn rank_name(&self) -> (r: &'static str)
        requires
            self.wf(),
        ensures
            r@ == rank_name(
                rank_index(
                    total_points(self@.found) as u32,
                    match self@.stats {
                        Some(st) => st.max_score,
                        None => 0,
                    },
                ),
            ),
    {
        current_rank(self.total_score(), self.max_score())
    }

    /// The next rank and the points still needed for it.
    pub fn next_rank_info(&self) -> (r: Option<(&'static str, u32)>)
        requires
            self.wf(),
        ensures
            ({
                let score = total_points(self@.found) as u32;
                let max_score = match self@.stats {
                    Some(st) => st.max_score,
                    None => 0,
                };
                &&& r is None <==> max_score == 0 || first_unreached(percent(score, max_score), 0)
                    == rank_count()
                &&& r matches Some((name, needed)) ==> {
                    let k = first_unreached(percent(score, max_score), 0);
                    &&& name@ == rank_name(k)
                    &&& needed == if threshold_points(rank_threshold(k), max_score) > score {
                        threshold_points(rank_threshold(k), max_score) - score
                    } else {
                        0
                    }
                }
            }),
    {
        next_rank(self.total_score(), self.max_score())
    }

    /// Whether `word` is among the words found.
    pub fn is_found(&self, word: &String) -> (r: bool)
        ensures
            r == words_of(self@.found).contains(word@),
    {
        let mut i: usize = 0;
        while i < self.found.len()
            invariant
                i <= self.found@.len(),
                forall|k: int| 0 <= k < i ==> self.found@[k].word@ != word@,
            decreases self.found@.len() - i,
        {
            if self.found[i].word == *word {
                assert(words_of(self.found@)[i as int] == word@);
                return true;
            }
            i += 1;
        }
        false
    }

    /// Whether starting a game now keeps the hive's total score within a `u32`.
    pub fn start_fits(&self) -> (r: bool)
        requires
            self.wf(),
        ensures
            r == start_fits(self@),
    {
        if self.center_input.as_str().unicode_len() != 1 {
            return true;
        }
        let center = self.center_input.as_str().get_char(0);
        match parse_puzzle(self.letters_input.as_str(), center) {
            None => true,
            Some(p) => {
                proof {
                    lemma_qualifying_same_letters(
                        self.dictionary@,
                        p.letters@,
                        normalize(self@.letters_input),
                        p.center,
                    );
                }
                crate::game::hive_points_fit(&p, &self.dictionary)
            },
        }
    }

    /// Starts a game from the setup inputs: a single center letter and seven
    /// distinct letters are needed, and the hive must admit some word.
    pub fn start_game(&mut self)
        requires
            old(self).wf(),
            start_fits(old(self)@),
        ensures
            final(self).wf(),
            start_result(old(self)@, final(self)@),
    {
        let ghost g = self@;
        self.setup_error = None;
        if self.center_input.as_str().unicode_len() != 1 {
            self.setup_error = Some(String::from_str("Pick exactly one center letter."));
            return;
        }
        let center = self.center_input.as_str().get_char(0);
        let parsed = parse_puzzle(self.letters_input.as_str(), center);
        let puzzle = match parsed {
            Some(p) => p,
            None => {
                self.setup_error = Some(String::from_str("Enter exactly 7 unique letters (A\u{2013}Z)."));
                return;
            },
        };
        proof {
            lemma_qualifying_same_letters(
                self.dictionary@,
                puzzle.letters@,
                normalize(g.letters_input),
                puzzle.center,
            );
            lemma_puzzle_words_same_letters(
                self.dictionary@,
                puzzle.letters@,
                normalize(g.letters_input),
                puzzle.center,
            );
        }
        let analyzed = analyze_puzzle(&puzzle, &self.dictionary);
        if analyzed.words.len() == 0 {
            proof {
                assert(words_of(analyzed.words@).len() == 0);
            }
            self.setup_error = Some(String::from_str("No valid words for this letter set."));
            return;
        }
        self.puzzle = Some(puzzle);
        self.stats = Some(analyzed);
        self.found = Vec::new();
        self.current_word = String::new();
        self.feedback = None;
        self.shuffle_salt = 1;
        self.show_answers = false;
        self.screen = Screen::Play;
        proof {
            assert(found_describe(self.found@, puzzle, analyzed));
        }
    }

    /// Submits the typed word.
    pub fn submit_word(&mut self)
        requires
            old(self).wf(),
        ensures
            final(self).wf(),
            submit_result(old(self)@, final(self)@),
    {
        let ghost g = self@;
        let puzzle = match &self.puzzle {
            Some(p) => p,
            None => {
                return;
            },
        };
        let ghost p = *puzzle;
        let ghost st = g.stats.unwrap();
        let mut found_words: Vec<String> = Vec::new();
        let mut i: usize = 0;
        while i < self.found.len()
            invariant
                i <= self.found@.len(),
                strings_view(found_words@) == words_of(self.found@).take(i as int),
            decreases self.found@.len() - i,
        {
            let ghost before = found_words@;
            let w = self.found[i].word.clone();
            found_words.push(w);
            proof {
                assert(w@ == words_of(self.found@)[i as int]);
                assert(found_words@ == before.push(w));
                assert(strings_view(found_words@) =~= strings_view(before).push(w@));
                assert(words_of(self.found@).take(i + 1) =~= words_of(self.found@).take(i as int).push(w@));
            }
            i += 1;
        }
        proof {
            assert(words_of(self.found@).take(self.found@.len() as int) =~= words_of(self.found@));
            let outcome = submission_outcome(
                g.current_word,
                p.letters@,
                p.center,
                words_of(g.found),
                g.dictionary,
            );
            if let Ok(w) = outcome {
                crate::properties::lemma_puzzle_words_contains(
                    g.dictionary,
                    p.letters@,
                    p.center,
                    w,
                );
                assert(words_of(st.words@).contains(w));
                let k = choose|k: int| 0 <= k < words_of(st.words@).len() && words_of(st.words@)[k] == w;
                lemma_element_within_total(st.words@, k);
                assert(st.words@[k].word@ == w);
            }
        }
        let result = validate_submission(
            self.current_word.as_str(),
            puzzle,
            &found_words,
            &self.dictionary,
        );
        match result {
            Ok(entry) => {
                let ghost e = entry;
                let points = entry.points;
                let pangram = entry.pangram;
                let mut message = String::new();
                if pangram {
                    message.append("Pangram! +");
                } else {
                    message.append("+");
                }
                push_decimal(&mut message, points);
                message.append(" \u{2014} ");
                message.append(entry.word.as_str());
                proof {
                    crate::properties::lemma_puzzle_words_contains(
                        g.dictionary,
                        p.letters@,
                        p.center,
                        e.word@,
                    );
                    lemma_insert_new_word(g.found, e);
                    lemma_strict_is_ordered(g.found);
                    lemma_sort_ordered(g.found);
                    assert(g.found.push(e).drop_last() =~= g.found);
                }
                insert_entry(&mut self.found, entry);
                self.current_word = String::new();
                self.feedback = Some((true, message));
                proof {
                    let h = self@;
                    assert(h.found == sort_by_word(g.found.push(e)));
                    assert forall|k: int| 0 <= k < h.found.len() implies words_of(st.words@).contains(
                        #[trigger] h.found[k].word@,
                    ) && entry_for(h.found[k], p.letters@) by {
                        if h.found[k] == e {
                        } else {
                            assert(g.found.contains(h.found[k]));
                            let m = choose|m: int| 0 <= m < g.found.len() && g.found[m] == h.found[k];
                        }
                    }
                    assert(entry_for(e, p.letters@));
                }
            },
            Err(err) => {
                self.feedback = Some((false, String::from_str(err.message())));
                self.current_word = String::new();
            },
        }
    }

    /// Handles a key press; the result says whether the key was used.
    pub fn handle_key(&mut self, key: &str, modifier: bool, editing: bool) -> (used: bool)
        requires
            old(self).wf(),
        ensures
            final(self).wf(),
            used == (key_command(old(self)@, key@, modifier, editing) != KeyCommand::Ignore),
            match key_command(old(self)@, key@, modifier, editing) {
                KeyCommand::Ignore => final(self)@ == old(self)@,
                KeyCommand::Submit => submit_result(old(self)@, final(self)@),
                KeyCommand::Delete => final(self)@ == (GameView {
                    current_word: if old(self)@.current_word.len() > 0 {
                        old(self)@.current_word.drop_last()
                    } else {
                        old(self)@.current_word
                    },
                    feedback: None,
                    ..old(self)@
                }),
                KeyCommand::Clear => final(self)@ == (GameView {
                    current_word: Seq::empty(),
                    feedback: None,
                    ..old(self)@
                }),
                KeyCommand::Type(c) => final(self)@ == (GameView {
                    current_word: old(self)@.current_word.push(c),
                    feedback: None,
                    ..old(self)@
                }),
            },
    {
        if self.screen != Screen::Play || modifier || editing {
            return false;
        }
        if str_equals(key, "Enter") {
            self.submit_word();
            return true;
        }
        if str_equals(key, "Backspace") {
            self.delete_letter();
            return true;
        }
        if str_equals(key, "Escape") {
            self.clear_word();
            return true;
        }
        let chars = chars_of(key);
        if chars.len() == 1 && is_ascii_alphabetic(chars[0]) {
            let lower = to_ascii_lowercase(chars[0]);
            let in_hive = match &self.puzzle {
                Some(p) => crate::game::contains_char(&p.letters, lower),
                None => false,
            };
            if in_hive {
                self.append_letter(lower);
                proof {
                    assert(ascii_lower(lower) == lower);
                }
                return true;
            }
        }
        false
    }

    /// The outer letters in the order the current salt gives.
    pub fn outer(&self) -> (r: Vec<char>)
        ensures
            r@ == match self@.puzzle {
                Some(p) => shuffled(without(p.letters@, p.center), self@.shuffle_salt),
                None => Seq::empty(),
            },
    {
        match &self.puzzle {
            Some(p) => shuffle_letters(p, self.shuffle_salt),
            None => Vec::new(),
        }
    }
}

/// The ASCII letters of `value`, uppercased, at most `n` of them.
fn filtered_field(value: &str, n: usize) -> (r: String)
    ensures
        r@ == limit(field_letters(value@), n as nat),
        upper_letters_only(r@),
{
    let chars = chars_of(value);
    let mut r = String::new();
    let mut count: usize = 0;
    let mut i: usize = 0;
    proof {
        assert(chars@.take(0) =~= Seq::<char>::empty());
    }
    while i < chars.len()
        invariant
            chars@ == value@,
            i <= chars@.len(),
            count == r@.len(),
            count <= n,
            r@ == limit(field_letters(chars@.take(i as int)), n as nat),
            upper_letters_only(r@),
            upper_letters_only(field_letters(chars@.take(i as int))),
        decreases chars@.len() - i,
    {
        let c = chars[i];
        let ghost p = chars@.take(i as int);
        proof {
            assert(chars@.take(i + 1) =~= p.push(c));
            assert(p.push(c).drop_last() =~= p);
        }
        if is_ascii_alphabetic(c) {
            let u = to_ascii_uppercase(c);
            proof {
                let f = field_letters(p);
                assert(field_letters(p.push(c)) == f.push(u));
                if 'a' <= c && c <= 'z' {
                    assert('A' <= ((c as u32) - 32) as char <= 'Z');
                }
                assert forall|k: int| 0 <= k < f.push(u).len() implies 'A' <= #[trigger] f.push(u)[k] <= 'Z' by {
                    if k < f.len() {
                        assert(f.push(u)[k] == f[k]);
                    }
                }
                if f.len() >= n {
                    assert(f.push(u).take(n as int) =~= f.take(n as int));
                }
            }
            if count < n {
                push_char(&mut r, u);
                count += 1;
                proof {
                    let f = field_letters(p);
                    if f.len() + 1 <= n {
                    } else {
                        assert(f.push(u).take(n as int) =~= f.push(u));
                    }
                }
            } else {
                proof {
                    let f = field_letters(p);
                    assert(f.len() >= n);
                }
            }
        }
        i += 1;
    }
    proof {
        assert(chars@.take(chars@.len() as int) =~= chars@);
    }
    r
}

/// Drops the last character of `s`, if any, by `String::pop`; trusted to
/// remove exactly the last character of a non-empty string and to leave an
/// empty one as it is, as that method's documentation says.
#[verifier::external_body]
fn pop_char(s: &mut String)
    ensures
        final(s)@ == if old(s)@.len() > 0 {
            old(s)@.drop_last()
        } else {
            old(s)@
        },
{
    s.pop();
}

// ---------------------------------------------------------------------------
// Facts used by the game's steps

proof fn lemma_qualifying_same_letters(
    ws: Seq<Seq<char>>,
    l1: Seq<char>,
    l2: Seq<char>,
    center: char,
)
    requires
        forall|c: char| l1.contains(c) <==> l2.contains(c),
    ensures
        qualifying_points(ws, l1, center) == qualifying_points(ws, l2, center),
    decreases ws.len(),
{
    if ws.len() > 0 {
        lemma_qualifying_same_letters(ws.drop_last(), l1, l2, center);
        let w = ws.last();
        assert(qualifies(w, l1, center) == qualifies(w, l2, center)) by {
            assert forall|i: int| 0 <= i < w.len() implies (l1.contains(#[trigger] w[i]) <==> l2.contains(w[i])) by {}
        }
        assert(crate::game::uses_all(w, l1) == crate::game::uses_all(w, l2)) by {
            if crate::game::uses_all(w, l1) {
                assert forall|i: int| 0 <= i < l2.len() implies w.contains(#[trigger] l2[i]) by {
                    assert(l2.contains(l2[i]));
                    let j = choose|j: int| 0 <= j < l1.len() && l1[j] == l2[i];
                }
            }
            if crate::game::uses_all(w, l2) {
                assert forall|i: int| 0 <= i < l1.len() implies w.contains(#[trigger] l1[i]) by {
                    assert(l1.contains(l1[i]));
                    let j = choose|j: int| 0 <= j < l2.len() && l2[j] == l1[i];
                }
            }
        }
    }
}

proof fn lemma_puzzle_words_same_letters(
    ws: Seq<Seq<char>>,
    l1: Seq<char>,
    l2: Seq<char>,
    center: char,
)
    requires
        forall|c: char| l1.contains(c) <==> l2.contains(c),
    ensures
        puzzle_words(ws, l1, center) == puzzle_words(ws, l2, center),
    decreases ws.len(),
{
    if ws.len() > 0 {
        lemma_puzzle_words_same_letters(ws.drop_last(), l1, l2, center);
        let w = ws.last();
        assert(qualifies(w, l1, center) == qualifies(w, l2, center)) by {
            assert forall|i: int| 0 <= i < w.len() implies (l1.contains(#[trigger] w[i]) <==> l2.contains(w[i])) by {}
        }
    }
}

proof fn lemma_total_points_nonneg(s: Seq<WordEntry>)
    ensures
        total_points(s) >= 0,
    decreases s.len(),
{
    if s.len() > 0 {
        lemma_total_points_nonneg(s.drop_last());
    }
}

proof fn lemma_total_points_prefix(s: Seq<WordEntry>, i: int)
    requires
        0 <= i <= s.len(),
    ensures
        total_points(s.take(i)) <= total_points(s),
    decreases s.len() - i,
{
    if i < s.len() {
        lemma_total_points_prefix(s, i + 1);
        assert(s.take(i + 1).drop_last() =~= s.take(i));
    } else {
        assert(s.take(i) =~= s);
    }
}

proof fn lemma_element_within_total(s: Seq<WordEntry>, i: int)
    requires
        0 <= i < s.len(),
    ensures
        s[i].points <= total_points(s),
    decreases s.len(),
{
    lemma_total_points_nonneg(s.drop_last());
    if i < s.len() - 1 {
        lemma_element_within_total(s.drop_last(), i);
    }
}

/// Entries of a hive are scored by their word alone.
proof fn lemma_same_word_same_points(a: WordEntry, b: WordEntry, letters: Seq<char>)
    requires
        entry_for(a, letters),
        entry_for(b, letters),
        a.word@ == b.word@,
    ensures
        a.points == b.points,
{
}

/// Words found, each once, among the hive's words never score more than all of
/// the hive's words together.
pub proof fn lemma_found_points_bounded(a: Seq<WordEntry>, b: Seq<WordEntry>, letters: Seq<char>)
    requires
        strictly_sorted(words_of(a)),
        strictly_sorted(words_of(b)),
        forall|i: int| 0 <= i < a.len() ==> words_of(b).contains(#[trigger] a[i].word@),
        forall|i: int| 0 <= i < a.len() ==> entry_for(#[trigger] a[i], letters),
        forall|i: int| 0 <= i < b.len() ==> entry_for(#[trigger] b[i], letters),
    ensures
        total_points(a) <= total_points(b),
    decreases b.len(),
{
    if b.len() == 0 {
        if a.len() > 0 {
            assert(words_of(b).contains(a[0].word@));
        }
        return;
    }
    let x = b.last();
    let b1 = b.drop_last();
    lemma_total_points_nonneg(b1);
    assert(words_of(b1) =~= words_of(b).drop_last());
    assert forall|i: int, j: int| 0 <= i < j < words_of(b1).len() implies lex_lt(
        #[trigger] words_of(b1)[i],
        #[trigger] words_of(b1)[j],
    ) by {
        assert(words_of(b)[i] == words_of(b1)[i]);
        assert(words_of(b)[j] == words_of(b1)[j]);
    }
    // every word of b other than x comes before x
    assert forall|j: int| 0 <= j < b1.len() implies lex_lt(#[trigger] b1[j].word@, x.word@) by {
        assert(words_of(b)[j] == b1[j].word@);
        assert(words_of(b)[b.len() - 1] == x.word@);
    }
    if a.len() > 0 && a.last().word@ == x.word@ {
        let a1 = a.drop_last();
        assert(words_of(a1) =~= words_of(a).drop_last());
        assert forall|i: int, j: int| 0 <= i < j < words_of(a1).len() implies lex_lt(
            #[trigger] words_of(a1)[i],
            #[trigger] words_of(a1)[j],
        ) by {
            assert(words_of(a)[i] == words_of(a1)[i]);
            assert(words_of(a)[j] == words_of(a1)[j]);
        }
        assert forall|i: int| 0 <= i < a1.len() implies words_of(b1).contains(#[trigger] a1[i].word@) by {
            assert(a[i] == a1[i]);
            assert(words_of(b).contains(a[i].word@));
            let k = choose|k: int| 0 <= k < words_of(b).len() && words_of(b)[k] == a[i].word@;
            assert(words_of(a)[i] == a[i].word@);
            assert(words_of(a)[a.len() - 1] == x.word@);
            assert(lex_lt(a[i].word@, x.word@));
            if k == b.len() - 1 {
                lemma_lex_irreflexive(x.word@);
            }
            assert(words_of(b1)[k] == a[i].word@);
        }
        assert forall|i: int| 0 <= i < a1.len() implies entry_for(#[trigger] a1[i], letters) by {
            assert(a[i] == a1[i]);
        }
        assert forall|i: int| 0 <= i < b1.len() implies entry_for(#[trigger] b1[i], letters) by {
            assert(b[i] == b1[i]);
        }
        lemma_found_points_bounded(a1, b1, letters);
        lemma_same_word_same_points(a.last(), x, letters);
    } else {
        assert forall|i: int| 0 <= i < a.len() implies words_of(b1).contains(#[trigger] a[i].word@) by {
            assert(words_of(b).contains(a[i].word@));
            let k = choose|k: int| 0 <= k < words_of(b).len() && words_of(b)[k] == a[i].word@;
            if k == b.len() - 1 {
                // a[i] has x's word, so it is not a's last entry, whose word then
                // follows x's, which no word of b does
                assert(words_of(a)[i] == x.word@);
                let l = a.len() - 1;
                assert(i != l);
                assert(lex_lt(words_of(a)[i], words_of(a)[l]));
                assert(words_of(b).contains(a[l].word@));
                let m = choose|m: int| 0 <= m < words_of(b).len() && words_of(b)[m] == a[l].word@;
                if m == b.len() - 1 {
                    lemma_lex_irreflexive(x.word@);
                } else {
                    assert(lex_lt(b1[m].word@, x.word@));
                    lemma_lex_asymmetric(x.word@, a[l].word@);
                }
            }
            assert(words_of(b1)[k] == a[i].word@);
        }
        assert forall|i: int| 0 <= i < b1.len() implies entry_for(#[trigger] b1[i], letters) by {
            assert(b[i] == b1[i]);
        }
        lemma_found_points_bounded(a, b1, letters);
    }
}

/// Inserting an entry whose word is new into a list strictly ordered by word
/// keeps it strictly ordered and adds just that entry.
proof fn lemma_insert_new_word(s: Seq<WordEntry>, e: WordEntry)
    requires
        strictly_sorted(words_of(s)),
        !words_of(s).contains(e.word@),
    ensures
        strictly_sorted(words_of(insert_by_word(s, e))),
        insert_by_word(s, e).len() == s.len() + 1,
        forall|k: int|
            0 <= k < insert_by_word(s, e).len() ==> #[trigger] insert_by_word(s, e)[k] == e
                || s.contains(insert_by_word(s, e)[k]),
    decreases s.len(),
{
    let r = insert_by_word(s, e);
    if s.len() == 0 {
        assert(r =~= seq![e]);
        assert(words_of(r) =~= seq![e.word@]);
    } else {
        let x = s.last();
        let init = s.drop_last();
        assert(words_of(init) =~= words_of(s).drop_last());
        assert forall|i: int, j: int| 0 <= i < j < words_of(init).len() implies lex_lt(
            #[trigger] words_of(init)[i],
            #[trigger] words_of(init)[j],
        ) by {
            assert(words_of(s)[i] == words_of(init)[i]);
            assert(words_of(s)[j] == words_of(init)[j]);
        }
        assert(words_of(s)[s.len() - 1] == x.word@);
        if lex_lt(e.word@, x.word@) {
            assert(!words_of(init).contains(e.word@)) by {
                if words_of(init).contains(e.word@) {
                    let k = choose|k: int| 0 <= k < words_of(init).len() && words_of(init)[k] == e.word@;
                    assert(words_of(s)[k] == e.word@);
                }
            }
            lemma_insert_new_word(init, e);
            let ri = insert_by_word(init, e);
            assert(r == ri.push(x));
            assert(words_of(r) =~= words_of(ri).push(x.word@));
            // every entry of ri comes before x
            assert forall|k: int| 0 <= k < ri.len() implies lex_lt(#[trigger] ri[k].word@, x.word@) by {
                if ri[k] == e {
                } else {
                    assert(init.contains(ri[k]));
                    let m = choose|m: int| 0 <= m < init.len() && init[m] == ri[k];
                    assert(words_of(s)[m] == init[m].word@);
                }
            }
            assert forall|i: int, j: int| 0 <= i < j < words_of(r).len() implies lex_lt(
                #[trigger] words_of(r)[i],
                #[trigger] words_of(r)[j],
            ) by {
                if j == words_of(r).len() - 1 {
                    assert(words_of(r)[i] == ri[i].word@);
                } else {
                    assert(words_of(r)[i] == words_of(ri)[i]);
                    assert(words_of(r)[j] == words_of(ri)[j]);
                }
            }
            assert forall|k: int| 0 <= k < r.len() implies #[trigger] r[k] == e || s.contains(r[k]) by {
                if k < ri.len() {
                    assert(r[k] == ri[k]);
                    if ri[k] != e {
                        assert(init.contains(ri[k]));
                        let m = choose|m: int| 0 <= m < init.len() && init[m] == ri[k];
                        assert(s[m] == ri[k]);
                    }
                } else {
                    assert(s[s.len() - 1] == r[k]);
                }
            }
        } else {
            assert(r == s.push(e));
            assert(words_of(r) =~= words_of(s).push(e.word@));
            assert(x.word@ != e.word@);
            lemma_lex_total_entry(x.word@, e.word@);
            assert forall|i: int, j: int| 0 <= i < j < words_of(r).len() implies lex_lt(
                #[trigger] words_of(r)[i],
                #[trigger] words_of(r)[j],
            ) by {
                if j == words_of(r).len() - 1 {
                    if i < s.len() - 1 {
                        assert(lex_lt(words_of(s)[i], words_of(s)[s.len() - 1]));
                        lemma_lex_transitive(words_of(s)[i], x.word@, e.word@);
                    }
                } else {
                    assert(words_of(r)[i] == words_of(s)[i]);
                    assert(words_of(r)[j] == words_of(s)[j]);
                }
            }
            assert forall|k: int| 0 <= k < r.len() implies #[trigger] r[k] == e || s.contains(r[k]) by {
                if k < s.len() {
                    assert(r[k] == s[k]);
                }
            }
        }
    }
}

proof fn lemma_lex_total_entry(a: Seq<char>, b: Seq<char>)
    requires
        a != b,
        !lex_lt(b, a),
    ensures
        lex_lt(a, b),
{
    crate::text::lemma_lex_total(a, b);
}

/// Ordering by word leaves an ordered list as it is.
proof fn lemma_sort_ordered(s: Seq<WordEntry>)
    requires
        ordered_by_word(s),
    ensures
        sort_by_word(s) == s,
    decreases s.len(),
{
    if s.len() > 0 {
        let init = s.drop_last();
        assert(ordered_by_word(init)) by {
            assert forall|i: int, j: int| 0 <= i < j < init.len() implies !lex_lt(
                #[trigger] init[j].word@,
                #[trigger] init[i].word@,
            ) by {
                assert(s[i] == init[i] && s[j] == init[j]);
            }
        }
        lemma_sort_ordered(init);
        if init.len() > 0 {
            assert(init.last() == s[s.len() - 2]);
        }
        assert(init.push(s.last()) =~= s);
    }
}

proof fn lemma_strict_is_ordered(s: Seq<WordEntry>)
    requires
        strictly_sorted(words_of(s)),
    ensures
        ordered_by_word(s),
{
    assert forall|i: int, j: int| 0 <= i < j < s.len() implies !lex_lt(
        #[trigger] s[j].word@,
        #[trigger] s[i].word@,
    ) by {
        assert(words_of(s)[i] == s[i].word@);
        assert(words_of(s)[j] == s[j].word@);
        lemma_lex_asymmetric(s[i].word@, s[j].word@);
    }
}

/// Whether an element with this tag name takes typed text itself: an input
/// or a text area, in any case, or anything editable.
pub fn is_text_entry_target(tag: &str, content_editable: bool) -> (r: bool)
    ensures
        r == is_text_entry(tag@, content_editable),
{
    let chars = chars_of(tag);
    let mut lower: Vec<char> = Vec::new();
    let mut i: usize = 0;
    while i < chars.len()
        invariant
            i <= chars@.len(),
            lower@ == chars@.take(i as int).map_values(|c: char| ascii_lower(c)),
        decreases chars@.len() - i,
    {
        lower.push(to_ascii_lowercase(chars[i]));
        proof {
            assert(chars@.take(i + 1).map_values(|c: char| ascii_lower(c)) =~= chars@.take(
                i as int,
            ).map_values(|c: char| ascii_lower(c)).push(ascii_lower(chars@[i as int])));
        }
        i += 1;
    }
    proof {
        assert(chars@.take(chars@.len() as int) =~= chars@);
    }
    let t = crate::text::string_from_chars(&lower);
    str_equals(t.as_str(), "input") || str_equals(t.as_str(), "textarea") || content_editable
}

/// The score of a game never exceeds the best score its hive allows.
pub proof fn lemma_score_within_max(g: GameView)
    requires
        g.wf(),
    ensures
        g.stats matches Some(st) ==> total_points(g.found) <= st.max_score,
        g.stats is None ==> total_points(g.found) == 0,
{
    match (g.puzzle, g.stats) {
        (Some(p), Some(st)) => {
            lemma_found_points_bounded(g.found, st.words@, p.letters@);
        },
        _ => {},
    }
}

/// The entries grouped by the number of characters in their words, the
/// longest words first, each group ordered by word.
pub fn groups_longest_first(entries: &[WordEntry]) -> (r: Vec<(usize, Vec<WordEntry>)>)
    ensures
        forall|i: int, j: int| 0 <= i < j < r@.len() ==> #[trigger] r@[i].0 > #[trigger] r@[j].0,
        forall|len: usize|
            (exists|i: int| 0 <= i < r@.len() && #[trigger] r@[i].0 == len) <==> of_length(
                entries@,
                len as nat,
            ).len() > 0,
        forall|i: int|
            0 <= i < r@.len() ==> (#[trigger] r@[i]).1@ == sort_by_word(
                of_length(entries@, r@[i].0 as nat),
            ),
{
    // the lengths present, longest first
    let mut lengths: Vec<usize> = Vec::new();
    let mut i: usize = 0;
    proof {
        assert(entries@.take(0) =~= Seq::<WordEntry>::empty());
    }
    while i < entries.len()
        invariant
            i <= entries@.len(),
            forall|a: int, b: int| 0 <= a < b < lengths@.len() ==> lengths@[a] > lengths@[b],
            forall|len: usize| #[trigger]
                lengths@.contains(len) <==> of_length(entries@.take(i as int), len as nat).len() > 0,
        decreases entries@.len() - i,
    {
        let len = entries[i].word.as_str().unicode_len();
        let ghost p = entries@.take(i as int);
        let ghost e = entries@[i as int];
        proof {
            assert(entries@.take(i + 1) =~= p.push(e));
            assert(p.push(e).drop_last() =~= p);
            assert(of_length(p.push(e), len as nat) == of_length(p, len as nat).push(e));
            assert forall|l: usize| l != len implies of_length(p.push(e), l as nat) == of_length(p, l as nat) by {}
        }
        let mut k: usize = 0;
        while k < lengths.len() && lengths[k] > len
            invariant
                k <= lengths@.len(),
                forall|m: int| 0 <= m < k ==> lengths@[m] > len,
            decreases lengths@.len() - k,
        {
            k += 1;
        }
        if k < lengths.len() && lengths[k] == len {
            proof {
                assert forall|l: usize| #[trigger] lengths@.contains(l) <==> of_length(p.push(e), l as nat).len() > 0 by {
                    if l == len {
                        assert(lengths@[k as int] == l);
                    }
                }
            }
        } else {
            let ghost old_lengths = lengths@;
            lengths.insert(k, len);
            proof {
                assert(lengths@ =~= old_lengths.insert(k as int, len));
                assert forall|a: int, b: int| 0 <= a < b < lengths@.len() implies lengths@[a] > lengths@[b] by {
                    if k < old_lengths.len() {
                        assert(old_lengths[k as int] < len);
                    }
                    if b < k {
                    } else if b == k {
                    } else if a < k {
                        assert(old_lengths[b - 1] <= old_lengths[k as int] || b - 1 == k);
                    } else if a == k {
                    } else {
                    }
                }
                assert forall|l: usize| #[trigger] lengths@.contains(l) <==> of_length(p.push(e), l as nat).len() > 0 by {
                    if l == len {
                        assert(lengths@[k as int] == l);
                    } else {
                        if lengths@.contains(l) {
                            let j = choose|j: int| 0 <= j < lengths@.len() && lengths@[j] == l;
                            if j < k {
                                assert(old_lengths[j] == l);
                            } else {
                                assert(old_lengths[j - 1] == l);
                            }
                        }
                        if old_lengths.contains(l) {
                            let j = choose|j: int| 0 <= j < old_lengths.len() && old_lengths[j] == l;
                            if j < k {
                                assert(lengths@[j] == l);
                            } else {
                                assert(lengths@[j + 1] == l);
                            }
                        }
                    }
                }
            }
        }
        i += 1;
    }
    proof {
        assert(entries@.take(entries@.len() as int) =~= entries@);
    }
    let mut groups = crate::game::group_words_by_length(entries);
    proof {
        assert forall|m: int| 0 <= m < lengths@.len() implies groups@.contains_key(#[trigger] lengths@[m])
            && groups@[lengths@[m]]@ == sort_by_word(of_length(entries@, lengths@[m] as nat)) by {
            let l = lengths@[m];
            assert(lengths@.contains(l));
            assert(of_length(entries@.take(entries@.len() as int), l as nat).len() > 0);
            assert(of_length(entries@, l as nat).len() > 0);
            assert(groups@.contains_key(l));
        }
    }
    let mut r: Vec<(usize, Vec<WordEntry>)> = Vec::new();
    let mut j: usize = 0;
    while j < lengths.len()
        invariant
            j <= lengths@.len(),
            forall|a: int, b: int| 0 <= a < b < lengths@.len() ==> lengths@[a] > lengths@[b],
            forall|len: usize| #[trigger]
                lengths@.contains(len) <==> of_length(entries@, len as nat).len() > 0,
            forall|m: int| j <= m < lengths@.len() ==> groups@.contains_key(#[trigger] lengths@[m])
                && groups@[lengths@[m]]@ == sort_by_word(of_length(entries@, lengths@[m] as nat)),
            r@.len() == j,
            forall|m: int| 0 <= m < j ==> (#[trigger] r@[m]).0 == lengths@[m] && r@[m].1@
                == sort_by_word(of_length(entries@, r@[m].0 as nat)),
        decreases lengths@.len() - j,
    {
        let len = lengths[j];
        let ghost before = groups@;
        let g = match groups.remove(&len) {
            Some(g) => g,
            None => Vec::new(),
        };
        proof {
            assert(before.contains_key(len));
            assert forall|m: int| j + 1 <= m < lengths@.len() implies groups@.contains_key(#[trigger] lengths@[m])
                && groups@[lengths@[m]]@ == sort_by_word(of_length(entries@, lengths@[m] as nat)) by {
                assert(lengths@[m] != len);
            }
        }
        r.push((len, g));
        j += 1;
    }
    proof {
        assert forall|len: usize|
            (exists|i: int| 0 <= i < r@.len() && #[trigger] r@[i].0 == len) <==> of_length(
                entries@,
                len as nat,
            ).len() > 0 by {
            if of_length(entries@, len as nat).len() > 0 {
                assert(lengths@.contains(len));
                let m = choose|m: int| 0 <= m < lengths@.len() && lengths@[m] == len;
                assert(r@[m].0 == len);
            }
            if exists|i: int| 0 <= i < r@.len() && #[trigger] r@[i].0 == len {
                let m = choose|m: int| 0 <= m < r@.len() && #[trigger] r@[m].0 == len;
                assert(lengths@[m] == len);
                assert(lengths@.contains(len));
            }
        }
    }
    r
}

/// Once a word has been accepted, typing it again is refused as already found.
pub proof fn lemma_accepted_word_refused_again(g: GameView, h: GameView)
    requires
        g.wf(),
        submit_result(g, h),
        g.puzzle matches Some(p) && submission_outcome(
            g.current_word,
            p.letters@,
            p.center,
            words_of(g.found),
            g.dictionary,
        ) is Ok,
    ensures
        g.puzzle matches Some(p) && submission_outcome(
            g.current_word,
            p.letters@,
            p.center,
            words_of(h.found),
            h.dictionary,
        ) == Err::<Seq<char>, SubmitError>(SubmitError::AlreadyFound),
{
    broadcast use vstd::seq_lib::group_to_multiset_ensures;

    let p = g.puzzle.unwrap();
    let w = normalize(g.current_word);
    let e = choose|e: WordEntry|
        #![trigger entry_for(e, p.letters@)]
        e.word@ == w && entry_for(e, p.letters@) && h =~= GameView {
            found: sort_by_word(g.found.push(e)),
            current_word: Seq::empty(),
            feedback: Some((true, accepted_message(w, e.points, e.pangram))),
            ..g
        };
    crate::properties::lemma_sort_by_word(g.found.push(e));
    let s = sort_by_word(g.found.push(e));
    assert(g.found.push(e).contains(e)) by {
        assert(g.found.push(e)[g.found.len() as int] == e);
    }
    assert(s.to_multiset().count(e) > 0);
    assert(s.contains(e));
    let k = choose|k: int| 0 <= k < s.len() && s[k] == e;
    assert(words_of(h.found)[k] == w);
}

proof fn lemma_total_after_insert(s: Seq<WordEntry>, e: WordEntry)
    ensures
        total_points(insert_by_word(s, e)) == total_points(s) + e.points,
    decreases s.len(),
{
    if s.len() == 0 {
        let r = insert_by_word(s, e);
        assert(r == seq![e]);
        assert(r.drop_last() =~= Seq::<WordEntry>::empty());
        assert(r.last() == e);
        assert(total_points(r) == total_points(r.drop_last()) + e.points);
        assert(total_points(r.drop_last()) == 0);
    } else if lex_lt(e.word@, s.last().word@) {
        lemma_total_after_insert(s.drop_last(), e);
        let r = insert_by_word(s.drop_last(), e).push(s.last());
        assert(insert_by_word(s, e) == r);
        assert(r.drop_last() =~= insert_by_word(s.drop_last(), e));
        assert(r.last() == s.last());
        assert(total_points(r) == total_points(insert_by_word(s.drop_last(), e)) + s.last().points);
        assert(total_points(s) == total_points(s.drop_last()) + s.last().points);
    } else {
        assert(s.push(e).drop_last() =~= s);
        assert(insert_by_word(s, e) == s.push(e));
        assert(total_points(s.push(e)) == total_points(s) + e.points);
    }
}

/// Accepting a word adds exactly its points to the score; a refusal, or a
/// submission with no hive, leaves the score as it was.
pub proof fn lemma_submit_changes_score(g: GameView, h: GameView)
    requires
        g.wf(),
        submit_result(g, h),
    ensures
        match g.puzzle {
            Some(p) => match submission_outcome(
                g.current_word,
                p.letters@,
                p.center,
                words_of(g.found),
                g.dictionary,
            ) {
                Ok(w) => total_points(h.found) == total_points(g.found) + word_score(
                    w.len(),
                    crate::game::uses_all(w, p.letters@),
                ),
                Err(_) => total_points(h.found) == total_points(g.found),
            },
            None => total_points(h.found) == total_points(g.found),
        },
{
    if let Some(p) = g.puzzle {
        if let Ok(w) = submission_outcome(
            g.current_word,
            p.letters@,
            p.center,
            words_of(g.found),
            g.dictionary,
        ) {
            let e = choose|e: WordEntry|
                #![trigger entry_for(e, p.letters@)]
                e.word@ == w && entry_for(e, p.letters@) && h =~= GameView {
                    found: sort_by_word(g.found.push(e)),
                    current_word: Seq::empty(),
                    feedback: Some((true, accepted_message(w, e.points, e.pangram))),
                    ..g
                };
            lemma_strict_is_ordered(g.found);
            lemma_sort_ordered(g.found);
            assert(g.found.push(e).drop_last() =~= g.found);
            lemma_total_after_insert(g.found, e);
        }
    }
}

} // verus!
