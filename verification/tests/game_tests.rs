use std::collections::HashMap;

use waffle::dictionary::{load_dictionary, Dictionary};
use waffle::game::{
    analyze_puzzle, current_rank, hive_points_fit, visible_rank_markers, group_words_by_length, is_pangram, next_rank, outer_letters,
    parse_puzzle, rank_markers, ranks, score_word, shuffle_letters, validate_submission, Puzzle,
    SubmitError, WordEntry,
};

const WORDS: &str = "rain\ntrain\nbrain\nbritains\nant\nbanana\n  snit \r\n\nstair\n";

fn sample_puzzle() -> Puzzle {
    parse_puzzle("AIRBNST", 'n').unwrap()
}

fn sample_dictionary() -> Dictionary {
    load_dictionary(WORDS)
}

fn entry(word: &str, points: u32, pangram: bool) -> WordEntry {
    WordEntry { word: word.to_string(), points, pangram }
}

#[test]
fn parses_valid_puzzle() {
    let puzzle = sample_puzzle();
    assert_eq!(puzzle.letters.len(), 7);
    assert_eq!(puzzle.center, 'n');
}

#[test]
fn scores_like_nyt() {
    assert_eq!(score_word("rain", false), 1);
    assert_eq!(score_word("train", false), 5);
    assert_eq!(score_word("brain", true), 12);
}

#[test]
fn rejects_short_words() {
    let puzzle = sample_puzzle();
    let dict = sample_dictionary();
    let found: Vec<String> = Vec::new();
    assert_eq!(
        validate_submission("ant", &puzzle, &found, &dict),
        Err(SubmitError::TooShort)
    );
}

#[test]
fn parse_sorts_and_lowercases_letters() {
    let puzzle = sample_puzzle();
    assert_eq!(puzzle.letters, vec!['a', 'b', 'i', 'n', 'r', 's', 't']);
    let same = parse_puzzle("t-s-b-r-a-i-N!", 'N').unwrap();
    assert_eq!(same, puzzle);
}

#[test]
fn parse_rejects_bad_hives() {
    assert_eq!(parse_puzzle("AIRBNS", 'n'), None);
    assert_eq!(parse_puzzle("AIRBNSTE", 'n'), None);
    assert_eq!(parse_puzzle("AIRBNSS", 'n'), None);
    assert_eq!(parse_puzzle("AIRBNST", 'z'), None);
    assert_eq!(parse_puzzle("", 'a'), None);
}

#[test]
fn outer_letters_leave_out_the_center() {
    let puzzle = sample_puzzle();
    assert_eq!(outer_letters(&puzzle), vec!['a', 'b', 'i', 'r', 's', 't']);
}

#[test]
fn pangrams_use_every_letter() {
    let puzzle = sample_puzzle();
    assert!(is_pangram("britains", &puzzle));
    assert!(!is_pangram("brain", &puzzle));
}

#[test]
fn score_table() {
    assert_eq!(score_word("snit", false), 1);
    assert_eq!(score_word("snit", true), 8);
    assert_eq!(score_word("banana", false), 6);
    assert_eq!(score_word("britains", true), 15);
    assert_eq!(score_word("", false), 0);
}

#[test]
fn error_messages() {
    assert_eq!(SubmitError::TooShort.message(), "Too short");
    assert_eq!(SubmitError::MissingCenter.message(), "Missing center letter");
    assert_eq!(SubmitError::InvalidLetters.message(), "Invalid letters");
    assert_eq!(SubmitError::NotInDictionary.message(), "Not in word list");
    assert_eq!(SubmitError::AlreadyFound.message(), "Already found");
}

#[test]
fn submission_errors_in_order() {
    let puzzle = sample_puzzle();
    let dict = sample_dictionary();
    let none: Vec<String> = Vec::new();
    assert_eq!(
        validate_submission("stair", &puzzle, &none, &dict),
        Err(SubmitError::MissingCenter)
    );
    assert_eq!(
        validate_submission("banister", &puzzle, &none, &dict),
        Err(SubmitError::InvalidLetters)
    );
    assert_eq!(
        validate_submission("bran", &puzzle, &none, &dict),
        Err(SubmitError::NotInDictionary)
    );
    let found = vec!["rain".to_string()];
    assert_eq!(
        validate_submission(" R-A-I-N ", &puzzle, &found, &dict),
        Err(SubmitError::AlreadyFound)
    );
}

#[test]
fn accepted_submissions_are_scored() {
    let puzzle = sample_puzzle();
    let dict = sample_dictionary();
    let none: Vec<String> = Vec::new();
    assert_eq!(
        validate_submission("Britains", &puzzle, &none, &dict),
        Ok(entry("britains", 15, true))
    );
    assert_eq!(
        validate_submission("TRAIN", &puzzle, &none, &dict),
        Ok(entry("train", 5, false))
    );
    assert_eq!(
        validate_submission("snit", &puzzle, &none, &dict),
        Ok(entry("snit", 1, false))
    );
}

#[test]
fn analysis_lists_every_word_in_order() {
    let puzzle = sample_puzzle();
    let dict = sample_dictionary();
    let stats = analyze_puzzle(&puzzle, &dict);
    assert_eq!(
        stats.words,
        vec![
            entry("banana", 6, false),
            entry("brain", 5, false),
            entry("britains", 15, true),
            entry("rain", 1, false),
            entry("snit", 1, false),
            entry("train", 5, false),
        ]
    );
    assert_eq!(stats.max_score, 33);
    assert_eq!(stats.pangram_count, 1);
}

#[test]
fn analysis_agrees_with_submission() {
    let puzzle = sample_puzzle();
    let dict = sample_dictionary();
    let stats = analyze_puzzle(&puzzle, &dict);
    let none: Vec<String> = Vec::new();
    for e in &stats.words {
        assert_eq!(validate_submission(&e.word, &puzzle, &none, &dict), Ok(e.clone()));
    }
    let total: u32 = stats.words.iter().map(|e| e.points).sum();
    assert_eq!(total, stats.max_score);
}

#[test]
fn ranks_and_thresholds() {
    let table = ranks();
    assert_eq!(table.len(), 10);
    assert_eq!(table[0].name, "Beginner");
    assert_eq!(table[9].name, "Queen Bee");
    assert_eq!(table[9].threshold_pct, 100);
}

#[test]
fn current_rank_by_percentage() {
    assert_eq!(current_rank(0, 0), "Beginner");
    assert_eq!(current_rank(5, 0), "Beginner");
    assert_eq!(current_rank(0, 100), "Beginner");
    assert_eq!(current_rank(2, 100), "Good Start");
    assert_eq!(current_rank(10, 100), "Good");
    assert_eq!(current_rank(69, 100), "Amazing");
    assert_eq!(current_rank(70, 100), "Genius");
    assert_eq!(current_rank(33, 33), "Queen Bee");
    assert_eq!(current_rank(40, 33), "Queen Bee");
}

#[test]
fn next_rank_and_points_needed() {
    assert_eq!(next_rank(10, 0), None);
    assert_eq!(next_rank(10, 100), Some(("Solid", 5)));
    assert_eq!(next_rank(0, 33), Some(("Good Start", 1)));
    assert_eq!(next_rank(33, 33), None);
    assert_eq!(next_rank(32, 33), Some(("Queen Bee", 1)));
}

#[test]
fn markers_for_each_rank() {
    let markers = rank_markers(33);
    let points: Vec<u32> = markers.iter().map(|m| m.1).collect();
    assert_eq!(points, vec![0, 1, 2, 3, 5, 9, 14, 17, 24, 33]);
    assert_eq!(markers[4].0, "Solid");
    assert_eq!(rank_markers(0).iter().map(|m| m.1).collect::<Vec<u32>>(), vec![0; 10]);
}

#[test]
fn reaching_the_needed_points_reaches_the_rank() {
    let (name, needed) = next_rank(10, 100).unwrap();
    assert_eq!(current_rank(10 + needed, 100), name);
    let (name, needed) = next_rank(20, 33).unwrap();
    assert_eq!(current_rank(20 + needed, 33), name);
}

#[test]
fn shuffle_reorders_outer_letters() {
    let puzzle = sample_puzzle();
    let mut outer = outer_letters(&puzzle);
    for salt in [0u64, 1, 2, 99, u64::MAX] {
        let mut shown = shuffle_letters(&puzzle, salt);
        assert_eq!(shown, shuffle_letters(&puzzle, salt));
        shown.sort();
        outer.sort();
        assert_eq!(shown, outer);
    }
}

#[test]
fn shuffle_order_for_a_salt() {
    // salt 1 starts from 1 * 0x9E3779B97F4A7C15 + 1
    let puzzle = sample_puzzle();
    let mut v = outer_letters(&puzzle);
    let mut state = 1u64.wrapping_mul(0x9E3779B97F4A7C15).wrapping_add(1);
    for i in (1..v.len()).rev() {
        state = state.wrapping_mul(6364136223846793005).wrapping_add(1);
        let j = (state as usize) % (i + 1);
        v.swap(i, j);
    }
    assert_eq!(shuffle_letters(&puzzle, 1), v);
}

#[test]
fn groups_by_length_sorted_by_word() {
    let entries = vec![
        entry("train", 5, false),
        entry("rain", 1, false),
        entry("brain", 5, false),
        entry("snit", 1, false),
        entry("britains", 15, true),
    ];
    let groups: HashMap<usize, Vec<WordEntry>> = group_words_by_length(&entries);
    assert_eq!(groups.len(), 3);
    assert_eq!(groups[&4], vec![entry("rain", 1, false), entry("snit", 1, false)]);
    assert_eq!(groups[&5], vec![entry("brain", 5, false), entry("train", 5, false)]);
    assert_eq!(groups[&8], vec![entry("britains", 15, true)]);
    assert!(group_words_by_length(&[]).is_empty());
}

#[test]
fn dictionary_trims_and_deduplicates() {
    let dict = load_dictionary("rain\n rain \nRain\n\n\t\nbrain\r\n");
    assert_eq!(dict.len(), 3);
    assert!(dict.contains(&"rain".chars().collect()));
    assert!(dict.contains(&"Rain".chars().collect()));
    assert!(dict.contains(&"brain".chars().collect()));
    assert!(!dict.contains(&" rain ".chars().collect()));
    assert!(!dict.contains(&"".chars().collect()));
    assert_eq!(sample_dictionary().len(), 8);
    assert_eq!(load_dictionary("").len(), 0);
}

#[test]
fn dictionary_words_come_sorted() {
    let dict = load_dictionary("train\nant\nbrain\nant\n");
    let words: Vec<String> = (0..dict.len()).map(|i| dict.word_at(i).iter().collect()).collect();
    assert_eq!(words, vec!["ant", "brain", "train"]);
}

fn rank_position(name: &str) -> usize {
    ranks().iter().position(|r| r.name == name).unwrap()
}

#[test]
fn rank_never_drops_as_score_rises() {
    for max in [1u32, 7, 33, 100, 250] {
        let mut last = 0;
        for score in 0..=max + 5 {
            let now = rank_position(current_rank(score, max));
            assert!(now >= last);
            last = now;
        }
        assert_eq!(current_rank(max, max), "Queen Bee");
    }
}

#[test]
fn next_rank_is_one_above_current() {
    for max in [1u32, 33, 100] {
        for score in 0..max {
            let current = rank_position(current_rank(score, max));
            match next_rank(score, max) {
                Some((name, needed)) => {
                    assert_eq!(rank_position(name), current + 1);
                    assert!(rank_position(current_rank(score + needed, max)) >= current + 1);
                }
                None => assert_eq!(current, 9),
            }
        }
    }
}

#[test]
fn words_outside_the_puzzle_are_refused() {
    let puzzle = sample_puzzle();
    let dict = sample_dictionary();
    let stats = analyze_puzzle(&puzzle, &dict);
    let none: Vec<String> = Vec::new();
    for w in ["ant", "stair", "brat", "banister"] {
        assert!(validate_submission(w, &puzzle, &none, &dict).is_err());
        assert!(!stats.words.iter().any(|e| e.word == w));
    }
}

#[test]
fn visible_markers_lie_inside_the_bar() {
    let markers = visible_rank_markers(33);
    let points: Vec<u32> = markers.iter().map(|m| m.1).collect();
    assert_eq!(points, vec![1, 2, 3, 5, 9, 14, 17, 24]);
    assert_eq!(markers[0].0, "Good Start");
    assert_eq!(markers[7].0, "Genius");
    assert!(visible_rank_markers(0).is_empty());
    assert_eq!(visible_rank_markers(1).len(), 0);
}

#[test]
fn parsing_ignores_case_order_and_other_characters() {
    let a = parse_puzzle("AIRBNST", 'n');
    let b = parse_puzzle("t s r n b i a", 'N');
    let c = parse_puzzle("1tSrNbIa!", 'n');
    assert_eq!(a, b);
    assert_eq!(a, c);
    assert_eq!(parse_puzzle("AIRBNSS", 'n'), parse_puzzle("ssnbria", 'N'));
}

#[test]
fn reparsing_a_hive_gives_it_back() {
    let p = sample_puzzle();
    let letters: String = p.letters.iter().collect();
    assert_eq!(parse_puzzle(&letters, p.center), Some(p.clone()));
    assert_eq!(
        parse_puzzle(&letters.to_ascii_uppercase(), p.center.to_ascii_uppercase()),
        Some(p)
    );
}

#[test]
fn only_the_letters_of_a_submission_matter() {
    let puzzle = sample_puzzle();
    let dict = sample_dictionary();
    let found = vec!["rain".to_string()];
    for raw in ["Tr-ain", " B R A I N ", "a.n.t", "RAIN", "st4ir", "bran!"] {
        let w: String = raw
            .chars()
            .filter(|c| c.is_ascii_alphabetic())
            .map(|c| c.to_ascii_lowercase())
            .collect();
        assert_eq!(
            validate_submission(raw, &puzzle, &found, &dict),
            validate_submission(&w, &puzzle, &found, &dict)
        );
    }
}

#[test]
fn two_analyses_agree() {
    let puzzle = sample_puzzle();
    let dict = sample_dictionary();
    let a = analyze_puzzle(&puzzle, &dict);
    let b = analyze_puzzle(&puzzle, &load_dictionary("snit\nbritains\nbanana\ntrain\nrain\nbrain\n"));
    assert_eq!(a.words, b.words);
    assert_eq!(a.max_score, b.max_score);
    assert_eq!(a.pangram_count, b.pangram_count);
}

#[test]
fn hive_points_fit_small_lists() {
    assert!(hive_points_fit(&sample_puzzle(), &sample_dictionary()));
}

#[test]
fn rank_is_the_last_marker_reached() {
    for max in [1u32, 7, 33, 100, 250] {
        let markers = rank_markers(max);
        for score in 0..=max + 3 {
            let last = markers.iter().filter(|m| m.1 <= score).last().unwrap();
            assert_eq!(current_rank(score, max), last.0);
        }
    }
}

#[test]
fn needed_points_are_the_fewest() {
    for max in [1u32, 7, 33, 100, 250] {
        for score in 0..=max {
            if let Some((name, needed)) = next_rank(score, max) {
                assert!(needed >= 1);
                assert!(rank_position(current_rank(score + needed, max)) >= rank_position(name));
                assert!(rank_position(current_rank(score + needed - 1, max)) < rank_position(name));
            }
        }
    }
}
