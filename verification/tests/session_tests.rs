use waffle::dictionary::load_dictionary;
use waffle::game::WordEntry;
use waffle::session::{groups_longest_first, is_text_entry_target, Game, Screen};

const WORDS: &str = "rain\ntrain\nbrain\nbritains\nant\nbanana\nsnit\nstair\n";

fn new_game() -> Game {
    Game::new(load_dictionary(WORDS))
}

fn started_game() -> Game {
    let mut game = new_game();
    game.set_letters_input("airbnst");
    game.set_center_input("n");
    assert!(game.start_fits());
    game.start_game();
    game
}

fn entry(word: &str, points: u32, pangram: bool) -> WordEntry {
    WordEntry { word: word.to_string(), points, pangram }
}

fn type_word(game: &mut Game, word: &str) {
    for c in word.chars() {
        game.append_letter(c);
    }
}

#[test]
fn new_game_is_on_setup() {
    let game = new_game();
    assert_eq!(game.screen(), Screen::Setup);
    assert!(game.puzzle().is_none());
    assert_eq!(game.total_score(), 0);
    assert_eq!(game.max_score(), 0);
    assert_eq!(game.rank_name(), "Beginner");
    assert_eq!(game.next_rank_info(), None);
    assert!(game.outer().is_empty());
    assert!(game.show_word_list());
    assert!(!game.show_answers());
    assert_eq!(game.dictionary().len(), 8);
}

#[test]
fn setup_fields_keep_letters_only() {
    let mut game = new_game();
    game.set_letters_input("ai-r b1nstxyz");
    assert_eq!(game.letters_input(), "AIRBNST");
    game.set_center_input(" n q");
    assert_eq!(game.center_input(), "N");
    game.set_center_input("7");
    assert_eq!(game.center_input(), "");
}

#[test]
fn start_needs_one_center_letter() {
    let mut game = new_game();
    game.set_letters_input("airbnst");
    game.start_game();
    assert_eq!(game.setup_error().as_deref(), Some("Pick exactly one center letter."));
    assert_eq!(game.screen(), Screen::Setup);
}

#[test]
fn start_needs_seven_distinct_letters() {
    let mut game = new_game();
    game.set_letters_input("airbnss");
    game.set_center_input("n");
    game.start_game();
    assert_eq!(
        game.setup_error().as_deref(),
        Some("Enter exactly 7 unique letters (A\u{2013}Z).")
    );
    game.set_letters_input("airbnst");
    game.set_center_input("q");
    game.start_game();
    assert_eq!(
        game.setup_error().as_deref(),
        Some("Enter exactly 7 unique letters (A\u{2013}Z).")
    );
}

#[test]
fn start_needs_some_word() {
    let mut game = new_game();
    game.set_letters_input("cdefghj");
    game.set_center_input("c");
    game.start_game();
    assert_eq!(game.setup_error().as_deref(), Some("No valid words for this letter set."));
    assert!(game.puzzle().is_none());
}

#[test]
fn start_enters_play() {
    let game = started_game();
    assert_eq!(game.screen(), Screen::Play);
    assert_eq!(game.setup_error(), &None);
    assert_eq!(game.max_score(), 33);
    assert_eq!(game.stats().as_ref().unwrap().words.len(), 6);
    let mut outer = game.outer();
    outer.sort();
    assert_eq!(outer, vec!['a', 'b', 'i', 'r', 's', 't']);
    assert_eq!(game.next_rank_info(), Some(("Good Start", 1)));
}

#[test]
fn submitting_scores_and_orders_found_words() {
    let mut game = started_game();
    type_word(&mut game, "TRAIN");
    assert_eq!(game.current_word(), "train");
    game.submit_word();
    assert_eq!(game.feedback(), &Some((true, "+5 \u{2014} train".to_string())));
    assert_eq!(game.current_word(), "");
    type_word(&mut game, "britains");
    game.submit_word();
    assert_eq!(
        game.feedback(),
        &Some((true, "Pangram! +15 \u{2014} britains".to_string()))
    );
    assert_eq!(
        game.found_words(),
        &vec![entry("britains", 15, true), entry("train", 5, false)]
    );
    assert_eq!(game.total_score(), 20);
    assert_eq!(game.rank_name(), "Amazing");
    assert!(game.is_found(&"train".to_string()));
    assert!(!game.is_found(&"rain".to_string()));
}

#[test]
fn refused_words_show_the_reason() {
    let mut game = started_game();
    type_word(&mut game, "ant");
    game.submit_word();
    assert_eq!(game.feedback(), &Some((false, "Too short".to_string())));
    assert_eq!(game.current_word(), "");
    type_word(&mut game, "rain");
    game.submit_word();
    type_word(&mut game, "rain");
    game.submit_word();
    assert_eq!(game.feedback(), &Some((false, "Already found".to_string())));
    assert_eq!(game.total_score(), 1);
}

#[test]
fn typing_clears_feedback_and_delete_pops() {
    let mut game = started_game();
    type_word(&mut game, "ant");
    game.submit_word();
    game.append_letter('B');
    assert_eq!(game.feedback(), &None);
    game.delete_letter();
    game.delete_letter();
    assert_eq!(game.current_word(), "");
}

#[test]
fn keys_drive_the_game() {
    let mut game = started_game();
    assert!(game.handle_key("r", false, false));
    assert!(game.handle_key("A", false, false));
    assert!(game.handle_key("i", false, false));
    assert!(!game.handle_key("z", false, false));
    assert!(!game.handle_key("1", false, false));
    assert!(!game.handle_key("n", true, false));
    assert!(!game.handle_key("n", false, true));
    assert!(game.handle_key("n", false, false));
    assert_eq!(game.current_word(), "rain");
    assert!(game.handle_key("Backspace", false, false));
    assert_eq!(game.current_word(), "rai");
    assert!(game.handle_key("Escape", false, false));
    assert_eq!(game.current_word(), "");
    type_word(&mut game, "snit");
    assert!(game.handle_key("Enter", false, false));
    assert_eq!(game.total_score(), 1);
    assert!(!game.handle_key("Shift", false, false));
}

#[test]
fn keys_are_ignored_on_setup() {
    let mut game = new_game();
    assert!(!game.handle_key("Enter", false, false));
    assert!(!game.handle_key("a", false, false));
}

#[test]
fn shuffle_changes_salt_only() {
    let mut game = started_game();
    let before = game.outer();
    game.shuffle();
    let mut after = game.outer();
    let mut sorted_before = before.clone();
    sorted_before.sort();
    after.sort();
    assert_eq!(after, sorted_before);
}

#[test]
fn reset_returns_to_setup() {
    let mut game = started_game();
    type_word(&mut game, "rain");
    game.submit_word();
    game.reset();
    assert_eq!(game.screen(), Screen::Setup);
    assert!(game.found_words().is_empty());
    assert_eq!(game.total_score(), 0);
    assert_eq!(game.letters_input(), "AIRBNST");
}

#[test]
fn toggles_flip() {
    let mut game = started_game();
    game.toggle_answers();
    assert!(game.show_answers());
    game.toggle_word_list();
    assert!(!game.show_word_list());
}

#[test]
fn full_score_is_queen_bee() {
    let mut game = started_game();
    for w in ["banana", "brain", "britains", "rain", "snit", "train"] {
        type_word(&mut game, w);
        game.submit_word();
    }
    assert_eq!(game.total_score(), game.max_score());
    assert_eq!(game.rank_name(), "Queen Bee");
    assert_eq!(game.next_rank_info(), None);
}

#[test]
fn groups_come_longest_first() {
    let entries = vec![
        entry("rain", 1, false),
        entry("train", 5, false),
        entry("britains", 15, true),
        entry("brain", 5, false),
    ];
    let groups = groups_longest_first(&entries);
    assert_eq!(
        groups,
        vec![
            (8, vec![entry("britains", 15, true)]),
            (5, vec![entry("brain", 5, false), entry("train", 5, false)]),
            (4, vec![entry("rain", 1, false)]),
        ]
    );
}

#[test]
fn text_fields_take_typing() {
    assert!(is_text_entry_target("INPUT", false));
    assert!(is_text_entry_target("textarea", false));
    assert!(is_text_entry_target("div", true));
    assert!(!is_text_entry_target("button", false));
}

#[test]
fn score_stays_within_max() {
    let mut game = started_game();
    for w in ["rain", "rain", "ant", "banana", "zzz", "train", "snit"] {
        let before = game.total_score();
        type_word(&mut game, w);
        game.submit_word();
        assert!(game.total_score() <= game.max_score());
        assert!(game.total_score() >= before);
    }
    assert_eq!(game.total_score(), 13);
}

#[test]
fn start_fits_for_small_lists() {
    let mut game = new_game();
    assert!(game.start_fits());
    game.set_letters_input("xx");
    game.set_center_input("x");
    assert!(game.start_fits());
}
