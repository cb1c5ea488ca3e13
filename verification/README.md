# Waffle

A Spelling Bee game: enter the seven letters of a hive, pick the center
letter, and find the words of four letters or more that use only the hive's
letters and always the center one. Four-letter words score one point, longer
words one point per letter, and a pangram (a word using all seven letters)
seven more. Ranks run from Beginner to Queen Bee by share of the best score.

- `src/` is the library, verified with Verus:
  - `text.rs`: character helpers, lexicographic order, decimal digits;
  - `dictionary.rs`: the word list, read from text, kept sorted and unique;
  - `game.rs`: puzzles, submissions, scoring, analysis, ranks, shuffling,
    grouping by length;
  - `session.rs`: one game's state and its steps (setup, typing, submitting,
    key presses), with the invariant that every state keeps;
  - `properties.rs`: facts relating the functions to one another.
- `tests/` exercises the library on concrete values.
- `app/` is the browser front end (Leptos): it renders the state and forwards
  events. It expects the word list in the page, one word per line, as the text
  of the element with id `word-list`.
