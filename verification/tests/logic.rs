use diveno::game::dictionary::Dictionary;
use diveno::game::logic::{
    Event, Key, Letter, LetterCounter, LetterResult, Logic, LogicLoader, Page, Team, MAX_SCORE,
    N_GUESSES,
};

// A trie of words: each node is a letter with its children; a word ends with
// a '\0' child.
struct TrieNode {
    letter: char,
    children: Vec<TrieNode>,
}

fn insert(nodes: &mut Vec<TrieNode>, letters: &[char]) {
    let letter = if letters.is_empty() { '\0' } else { letters[0] };
    let pos = match nodes.iter().position(|n| n.letter == letter) {
        Some(p) => p,
        None => {
            nodes.push(TrieNode { letter, children: Vec::new() });
            nodes.len() - 1
        }
    };
    if !letters.is_empty() {
        insert(&mut nodes[pos].children, &letters[1..]);
    }
}

fn varint(mut value: usize, out: &mut Vec<u8>) {
    loop {
        let byte = (value & 0x7f) as u8;
        value >>= 7;
        if value == 0 {
            out.push(byte);
            break;
        }
        out.push(byte | 0x80);
    }
}

fn serialize(nodes: &[TrieNode]) -> Vec<u8> {
    let mut out = Vec::new();
    for (i, node) in nodes.iter().enumerate() {
        let mut letter = [0u8; 4];
        let letter = node.letter.encode_utf8(&mut letter).as_bytes().to_vec();
        let children = serialize(&node.children);
        let sibling_offset = if i + 1 < nodes.len() { letter.len() + children.len() } else { 0 };
        let child_offset = if node.children.is_empty() { 0 } else { letter.len() };
        varint(sibling_offset, &mut out);
        varint(child_offset, &mut out);
        out.extend_from_slice(&letter);
        out.extend_from_slice(&children);
    }
    out
}

fn build(words: &[&str]) -> (Vec<u8>, Vec<TrieNode>) {
    let mut nodes = Vec::new();
    for word in words {
        let letters: Vec<char> = word.chars().collect();
        insert(&mut nodes, &letters);
    }
    let root = vec![TrieNode { letter: '\0', children: nodes }];
    (serialize(&root), root)
}

fn code_for(root: &[TrieNode], word: &str) -> u64 {
    let mut nodes = &root[0].children;
    let mut code = 0u64;
    let mut shift = 0;
    let mut letters: Vec<char> = word.chars().collect();
    letters.push('\0');
    for letter in letters {
        let pos = nodes.iter().position(|n| n.letter == letter).unwrap();
        code |= (pos as u64) << shift;
        shift += 5;
        nodes = &nodes[pos].children;
    }
    code
}

fn chars(s: &str) -> Vec<char> {
    s.chars().collect()
}

fn game_with(words: &[&str], word: &str) -> Logic {
    let (data, root) = build(words);
    let code = code_for(&root, word);
    Logic::new(Dictionary::new(data), vec![code])
}

fn drain_events(logic: &mut Logic) -> Vec<Event> {
    let mut events = Vec::new();
    while let Some(event) = logic.get_event() {
        events.push(event);
    }
    events
}

fn type_word(logic: &mut Logic, word: &str) {
    for c in word.chars() {
        logic.press_key(Key::Letter(c));
    }
}

fn last_guess(logic: &Logic) -> Vec<Letter> {
    let mut guesses = logic.guesses();
    let mut last = None;
    while let Some(row) = guesses.next() {
        last = Some(row.to_vec());
    }
    last.unwrap()
}

#[test]
fn new_game_picks_the_listed_word() {
    let mut logic = game_with(&["kato", "hundo", "kapo"], "hundo");
    assert_eq!(logic.word(), &chars("HUNDO")[..]);
    assert_eq!(logic.word_length(), 5);
    assert_eq!(logic.visible_letters(), 1);
    assert_eq!(logic.n_guesses(), 0);
    assert!(!logic.is_finished());
    assert_eq!(logic.current_page(), Page::Word);
    assert_eq!(logic.current_team(), Team::Left);
    assert_eq!(logic.team_score(Team::Left), 0);
    assert_eq!(logic.team_score(Team::Right), 0);
    assert_eq!(drain_events(&mut logic), vec![Event::WordChanged, Event::GridChanged]);
    assert!(logic.get_event().is_none());
}

#[test]
fn empty_word_list_falls_back() {
    let (data, _) = build(&["kato"]);
    let logic = Logic::new(Dictionary::new(data), Vec::new());
    assert_eq!(logic.word(), &chars("ERARO")[..]);
}

#[test]
fn unknown_code_falls_back() {
    let (data, _) = build(&["kato"]);
    let logic = Logic::new(Dictionary::new(data), vec![31]);
    assert_eq!(logic.word(), &chars("ERARO")[..]);
}

#[test]
fn typing_starts_with_the_first_letter() {
    let mut logic = game_with(&["kato"], "kato");
    logic.press_key(Key::Letter('a'));
    assert_eq!(logic.in_progress_guess(), &chars("KA")[..]);
    logic.press_key(Key::Backspace);
    logic.press_key(Key::Backspace);
    assert_eq!(logic.in_progress_guess().len(), 0);
    logic.press_key(Key::Letter('k'));
    assert_eq!(logic.in_progress_guess(), &chars("K")[..]);
    type_word(&mut logic, "atoj");
    // the guess stops at the length of the word
    assert_eq!(logic.in_progress_guess(), &chars("KATO")[..]);
}

#[test]
fn letters_without_a_tile_are_skipped() {
    let mut logic = game_with(&["kato"], "kato");
    type_word(&mut logic, "k1q");
    assert_eq!(logic.in_progress_guess(), &chars("K")[..]);
}

#[test]
fn x_puts_a_circumflex_on_the_last_letter() {
    let mut logic = game_with(&["ĉapo", "kato"], "kato");
    type_word(&mut logic, "kcx");
    assert_eq!(logic.in_progress_guess(), &chars("KĈ")[..]);
    // the first letter keeps its form
    let mut logic = game_with(&["ĉapo"], "ĉapo");
    logic.press_key(Key::Letter('c'));
    assert_eq!(logic.in_progress_guess(), &chars("ĈC")[..]);
    let mut logic = game_with(&["kato"], "kato");
    logic.press_key(Key::Letter('k'));
    logic.press_key(Key::Letter('x'));
    assert_eq!(logic.in_progress_guess(), &chars("K")[..]);
}

#[test]
fn dead_key_adds_a_circumflex() {
    let mut logic = game_with(&["kato"], "kato");
    logic.press_key(Key::Letter('k'));
    logic.press_key(Key::Dead);
    logic.press_key(Key::Letter('s'));
    assert_eq!(logic.in_progress_guess(), &chars("KŜ")[..]);
    logic.press_key(Key::Letter('s'));
    assert_eq!(logic.in_progress_guess(), &chars("KŜS")[..]);
}

#[test]
fn solving_scores_for_the_current_team() {
    let mut logic = game_with(&["kato", "kapo"], "kato");
    drain_events(&mut logic);
    logic.press_key(Key::Space);
    assert_eq!(logic.current_team(), Team::Right);
    type_word(&mut logic, "kato");
    logic.press_key(Key::Enter);
    assert!(logic.is_solved());
    assert!(logic.is_finished());
    assert_eq!(logic.n_guesses(), 1);
    assert_eq!(logic.team_score(Team::Right), 50);
    assert_eq!(logic.team_score(Team::Left), 0);
    assert_eq!(logic.visible_letters(), 0b1111);
    assert_eq!(
        drain_events(&mut logic),
        vec![
            Event::CurrentTeamChanged,
            Event::GridChanged,
            Event::GuessEntered,
            Event::ScoreChanged(Team::Right),
            Event::Solved,
        ],
    );
    for letter in last_guess(&logic) {
        assert!(letter.result == LetterResult::Correct);
    }
    // nothing more can be entered once solved
    logic.press_key(Key::Enter);
    assert_eq!(logic.n_guesses(), 1);
}

#[test]
fn letters_in_the_wrong_position() {
    let mut logic = game_with(&["kato", "kota"], "kato");
    type_word(&mut logic, "kota");
    logic.press_key(Key::Enter);
    let results: Vec<LetterResult> = last_guess(&logic).iter().map(|l| l.result).collect();
    assert!(results == vec![
        LetterResult::Correct,
        LetterResult::WrongPosition,
        LetterResult::Correct,
        LetterResult::WrongPosition,
    ]);
    assert!(!logic.is_solved());
    assert_eq!(logic.visible_letters(), 0b0101);
}

#[test]
fn repeated_letters_count_once() {
    let mut logic = game_with(&["abcc", "aacc"], "abcc");
    type_word(&mut logic, "aacc");
    logic.press_key(Key::Enter);
    let results: Vec<LetterResult> = last_guess(&logic).iter().map(|l| l.result).collect();
    assert!(results == vec![
        LetterResult::Correct,
        LetterResult::Wrong,
        LetterResult::Correct,
        LetterResult::Correct,
    ]);
}

#[test]
fn bad_guesses_are_refused() {
    let mut logic = game_with(&["kato", "kapo"], "kato");
    drain_events(&mut logic);
    type_word(&mut logic, "kat");
    logic.press_key(Key::Enter);
    assert_eq!(logic.n_guesses(), 0);
    assert_eq!(drain_events(&mut logic), vec![Event::GridChanged, Event::WrongGuessEntered]);
    // not in the dictionary
    logic.press_key(Key::Letter('e'));
    logic.press_key(Key::Enter);
    assert_eq!(logic.n_guesses(), 0);
    // already tried
    logic.press_key(Key::Backspace);
    logic.press_key(Key::Backspace);
    logic.press_key(Key::Backspace);
    type_word(&mut logic, "apo");
    logic.press_key(Key::Enter);
    assert_eq!(logic.n_guesses(), 1);
    type_word(&mut logic, "kapo");
    drain_events(&mut logic);
    logic.press_key(Key::Enter);
    assert_eq!(logic.n_guesses(), 1);
    assert_eq!(drain_events(&mut logic), vec![Event::WrongGuessEntered]);
}

#[test]
fn rejecting_pads_the_guess() {
    let mut logic = game_with(&["kato"], "kato");
    drain_events(&mut logic);
    type_word(&mut logic, "ka");
    logic.press_key(Key::Delete);
    assert_eq!(logic.n_guesses(), 1);
    assert_eq!(logic.in_progress_guess().len(), 0);
    let row = last_guess(&logic);
    let letters: Vec<char> = row.iter().map(|l| l.letter).collect();
    assert_eq!(letters, chars("KA  "));
    for letter in row {
        assert!(letter.result == LetterResult::Rejected);
    }
    assert_eq!(drain_events(&mut logic), vec![Event::GridChanged, Event::GuessRejected]);
}

#[test]
fn the_game_ends_after_the_last_guess() {
    let mut logic = game_with(&["kato"], "kato");
    for _ in 0..N_GUESSES {
        logic.press_key(Key::Delete);
    }
    assert_eq!(logic.n_guesses(), N_GUESSES);
    assert!(logic.is_finished());
    assert!(!logic.is_solved());
    logic.press_key(Key::Delete);
    assert_eq!(logic.n_guesses(), N_GUESSES);
}

#[test]
fn hints_show_one_more_letter() {
    let mut logic = game_with(&["hundo"], "hundo");
    logic.press_key(Key::PageDown);
    assert_eq!(logic.visible_letters().count_ones(), 2);
    assert_eq!(logic.visible_letters() & 1, 1);
    assert!(logic.visible_letters() < 32);
    logic.press_key(Key::PageDown);
    logic.press_key(Key::PageDown);
    assert_eq!(logic.visible_letters().count_ones(), 4);
    // the last hidden letter is never given away
    logic.press_key(Key::PageDown);
    assert_eq!(logic.visible_letters().count_ones(), 4);
}

#[test]
fn no_hint_while_typing() {
    let mut logic = game_with(&["hundo"], "hundo");
    logic.press_key(Key::Letter('u'));
    logic.press_key(Key::PageDown);
    assert_eq!(logic.visible_letters(), 1);
}

#[test]
fn pages_and_scores() {
    let mut logic = game_with(&["kato"], "kato");
    drain_events(&mut logic);
    logic.press_key(Key::Left);
    assert_eq!(logic.current_page(), Page::Bingo(Team::Left));
    logic.press_key(Key::Left);
    assert_eq!(logic.current_page(), Page::Bingo(Team::Left));
    assert_eq!(drain_events(&mut logic), vec![Event::CurrentPageChanged(Page::Word)]);
    logic.press_key(Key::Up);
    logic.press_key(Key::Up);
    assert_eq!(logic.team_score(Team::Left), 20);
    logic.press_key(Key::Right);
    logic.press_key(Key::Right);
    assert_eq!(logic.current_page(), Page::Bingo(Team::Right));
    logic.press_key(Key::Down);
    assert_eq!(logic.team_score(Team::Right), 0);
    for _ in 0..200 {
        logic.press_key(Key::Up);
    }
    assert_eq!(logic.team_score(Team::Right), MAX_SCORE);
    // typing on a grid page does nothing
    logic.press_key(Key::Letter('k'));
    assert_eq!(logic.in_progress_guess().len(), 0);
    assert_eq!(Page::Bingo(Team::Left).position(), 0);
    assert_eq!(Page::Word.position(), 1);
    assert_eq!(Page::Bingo(Team::Right).position(), 2);
}

#[test]
fn enter_on_a_grid_page_spins_the_tombola() {
    let mut logic = game_with(&["kato"], "kato");
    drain_events(&mut logic);
    logic.press_key(Key::Right);
    logic.press_key(Key::Right);
    assert_eq!(logic.current_page(), Page::Bingo(Team::Right));
    logic.press_key(Key::Enter);
    assert!(logic.spin_clock(Team::Right).is_spinning());
    assert!(!logic.spin_clock(Team::Left).is_spinning());
    assert_eq!(
        drain_events(&mut logic),
        vec![Event::CurrentPageChanged(Page::Word), Event::TombolaStartedSpinning(Team::Right)],
    );
}

#[test]
fn home_picks_a_word_again() {
    let mut logic = game_with(&["kato"], "kato");
    type_word(&mut logic, "ka");
    logic.press_key(Key::Delete);
    logic.press_key(Key::Home);
    assert_eq!(logic.n_guesses(), 0);
    assert_eq!(logic.word(), &chars("KATO")[..]);
    assert_eq!(logic.visible_letters(), 1);
}

#[test]
fn press_key_with_picks_the_chosen_word() {
    let (data, root) = build(&["kato", "hundo"]);
    let codes = vec![code_for(&root, "kato"), code_for(&root, "hundo")];
    let mut logic = Logic::new(Dictionary::new(data), codes);
    logic.press_key_with(Key::Home, 1);
    assert_eq!(logic.word(), &chars("HUNDO")[..]);
    logic.press_key_with(Key::Home, 0);
    assert_eq!(logic.word(), &chars("KATO")[..]);
    logic.press_key_with(Key::PageDown, 0);
    assert_eq!(logic.visible_letters(), 0b11);
    logic.press_key_with(Key::PageDown, 1);
    assert_eq!(logic.visible_letters(), 0b1011);
}

#[test]
fn grids_start_with_a_pattern() {
    let logic = game_with(&["kato"], "kato");
    for team in [Team::Left, Team::Right] {
        let grid = logic.bingo_grid(team);
        let mut covered = 0;
        let mut spaces = grid.spaces();
        while let Some(space) = spaces.next() {
            if space.covered {
                covered += 1;
            }
        }
        assert_eq!(covered, 8);
        assert!(grid.bingo().is_none());
    }
}

#[test]
fn tombola_clock_follows_the_steps() {
    let mut logic = game_with(&["kato"], "kato");
    assert_eq!(logic.step_tombola(Team::Left, 50), 3);
    assert_eq!(logic.step_tombola(Team::Left, 10_000), 0);
    assert_eq!(logic.spin_clock(Team::Left).steps_executed(), 600);
    logic.press_key(Key::Left);
    logic.press_key(Key::Enter);
    assert!(logic.spin_clock(Team::Left).is_spinning());
    let mut state = logic.advance_tombola(Team::Left);
    assert!(state == diveno::game::tombola::SpinState::Turning(0));
    let mut steps = 1;
    while state != diveno::game::tombola::SpinState::Finished {
        state = logic.advance_tombola(Team::Left);
        steps += 1;
    }
    // three turns of two seconds at sixty steps a second
    assert_eq!(steps, 361);
    assert!(!logic.spin_clock(Team::Left).is_spinning());
    assert!(logic.advance_tombola(Team::Left) == diveno::game::tombola::SpinState::Idle);
}

#[test]
fn loader_takes_the_files_in_order() {
    let (data, root) = build(&["kato"]);
    let code = code_for(&root, "kato");
    let mut loader = LogicLoader::new();
    assert_eq!(loader.next_filename(), Some("dictionary.bin"));
    loader.loaded(data);
    assert_eq!(loader.next_filename(), Some("wordlist.bin"));
    loader.loaded(code.to_le_bytes().to_vec());
    assert_eq!(loader.next_filename(), None);
    let logic = loader.complete();
    assert_eq!(logic.word(), &chars("KATO")[..]);
}

#[test]
fn events_are_never_repeated() {
    let mut logic = game_with(&["kato", "kapo"], "kato");
    for _ in 0..3 {
        type_word(&mut logic, "kat");
        logic.press_key(Key::Enter);
        logic.press_key(Key::Space);
        logic.press_key(Key::Backspace);
        logic.press_key(Key::Left);
        logic.press_key(Key::Right);
    }
    let events = drain_events(&mut logic);
    for i in 0..events.len() {
        for j in i + 1..events.len() {
            assert!(events[i] != events[j]);
        }
    }
}

#[test]
fn left_then_right_comes_back() {
    let mut logic = game_with(&["kato"], "kato");
    logic.press_key(Key::Left);
    logic.press_key(Key::Right);
    assert_eq!(logic.current_page(), Page::Word);
    logic.press_key(Key::Right);
    logic.press_key(Key::Left);
    logic.press_key(Key::Right);
    assert_eq!(logic.current_page(), Page::Bingo(Team::Right));
}

#[test]
fn changing_team_twice_gives_the_turn_back() {
    let mut logic = game_with(&["kato"], "kato");
    logic.press_key(Key::Space);
    logic.press_key(Key::Space);
    assert_eq!(logic.current_team(), Team::Left);
}

#[test]
fn tombola_balls_carry_the_grid_numbers() {
    let logic = game_with(&["kato"], "kato");
    let grid = logic.bingo_grid(Team::Left);
    for i in 0..17 {
        assert!(
            logic.ball_type(Team::Left, i)
                == diveno::game::logic::BallType::Number(grid.space(i).ball as u32)
        );
    }
    assert!(logic.ball_type(Team::Left, 17) == diveno::game::logic::BallType::Black);
}

#[test]
fn adding_characters_directly() {
    let mut logic = game_with(&["kato"], "kato");
    logic.add_chars(&chars("AT9"));
    assert_eq!(logic.in_progress_guess(), &chars("KAT")[..]);
    logic.add_chars(&chars("OOO"));
    assert_eq!(logic.in_progress_guess(), &chars("KATO")[..]);
}

#[test]
fn letter_counter_pops_what_was_pushed() {
    let mut counter = LetterCounter::new();
    counter.push('a');
    counter.push('b');
    counter.push('a');
    assert!(counter.pop('a'));
    assert!(counter.pop('b'));
    assert!(!counter.pop('b'));
    assert!(counter.pop('a'));
    assert!(!counter.pop('a'));
    assert!(!counter.pop('c'));
    counter.push('c');
    counter.clear();
    assert!(!counter.pop('c'));
}

#[test]
fn long_words_fit_where_nothing_lands_past_32() {
    // a 36-letter word: code 0 takes the first child at every node
    let long = "abcdefghijklmnoprstuvzabcdefghijklmn";
    assert_eq!(long.chars().count(), 36);
    let (data, _) = build(&[long]);
    let mut logic = Logic::new(Dictionary::new(data), vec![0]);
    assert_eq!(logic.word_length(), 36);
    // a hint may land past position 31, so PageDown is not allowed whatever
    // is drawn; the first hidden position is position 1 and fits
    assert!(!logic.key_allowed_now(Key::PageDown));
    logic.press_key_with(Key::PageDown, 0);
    assert_eq!(logic.visible_letters(), 0b11);
    // a guess that is not a word is refused without touching the visible set
    type_word(&mut logic, "abcdefghijklmnoprstuvzabcdefghijklmm");
    assert!(logic.key_allowed_now(Key::Enter));
    logic.press_key(Key::Enter);
    assert_eq!(logic.n_guesses(), 0);
    // the word itself would put correct letters past position 31
    let mut logic2 = {
        let (data, _) = build(&[long]);
        Logic::new(Dictionary::new(data), vec![0])
    };
    type_word(&mut logic2, long);
    assert!(!logic2.key_allowed_now(Key::Enter));
    // on another page the keys do something else and are allowed
    logic2.press_key(Key::Right);
    assert!(logic2.key_allowed_now(Key::Enter));
    assert!(logic2.key_allowed_now(Key::PageDown));
}
