use diveno::game::random::{random_range, shuffle, shuffle_with};
use diveno::game::tombola::{SpinClock, SpinState};
use diveno::logic::{Event, Logic};

#[test]
fn random_numbers_stay_below_the_bound() {
    for max in 1..50 {
        assert!(random_range(max) < max);
    }
}

#[test]
fn shuffling_keeps_the_items() {
    let mut items: Vec<u32> = (0..40).collect();
    shuffle(&mut items);
    let mut sorted = items.clone();
    sorted.sort();
    assert_eq!(sorted, (0..40).collect::<Vec<u32>>());
}

#[test]
fn spin_clock_catches_up() {
    let mut clock = SpinClock::new();
    assert_eq!(clock.catch_up(0), 0);
    assert_eq!(clock.catch_up(34), 2);
    assert_eq!(clock.steps_executed(), 0);
    assert!(clock.step() == SpinState::Idle);
    assert_eq!(clock.steps_executed(), 1);
    // far behind: jump
    assert_eq!(clock.catch_up(1000), 0);
    assert_eq!(clock.steps_executed(), 60);
    // ahead: jump back
    assert_eq!(clock.catch_up(500), 0);
    assert_eq!(clock.steps_executed(), 30);
    clock.start_spin();
    assert!(clock.is_spinning());
    assert!(clock.step() == SpinState::Turning(0));
    clock.start_spin();
    assert!(clock.step() == SpinState::Turning(1));
}

#[test]
fn guess_is_read_in_the_x_system() {
    let mut logic = Logic::new();
    assert_eq!(logic.word_length(), 6);
    assert_eq!(logic.in_progress_guess(), &['P'][..]);
    assert!(logic.get_event() == Some(Event::GridChanged));
    assert!(logic.get_event().is_none());
    let guess: Vec<char> = "cxapelo".chars().collect();
    logic.set_in_progress_guess(&guess);
    let expected: Vec<char> = "PĈAPEL".chars().collect();
    assert_eq!(logic.in_progress_guess(), &expected[..]);
    assert!(logic.get_event() == Some(Event::GridChanged));
    // a repeated first letter is not typed twice
    let guess: Vec<char> = "potato".chars().collect();
    logic.set_in_progress_guess(&guess);
    let expected: Vec<char> = "POTATO".chars().collect();
    assert_eq!(logic.in_progress_guess(), &expected[..]);
    let guess: Vec<char> = "ppo".chars().collect();
    logic.set_in_progress_guess(&guess);
    let expected: Vec<char> = "PO".chars().collect();
    assert_eq!(logic.in_progress_guess(), &expected[..]);
}

#[test]
fn shuffling_with_draws() {
    let mut items = [1, 2, 3];
    shuffle_with(&mut items, &[0, 0]);
    assert_eq!(items, [2, 3, 1]);
    let mut items = [1, 2, 3, 4];
    shuffle_with(&mut items, &[3, 2, 1]);
    assert_eq!(items, [1, 2, 3, 4]);
    let mut items = [7];
    shuffle_with(&mut items, &[]);
    assert_eq!(items, [7]);
}

#[test]
fn filling_the_guess_from_letters() {
    let mut logic = Logic::new();
    let letters: Vec<char> = "PXTAT".chars().collect();
    logic.fill_in_progress_guess(&letters);
    let expected: Vec<char> = "PTAT".chars().collect();
    assert_eq!(logic.in_progress_guess(), &expected[..]);
}
