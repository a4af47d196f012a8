use diveno::game::dictionary::Dictionary;
use diveno::game::logic::{Event, Key, Logic};
use diveno::game::sound_queue::{Sound, SoundQueue};
use diveno::game::timing::MILLIS_PER_LETTER;

#[test]
fn sounds_come_out_in_time_order() {
    let mut queue = SoundQueue::new();
    assert!(queue.next_ready_sound(0).is_none());
    assert!(queue.next_delay(0).is_none());
    queue.queue_sound(Sound::WrongLetter, 100, 50);
    queue.queue_sound(Sound::CorrectLetter, 100, 10);
    assert_eq!(queue.next_delay(100), Some(10));
    assert_eq!(queue.next_delay(200), Some(0));
    assert!(queue.next_ready_sound(105).is_none());
    assert!(queue.next_ready_sound(110) == Some(Sound::CorrectLetter));
    assert!(queue.next_ready_sound(110).is_none());
    assert!(queue.next_ready_sound(150) == Some(Sound::WrongLetter));
    assert!(queue.next_ready_sound(1000).is_none());
}

#[test]
fn higher_sounds_go_first_at_the_same_time() {
    let mut queue = SoundQueue::new();
    queue.queue_sound(Sound::CorrectLetter, 0, 0);
    queue.queue_sound(Sound::Solved, 0, 0);
    queue.queue_sound(Sound::BadWord, 0, 0);
    assert!(queue.next_ready_sound(0) == Some(Sound::Solved));
    assert!(queue.next_ready_sound(0) == Some(Sound::BadWord));
    assert!(queue.next_ready_sound(0) == Some(Sound::CorrectLetter));
    assert!(queue.next_ready_sound(0).is_none());
}

fn dictionary_kato_kota() -> Vec<u8> {
    // root '\0' with children k -> { a -> t -> o -> '\0', o -> t -> a -> '\0' }
    vec![
        0, 1, 0, // root
        0, 1, b'k', //
        10, 1, b'a', 0, 1, b't', 0, 1, b'o', 0, 0, 0, //
        0, 1, b'o', 0, 1, b't', 0, 1, b'a', 0, 0, 0,
    ]
}

#[test]
fn a_guess_plays_one_sound_per_letter() {
    let mut logic = Logic::new(Dictionary::new(dictionary_kato_kota()), vec![0]);
    assert_eq!(logic.word_length(), 4);
    for c in "kota".chars() {
        logic.press_key(Key::Letter(c));
    }
    logic.press_key(Key::Enter);
    let mut queue = SoundQueue::new();
    queue.handle_logic_event(&logic, Event::GuessEntered, 1000);
    assert!(queue.next_ready_sound(1000) == Some(Sound::CorrectLetter));
    assert!(queue.next_ready_sound(1000 + MILLIS_PER_LETTER) == Some(Sound::WrongPosition));
    assert!(queue.next_ready_sound(1000 + 2 * MILLIS_PER_LETTER) == Some(Sound::CorrectLetter));
    assert!(queue.next_ready_sound(1000 + 3 * MILLIS_PER_LETTER) == Some(Sound::WrongPosition));
    assert!(queue.next_ready_sound(10_000).is_none());

    queue.handle_logic_event(&logic, Event::WrongGuessEntered, 20);
    queue.handle_logic_event(&logic, Event::Solved, 20);
    queue.handle_logic_event(&logic, Event::GridChanged, 20);
    assert!(queue.next_ready_sound(20) == Some(Sound::BadWord));
    assert_eq!(queue.next_delay(20), Some(4 * MILLIS_PER_LETTER));
    assert!(queue.next_ready_sound(20 + 4 * MILLIS_PER_LETTER) == Some(Sound::Solved));
}
