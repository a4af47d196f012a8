use diveno::game::letter_texture::is_valid_letter;
use diveno::tile_texture::{
    get_texture_size, letter_table, sorted_letters, texture_letters, texture_size_for, tile_letters,
};

#[test]
fn texture_sizes_double_in_turn() {
    assert_eq!(get_texture_size(), (8, 4));
    assert_eq!(texture_size_for(0), (1, 1));
    assert_eq!(texture_size_for(1), (1, 1));
    assert_eq!(texture_size_for(2), (2, 1));
    assert_eq!(texture_size_for(3), (2, 2));
    assert_eq!(texture_size_for(5), (4, 2));
    assert_eq!(texture_size_for(16), (4, 4));
    assert_eq!(texture_size_for(17), (8, 4));
}

#[test]
fn letters_are_sorted_with_their_offsets() {
    let letters = tile_letters();
    assert_eq!(letters.len(), 30);
    for &c in letters.iter() {
        assert!(is_valid_letter(c));
    }
    assert!(!is_valid_letter('Q'));
    assert!(!is_valid_letter('a'));
    let sorted = sorted_letters(&letters);
    assert_eq!(sorted.len(), 30);
    assert_eq!(sorted[0], (35, ' '));
    assert_eq!(sorted[1], (34, '.'));
    assert_eq!(sorted[2], (0, 'A'));
    // Ĉ (U+0108) comes first of the accented letters; it is the fourth of them,
    // after 22 one-byte letters and three two-byte ones
    assert_eq!(sorted[24], (22 + 2 * 3, 'Ĉ'));
    for k in 1..sorted.len() {
        assert!(sorted[k - 1].1 < sorted[k].1);
    }
}

#[test]
fn the_letter_table_maps_tiles_to_the_texture() {
    let letters = tile_letters();
    let sorted = sorted_letters(&letters);
    let (x_tiles, y_tiles) = get_texture_size();
    let table = letter_table(&sorted, x_tiles, y_tiles);
    assert_eq!(table.len(), 30);
    assert_eq!(table[0].ch, ' ');
    assert_eq!((table[0].s1, table[0].t1, table[0].s2, table[0].t2), (0, 0, 8191, 16383));
    assert_eq!(table[9].ch, 'H');
    assert_eq!((table[9].s1, table[9].t1, table[9].s2, table[9].t2), (8191, 16383, 16383, 32767));
    assert_eq!(table[29].ch, 'Ŭ');
    assert_eq!(table[29].t2, 65535);
}

#[test]
fn texture_letters_match_the_table() {
    let letters = texture_letters();
    assert_eq!(letters.len(), 30);
    assert_eq!(letters[0].ch, ' ');
    assert_eq!(letters[1].ch, '.');
    assert_eq!(letters[2].ch, 'A');
    assert_eq!((letters[2].s1, letters[2].t1, letters[2].s2, letters[2].t2), (16383, 0, 24575, 16383));
    for letter in letters.iter() {
        assert!(is_valid_letter(letter.ch));
        assert!(letter.s1 < letter.s2 && letter.t1 < letter.t2);
    }
}
