use diveno::game::dictionary::{decode_word, Dictionary};
use diveno::word_list::{append_word, compress_letters, compress_word, encode_words, CompressError};

fn kato_kota() -> Vec<u8> {
    vec![
        0, 1, 0, // root
        0, 1, b'k', //
        10, 1, b'a', 0, 1, b't', 0, 1, b'o', 0, 0, 0, //
        0, 1, b'o', 0, 1, b't', 0, 1, b'a', 0, 0, 0,
    ]
}

fn chars(s: &str) -> Vec<char> {
    s.chars().collect()
}

#[test]
fn dictionary_holds_its_words() {
    let dictionary = Dictionary::new(kato_kota());
    assert!(dictionary.contains(&chars("kato")));
    assert!(dictionary.contains(&chars("KOTA")));
    assert!(!dictionary.contains(&chars("kat")));
    assert!(!dictionary.contains(&chars("katoj")));
    assert!(!dictionary.contains(&chars("hundo")));
    assert!(!Dictionary::new(Vec::new()).contains(&chars("kato")));
}

#[test]
fn word_codes_pick_siblings() {
    let dictionary = Dictionary::new(kato_kota());
    assert_eq!(dictionary.extract_word(0), Some(chars("kato")));
    // skip one sibling at the second letter
    assert_eq!(dictionary.extract_word(1 << 5), Some(chars("kota")));
    // there is no second sibling to skip to
    assert_eq!(dictionary.extract_word(2 << 5), None);
    let mut buf = chars("x");
    assert!(decode_word(&mut buf, &kato_kota()[3..], 1 << 5));
    assert_eq!(buf, chars("xkota"));
}

#[test]
fn compressing_words() {
    let data = kato_kota();
    // k: down (bit 0 set), a: down (bit 1), t: down, o: down, end: bit 4
    assert_eq!(compress_word(&data, &chars("kato")), Ok(0b11111));
    // k down, skip a (bit 1 clear), o down, t down, a down, end
    assert_eq!(compress_word(&data, &chars("KOTA")), Ok(0b111101));
    assert_eq!(compress_word(&data, &chars("hundo")), Err(CompressError::NotInDictionary));
    assert_eq!(compress_word(&data, &chars("kat")), Err(CompressError::NotInDictionary));
    assert_eq!(compress_word(&[], &chars("kato")), Err(CompressError::DictionaryCorrupt));
    assert_eq!(CompressError::TooManyBits.message(), "Too many bits");
    assert_eq!(CompressError::NotInDictionary.message(), "Not in dictionary");
    assert_eq!(CompressError::DictionaryCorrupt.message(), "Dictionary corrupt");
}

#[test]
fn word_list_files_are_little_endian() {
    assert_eq!(encode_words(&[0x0403_0201, 0xff]), vec![1, 2, 3, 4, 0xff, 0, 0, 0]);
    assert_eq!(encode_words(&[]), Vec::<u8>::new());
}

#[test]
fn dumping_word_codes() {
    let data = kato_kota();
    let mut buf = Vec::new();
    assert!(append_word(&mut buf, &data, 1 << 5));
    assert_eq!(buf, chars("kota"));
    let mut buf = chars("x");
    assert!(!append_word(&mut buf, &data, 3 << 5));
    assert_eq!(buf, chars("xk"));
    let mut buf = Vec::new();
    assert!(!append_word(&mut buf, &[], 0));
    assert!(buf.is_empty());
}

fn varint(mut value: usize, out: &mut Vec<u8>) {
    loop {
        let byte = (value & 0x7f) as u8;
        value >>= 7;
        if value == 0 {
            out.push(byte);
            break;
        }
        out.push(byte | 0x80);
    }
}

/// A dictionary of one-letter words, one for each of the letters.
fn one_letter_words(letters: &[char]) -> Vec<u8> {
    let mut out = vec![0, 1, 0];
    for (i, &letter) in letters.iter().enumerate() {
        let last = i + 1 == letters.len();
        // each node: the letter, then its '\0' child
        varint(if last { 0 } else { 4 }, &mut out);
        varint(1, &mut out);
        out.push(letter as u8);
        out.extend_from_slice(&[0, 0, 0]);
    }
    out
}

#[test]
fn too_many_choices_do_not_fit_a_code() {
    let letters: Vec<char> = (b'A'..=b'Z').chain(b'a'..=b'j').map(|b| b as char).collect();
    assert_eq!(letters.len(), 36);
    let data = one_letter_words(&letters);
    // the word after 30 siblings still fits: two bits set at the top
    assert_eq!(compress_word(&data, &['e']), Ok(0xc000_0000));
    assert_eq!(compress_word(&data, &['f']), Err(CompressError::TooManyBits));
}

#[test]
fn exact_letters() {
    let data = kato_kota();
    assert!(Dictionary::new(data.clone()).holds(&chars("kato")));
    assert!(!Dictionary::new(data.clone()).holds(&chars("KATO")));
    assert_eq!(compress_letters(&data, &chars("kota")), Ok(0b111101));
    assert_eq!(compress_letters(&data, &chars("KOTA")), Err(CompressError::NotInDictionary));
    let code = compress_letters(&data, &chars("kota")).unwrap();
    assert_eq!(code.count_ones(), 5);
}

#[test]
fn lowercasing_first_changes_nothing() {
    let data = kato_kota();
    assert_eq!(compress_word(&data, &chars("KoTa")), compress_word(&data, &chars("kota")));
    assert_eq!(compress_word(&data, &chars("KOTA")), Ok(0b111101));
    assert_eq!(compress_word(&data, &chars("KATOJ")), compress_word(&data, &chars("katoj")));
}
