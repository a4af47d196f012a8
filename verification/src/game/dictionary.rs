use vstd::prelude::*;
use vstd::arithmetic::power2::{pow2, lemma_pow2_adds, lemma_pow2_pos, lemma2_to64, lemma2_to64_rest};
use vstd::bits::lemma_usize_shl_is_mul;
use vstd::slice::slice_subrange;
use vstd::string::StrSliceExecFns;
use vstd::utf8::{valid_utf8, decode_utf8};
use vstd::std_specs::bits::u8_leading_ones;
use super::case;

verus! {

// ---------------------------------------------------------------------------
// The dictionary file is a trie. Each node is written as two offsets, each a
// little-endian base-128 number whose bytes have the top bit set except for
// the last one, followed by the node's letter in UTF-8. The offsets of the
// next sibling and of the first child count from the end of the two offsets;
// an offset of zero means that there is none. A word ends with a node whose
// letter is '\0'.

/// The base-128 number that starts at byte `k` of `data`, as the position just
/// after it and its value, where byte `k` counts `128^k`. There is none when the
/// bytes run out or the number would need more bits than a `usize` has.
pub open spec fn varint_from(data: Seq<u8>, k: int) -> Option<(int, int)>
    decreases data.len() - k,
{
    if k < 0 || k >= data.len() || (k + 1) * 7 > usize::BITS {
        None
    } else {
        let b = data[k];
        let part = (b % 128) * pow2((7 * k) as nat);
        if b < 128 {
            Some((k + 1, part))
        } else {
            match varint_from(data, k + 1) {
                Some((n, v)) => Some((n, part + v)),
                None => None,
            }
        }
    }
}

/// The number at the start of `data`: how many bytes it takes and its value.
pub open spec fn read_offset_spec(data: Seq<u8>) -> Option<(int, int)> {
    varint_from(data, 0)
}

pub proof fn lemma_varint_length(data: Seq<u8>, k: int)
    requires
        varint_from(data, k) is Some,
    ensures
        k + 1 <= (varint_from(data, k)->0).0 <= data.len(),
        (varint_from(data, k)->0).1 >= 0,
    decreases data.len() - k,
{
    if data[k] >= 128 {
        lemma_varint_length(data, k + 1);
    }
}

spec fn add_offset(acc: int, r: Option<(int, int)>) -> Option<(int, int)> {
    match r {
        Some((n, v)) => Some((n, acc + v)),
        None => None,
    }
}

proof fn lemma_usize_max()
    ensures
        usize::MAX + 1 == pow2(usize::BITS as nat),
{
    lemma2_to64();
    lemma2_to64_rest();
}

fn read_offset(data: &[u8]) -> (r: Option<(&[u8], usize)>)
    ensures
        match read_offset_spec(data@) {
            None => r is None,
            Some((n, v)) => r matches Some((rest, offset)) && rest@ == data@.skip(n) && offset == v,
        },
{
    let mut offset: usize = 0;
    let mut byte_num: usize = 0;
    proof {
        lemma2_to64();
    }
    while byte_num < data.len()
        invariant
            byte_num <= data@.len(),
            byte_num * 7 <= usize::BITS,
            offset < pow2((7 * byte_num) as nat),
            read_offset_spec(data@) == add_offset(offset as int, varint_from(data@, byte_num as int)),
        decreases data@.len() - byte_num,
    {
        if (byte_num + 1) * 7 > usize::BITS as usize {
            return None;
        }
        let byte = data[byte_num];
        let low = (byte & 0x7f) as usize;
        proof {
            assert(byte & 0x7f == byte % 128 && (byte & 0x80 == 0 <==> byte < 128)) by (bit_vector);
            let s = (7 * byte_num) as nat;
            lemma_pow2_pos(s);
            lemma_pow2_adds(s, 7);
            lemma_usize_max();
            vstd::arithmetic::power2::lemma_pow2_strictly_increases(s + 7, usize::BITS as nat);
            assert(pow2(7) == 128) by {
                lemma2_to64();
            }
            assert(low * pow2(s) <= 127 * pow2(s)) by (nonlinear_arith)
                requires
                    low <= 127,
            ;
            if s + 7 < usize::BITS {
                vstd::arithmetic::power2::lemma_pow2_strictly_increases(s + 7, usize::BITS as nat);
            }
            assert(low * pow2(s) <= usize::MAX);
            lemma_usize_shl_is_mul(low, (byte_num * 7) as usize);
        }
        let part = low << (byte_num * 7);
        offset = offset + part;
        if byte & 0x80 == 0 {
            return Some((slice_subrange(data, byte_num + 1, data.len()), offset));
        }
        byte_num = byte_num + 1;
    }
    None
}

/// A node of the trie as a mathematical value: `remainder` is what follows the
/// two offsets, so it starts with the letter's bytes.
pub struct NodeSpec {
    pub sibling_offset: int,
    pub child_offset: int,
    pub letter: char,
    pub remainder: Seq<u8>,
}

/// How many bytes the letter's encoding takes, judging by its first byte.
pub open spec fn utf8_width(first: u8) -> int {
    if u8_leading_ones(first) >= 1 {
        u8_leading_ones(first) as int
    } else {
        1
    }
}

/// The node at the start of `data`, if it is well formed.
pub open spec fn node_spec(data: Seq<u8>) -> Option<NodeSpec> {
    match read_offset_spec(data) {
        None => None,
        Some((n1, sibling_offset)) => {
            let d1 = data.skip(n1);
            match read_offset_spec(d1) {
                None => None,
                Some((n2, child_offset)) => {
                    let d2 = d1.skip(n2);
                    if d2.len() == 0 {
                        None
                    } else {
                        let width = utf8_width(d2[0]);
                        if width > d2.len() || !valid_utf8(d2.take(width)) {
                            None
                        } else {
                            Some(
                                NodeSpec {
                                    sibling_offset,
                                    child_offset,
                                    letter: decode_utf8(d2.take(width))[0],
                                    remainder: d2,
                                },
                            )
                        }
                    }
                }
            }
        }
    }
}

/// A node's remainder is at least two bytes shorter than the node's data.
pub proof fn lemma_node_shrinks(data: Seq<u8>)
    requires
        node_spec(data) is Some,
    ensures
        node_spec(data)->0.remainder.len() + 2 <= data.len(),
        node_spec(data)->0.sibling_offset >= 0,
        node_spec(data)->0.child_offset >= 0,
{
    lemma_varint_length(data, 0);
    let n1 = (read_offset_spec(data)->0).0;
    lemma_varint_length(data.skip(n1), 0);
}

pub struct Node<'a> {
    pub sibling_offset: usize,
    pub child_offset: usize,
    pub letter: char,
    pub remainder: &'a [u8],
}

/// Decodes `bytes` with `std::str::from_utf8`.
///
/// Trusted: std documents that it succeeds exactly when the bytes are valid
/// UTF-8 and then gives their characters; that is stated with vstd's model of
/// UTF-8 (`valid_utf8`, `decode_utf8`).
#[verifier::external_body]
fn str_from_utf8(bytes: &[u8]) -> (r: Option<&str>)
    ensures
        r is Some <==> valid_utf8(bytes@),
        r matches Some(s) ==> s@ == decode_utf8(bytes@),
{
    std::str::from_utf8(bytes).ok()
}

impl<'a> Node<'a> {
    /// Reads the node at the start of `data`.
    pub fn extract(data: &'a [u8]) -> (r: Option<Node<'a>>)
        ensures
            match node_spec(data@) {
                None => r is None,
                Some(n) => r matches Some(node) && node.sibling_offset == n.sibling_offset
                    && node.child_offset == n.child_offset && node.letter == n.letter
                    && node.remainder@ == n.remainder,
            },
    {
        let (data1, sibling_offset) = match read_offset(data) {
            Some(r) => r,
            None => return None,
        };
        let (data2, child_offset) = match read_offset(data1) {
            Some(r) => r,
            None => return None,
        };
        if data2.len() == 0 {
            return None;
        }
        let first = data2[0];
        let ones = first.leading_ones() as usize;
        let utf8_len = if ones >= 1 { ones } else { 1 };
        if utf8_len > data2.len() {
            return None;
        }
        let bytes = slice_subrange(data2, 0, utf8_len);
        let letter = match str_from_utf8(bytes) {
            Some(s) => s,
            None => return None,
        };
        proof {
            assert(bytes@ == data2@.take(utf8_len as int));
            // a non-empty valid encoding decodes to at least one character
            reveal_with_fuel(decode_utf8, 2);
            assert(decode_utf8(bytes@).len() >= 1);
        }
        Some(Node { sibling_offset, child_offset, letter: letter.get_char(0), remainder: data2 })
    }
}

/// The trie starting at `data` holds the word spelt by `letters`, walking
/// siblings until the letter matches and then descending to the children;
/// the end of the word is a '\0' node. A malformed trie holds nothing more.
pub open spec fn trie_holds(data: Seq<u8>, letters: Seq<char>) -> bool
    decreases data.len(),
{
    match node_spec(data) {
        None => false,
        Some(node) => {
            proof {
                lemma_node_shrinks(data);
            }
            let target = if letters.len() > 0 { letters[0] } else { '\0' };
            if node.letter == target {
                if letters.len() == 0 {
                    true
                } else if node.child_offset == 0 || node.child_offset > node.remainder.len() {
                    false
                } else {
                    trie_holds(node.remainder.skip(node.child_offset), letters.drop_first())
                }
            } else if node.sibling_offset == 0 || node.sibling_offset > node.remainder.len() {
                false
            } else {
                trie_holds(node.remainder.skip(node.sibling_offset), letters)
            }
        }
    }
}

/// The lowercase form of a word, letter by letter.
pub open spec fn lowercase_all(word: Seq<char>) -> Seq<char>
    decreases word.len(),
{
    if word.len() == 0 {
        seq![]
    } else {
        lowercase_all(word.drop_last()) + case::lowercase_of(word.last())
    }
}

/// The data under the root node of the dictionary, where the words start.
pub open spec fn words_start(data: Seq<u8>) -> Option<Seq<u8>> {
    match node_spec(data) {
        None => None,
        Some(root) => if root.child_offset == 0 || root.child_offset > root.remainder.len() {
            None
        } else {
            Some(root.remainder.skip(root.child_offset))
        },
    }
}

/// Lowercasing a word replaces every character, ASCII or not, by its Unicode
/// lowercase mapping, in order; so the dictionary holds a word exactly when
/// it holds that concatenation.
pub proof fn lemma_lowercase_every_letter(data: Seq<u8>, word: Seq<char>)
    ensures
        lowercase_all(word) == word.map_values(|c: char| case::lowercase_of(c)).flatten(),
        dictionary_contains(data, word) == dictionary_holds(
            data,
            word.map_values(|c: char| case::lowercase_of(c)).flatten(),
        ),
{
    lemma_lowercase_all_flat(word);
    word.map_values(|c: char| case::lowercase_of(c)).lemma_flatten_and_flatten_alt_are_equivalent();
}

proof fn lemma_lowercase_all_flat(word: Seq<char>)
    ensures
        lowercase_all(word) == word.map_values(|c: char| case::lowercase_of(c)).flatten_alt(),
    decreases word.len(),
{
    if word.len() > 0 {
        lemma_lowercase_all_flat(word.drop_last());
        let m = word.map_values(|c: char| case::lowercase_of(c));
        assert(m.drop_last() =~= word.drop_last().map_values(|c: char| case::lowercase_of(c)));
        assert(m.last() == case::lowercase_of(word.last()));
    } else {
        assert(word.map_values(|c: char| case::lowercase_of(c)) =~= Seq::<Seq<char>>::empty());
    }
}

/// A code's lowest five bits choose the letter: writing the code as
/// `k + 32 * c` with `k < 32`, the first letter is that of the node `k`
/// siblings on, and the rest of the word is what `c` decodes from that
/// node's children.
pub proof fn lemma_decode_low_bits_choose(data: Seq<u8>, k: u64, c: u64)
    requires
        k < 32,
        k + 32 * c <= u64::MAX,
    ensures
        decode_choices(data, (k + 32 * c) as u64) == match skip_siblings(data, k as int) {
            None => (seq![], false),
            Some(d) => match node_spec(d) {
                None => (seq![], false),
                Some(node) => if node.letter == '\0' {
                    (seq![], true)
                } else if node.child_offset == 0 || node.child_offset > node.remainder.len() {
                    (seq![node.letter], false)
                } else {
                    let rest = decode_choices(node.remainder.skip(node.child_offset), c);
                    (seq![node.letter] + rest.0, rest.1)
                },
            },
        },
{
    let code = (k + 32 * c) as u64;
    assert(code % 32 == k && code / 32 == c) by (nonlinear_arith)
        requires
            code == k + 32 * c,
            k < 32,
    ;
}

/// The trie of the dictionary holds exactly these letters as a word.
pub open spec fn dictionary_holds(data: Seq<u8>, letters: Seq<char>) -> bool {
    match words_start(data) {
        None => false,
        Some(start) => trie_holds(start, letters),
    }
}

/// The dictionary holds the word, compared in lowercase.
pub open spec fn dictionary_contains(data: Seq<u8>, word: Seq<char>) -> bool {
    dictionary_holds(data, lowercase_all(word))
}

/// Skips `n` siblings from the node at the start of `data`.
pub open spec fn skip_siblings(data: Seq<u8>, n: int) -> Option<Seq<u8>>
    decreases n,
{
    if n <= 0 {
        Some(data)
    } else {
        match node_spec(data) {
            None => None,
            Some(node) => if node.sibling_offset == 0 || node.sibling_offset
                > node.remainder.len() {
                None
            } else {
                skip_siblings(node.remainder.skip(node.sibling_offset), n - 1)
            },
        }
    }
}

pub proof fn lemma_skip_siblings_shrinks(data: Seq<u8>, n: int)
    requires
        skip_siblings(data, n) is Some,
    ensures
        skip_siblings(data, n)->0.len() <= data.len(),
    decreases n,
{
    if n > 0 {
        lemma_node_shrinks(data);
        let node = node_spec(data)->0;
        lemma_skip_siblings_shrinks(node.remainder.skip(node.sibling_offset), n - 1);
    }
}

/// Number of bits of a word code that choose among siblings at each letter.
pub const BITS_PER_CHOICE: u32 = 5;

/// The letters that a word code spells from `data` on: each group of five
/// bits, lowest first, says how many siblings to skip before taking a letter.
/// The flag says whether a '\0' node was reached; the letters read before a
/// failure are kept.
pub open spec fn decode_choices(data: Seq<u8>, code: u64) -> (Seq<char>, bool)
    decreases data.len(),
{
    match skip_siblings(data, (code % 32) as int) {
        None => (seq![], false),
        Some(d) => {
            proof {
                lemma_skip_siblings_shrinks(data, (code % 32) as int);
            }
            match node_spec(d) {
                None => (seq![], false),
                Some(node) => {
                    proof {
                        lemma_node_shrinks(d);
                    }
                    if node.letter == '\0' {
                        (seq![], true)
                    } else if node.child_offset == 0 || node.child_offset > node.remainder.len() {
                        (seq![node.letter], false)
                    } else {
                        let rest = decode_choices(node.remainder.skip(node.child_offset), code / 32);
                        (seq![node.letter] + rest.0, rest.1)
                    }
                }
            }
        }
    }
}

/// The word with the given code, if the code leads to the end of a word.
pub open spec fn dictionary_word(data: Seq<u8>, code: u64) -> Option<Seq<char>> {
    match words_start(data) {
        None => None,
        Some(start) => {
            let (letters, ok) = decode_choices(start, code);
            if ok {
                Some(letters)
            } else {
                None
            }
        }
    }
}

/// Lowercases each letter of the word.
pub fn lowercase_word(word: &[char]) -> (r: Vec<char>)
    ensures
        r@ == lowercase_all(word@),
{
    let mut r: Vec<char> = Vec::new();
    let mut i: usize = 0;
    while i < word.len()
        invariant
            i <= word@.len(),
            r@ == lowercase_all(word@.take(i as int)),
        decreases word@.len() - i,
    {
        let lower = case::to_lowercase(word[i]);
        let mut j: usize = 0;
        let ghost before = r@;
        while j < lower.len()
            invariant
                j <= lower@.len(),
                r@ == before + lower@.take(j as int),
            decreases lower@.len() - j,
        {
            r.push(lower[j]);
            j = j + 1;
            proof {
                assert(lower@.take(j as int) == lower@.take(j - 1).push(lower@[j - 1]));
            }
        }
        proof {
            assert(word@.take(i + 1).drop_last() == word@.take(i as int));
            assert(lower@.take(j as int) == lower@);
        }
        i = i + 1;
    }
    assert(word@.take(word@.len() as int) == word@);
    r
}

/// The dictionary of words a guess may be, as read from its file.
pub struct Dictionary {
    data: Vec<u8>,
}

impl View for Dictionary {
    type V = Seq<u8>;

    closed spec fn view(&self) -> Seq<u8> {
        self.data@
    }
}

impl Dictionary {
    pub fn new(data: Vec<u8>) -> (d: Dictionary)
        ensures
            d@ == data@,
    {
        Dictionary { data }
    }

    /// The data under the root node, where the words start.
    fn words(&self) -> (r: Option<&[u8]>)
        ensures
            match words_start(self@) {
                None => r is None,
                Some(start) => r matches Some(s) && s@ == start,
            },
    {
        let root = match Node::extract(self.data.as_slice()) {
            Some(n) => n,
            None => return None,
        };
        if root.child_offset == 0 || root.child_offset > root.remainder.len() {
            return None;
        }
        Some(slice_subrange(root.remainder, root.child_offset, root.remainder.len()))
    }

    /// Whether the dictionary holds the word, compared in lowercase.
    pub fn contains(&self, word: &[char]) -> (r: bool)
        ensures
            r == dictionary_contains(self@, word@),
    {
        let letters = lowercase_word(word);
        self.holds(letters.as_slice())
    }

    /// Whether the trie holds exactly these letters as a word.
    pub fn holds(&self, letters: &[char]) -> (r: bool)
        ensures
            r == dictionary_holds(self@, letters@),
    {
        let mut data = match self.words() {
            Some(d) => d,
            None => return false,
        };
        let mut pos: usize = 0;
        assert(letters@.skip(0) == letters@);
        loop
            invariant
                pos <= letters@.len(),
                trie_holds(data@, letters@.skip(pos as int)) == dictionary_holds(self@, letters@),
            decreases data@.len(),
        {
            proof {
                reveal_with_fuel(trie_holds, 1);
            }
            let node = match Node::extract(data) {
                Some(n) => n,
                None => return false,
            };
            proof {
                lemma_node_shrinks(data@);
            }
            let matches = if pos < letters.len() {
                node.letter == letters[pos]
            } else {
                node.letter == '\0'
            };
            if matches {
                if pos >= letters.len() {
                    return true;
                }
                if node.child_offset == 0 || node.child_offset > node.remainder.len() {
                    return false;
                }
                proof {
                    assert(letters@.skip(pos as int).drop_first() == letters@.skip(pos + 1));
                }
                data = slice_subrange(node.remainder, node.child_offset, node.remainder.len());
                pos = pos + 1;
            } else {
                if node.sibling_offset == 0 || node.sibling_offset > node.remainder.len() {
                    return false;
                }
                data = slice_subrange(node.remainder, node.sibling_offset, node.remainder.len());
            }
        }
    }

    /// The word that the code stands for, if it leads to the end of a word.
    pub fn extract_word(&self, code: u64) -> (r: Option<Vec<char>>)
        ensures
            match dictionary_word(self@, code) {
                None => r is None,
                Some(w) => r matches Some(v) && v@ == w,
            },
    {
        let data = match self.words() {
            Some(d) => d,
            None => return None,
        };
        let mut buf: Vec<char> = Vec::new();
        if decode_word(&mut buf, data, code) {
            Some(buf)
        } else {
            None
        }
    }
}

/// Appends to `buf` the letters that `code` spells from `words` on and says
/// whether the code reached the end of a word.
pub fn decode_word(buf: &mut Vec<char>, words: &[u8], code: u64) -> (ok: bool)
    ensures
        final(buf)@ == old(buf)@ + decode_choices(words@, code).0,
        ok == decode_choices(words@, code).1,
{
    let ghost start = buf@;
    let ghost whole = decode_choices(words@, code);
    let mut data = words;
    let mut word = code;
    loop
        invariant
            start == old(buf)@,
            whole == decode_choices(words@, code),
            buf@ + decode_choices(data@, word).0 == start + whole.0,
            decode_choices(data@, word).1 == whole.1,
        decreases data@.len(),
    {
        let to_skip = word & 31;
        let ghost outer = data@;
        let ghost outer_word = word;
        assert(word & 31 == word % 32 && word >> 5u64 == word / 32) by (bit_vector);
        word = word >> 5;
        let mut skipped: u64 = 0;
        while skipped < to_skip
            invariant
                skipped <= to_skip,
                to_skip == outer_word % 32,
                word == outer_word / 32,
                start == old(buf)@,
                whole == decode_choices(words@, code),
                buf@ + decode_choices(outer, outer_word).0 == start + whole.0,
                decode_choices(outer, outer_word).1 == whole.1,
                skip_siblings(data@, (to_skip - skipped) as int) == skip_siblings(outer, to_skip as int),
                data@.len() <= outer.len(),
            decreases to_skip - skipped,
        {
            let node = match Node::extract(data) {
                Some(n) => n,
                None => {
                    proof {
                        assert(skip_siblings(data@, (to_skip - skipped) as int) is None);
                        assert(skip_siblings(outer, (outer_word % 32) as int) is None);
                        assert(decode_choices(outer, outer_word).1 == false);
                        assert(decode_choices(outer, outer_word).0 == Seq::<char>::empty());
                        assert(buf@ + Seq::<char>::empty() =~= buf@);
                    }
                    return false;
                },
            };
            proof {
                lemma_node_shrinks(data@);
            }
            if node.sibling_offset == 0 || node.sibling_offset > node.remainder.len() {
                proof {
                    assert(buf@ + Seq::<char>::empty() =~= buf@);
                }
                return false;
            }
            data = slice_subrange(node.remainder, node.sibling_offset, node.remainder.len());
            skipped = skipped + 1;
        }
        assert(skip_siblings(outer, to_skip as int) == Some(data@));
        let node = match Node::extract(data) {
            Some(n) => n,
            None => {
                proof {
                    assert(buf@ + Seq::<char>::empty() =~= buf@);
                }
                return false;
            },
        };
        proof {
            lemma_node_shrinks(data@);
        }
        if node.letter == '\0' {
            proof {
                assert(buf@ + seq![] == buf@);
            }
            return true;
        }
        let ghost prev = buf@;
        buf.push(node.letter);
        if node.child_offset == 0 || node.child_offset > node.remainder.len() {
            proof {
                assert(prev + seq![node.letter] =~= buf@);
            }
            return false;
        }
        let ghost before = buf@;
        data = slice_subrange(node.remainder, node.child_offset, node.remainder.len());
        proof {
            assert(before.drop_last() + (seq![node.letter] + decode_choices(data@, word).0) =~= before
                + decode_choices(data@, word).0);
        }
    }
}

} // verus!
