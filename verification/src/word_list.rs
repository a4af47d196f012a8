use vstd::prelude::*;
use vstd::slice::slice_subrange;
use crate::game::bingo_grid::{
    count_bits,
    is_set,
    lemma_bit_empty,
    lemma_bit_or,
    lemma_count_bits_add,
    lemma_count_bits_positive,
};
use crate::game::dictionary::{
    Node,
    NodeSpec,
    decode_choices,
    decode_word,
    lemma_node_shrinks,
    lowercase_all,
    lowercase_word,
    node_spec,
};

verus! {

/// Why a word could not be turned into a code.
#[derive(PartialEq, Eq, Structural, Copy, Clone, Debug)]
pub enum CompressError {
    TooManyBits,
    NotInDictionary,
    DictionaryCorrupt,
}

impl CompressError {
    /// The message that describes the error.
    pub fn message(&self) -> (r: &'static str)
        ensures
            r@ == match *self {
                CompressError::TooManyBits => "Too many bits"@,
                CompressError::NotInDictionary => "Not in dictionary"@,
                CompressError::DictionaryCorrupt => "Dictionary corrupt"@,
            },
    {
        match self {
            CompressError::TooManyBits => "Too many bits",
            CompressError::NotInDictionary => "Not in dictionary",
            CompressError::DictionaryCorrupt => "Dictionary corrupt",
        }
    }
}

/// The code of the word spelt by `letters` in the trie at `data`, carrying on
/// from `n` choices already made and recorded in `choices`. Each node that is
/// passed over is one choice: a sibling step leaves its bit clear, a step down
/// to the children sets it, and reaching the end of the word sets one last bit.
pub open spec fn compress_from(data: Seq<u8>, letters: Seq<char>, n: nat, choices: u32) -> Result<
    u32,
    CompressError,
>
    decreases data.len(),
{
    match node_spec(data) {
        None => Err(CompressError::DictionaryCorrupt),
        Some(node) => {
            proof {
                lemma_node_shrinks(data);
            }
            let target = if letters.len() > 0 {
                letters[0]
            } else {
                '\0'
            };
            if node.letter == target {
                if letters.len() == 0 {
                    if n >= 32 {
                        Err(CompressError::TooManyBits)
                    } else {
                        Ok(choices | (1u32 << (n as u32)))
                    }
                } else if node.child_offset == 0 {
                    Err(CompressError::NotInDictionary)
                } else if n >= 32 {
                    Err(CompressError::TooManyBits)
                } else if node.child_offset > node.remainder.len() {
                    Err(CompressError::DictionaryCorrupt)
                } else {
                    compress_from(
                        node.remainder.skip(node.child_offset),
                        letters.drop_first(),
                        n + 1,
                        choices | (1u32 << (n as u32)),
                    )
                }
            } else if node.sibling_offset == 0 {
                Err(CompressError::NotInDictionary)
            } else if n >= 32 {
                Err(CompressError::TooManyBits)
            } else if node.sibling_offset > node.remainder.len() {
                Err(CompressError::DictionaryCorrupt)
            } else {
                compress_from(node.remainder.skip(node.sibling_offset), letters, n + 1, choices)
            }
        },
    }
}

/// The root node of the dictionary, when it leads to the words at all.
pub open spec fn root_of(dictionary: Seq<u8>) -> Option<NodeSpec> {
    match node_spec(dictionary) {
        Some(root) => if root.child_offset == 0 {
            None
        } else {
            Some(root)
        },
        None => None,
    }
}

/// The code of the word spelt by exactly these letters in the dictionary.
pub open spec fn compress_letters_spec(dictionary: Seq<u8>, letters: Seq<char>) -> Result<
    u32,
    CompressError,
> {
    match root_of(dictionary) {
        None => Err(CompressError::DictionaryCorrupt),
        Some(root) => compress_from(root.remainder.skip(root.child_offset), letters, 0, 0),
    }
}

/// The code of the word in the dictionary, compared in lowercase.
pub open spec fn compress_spec(dictionary: Seq<u8>, word: Seq<char>) -> Result<u32, CompressError> {
    compress_letters_spec(dictionary, lowercase_all(word))
}

/// Turns a word of the dictionary into the code that stands for it in a word list.
pub fn compress_word(dictionary: &[u8], word: &[char]) -> (r: Result<u32, CompressError>)
    requires
        root_of(dictionary@) matches Some(root) ==> root.child_offset <= root.remainder.len(),
    ensures
        r == compress_spec(dictionary@, word@),
{
    let letters = lowercase_word(word);
    compress_letters(dictionary, letters.as_slice())
}

/// Turns the word spelt by exactly these letters into its code.
pub fn compress_letters(dictionary: &[u8], letters: &[char]) -> (r: Result<u32, CompressError>)
    requires
        root_of(dictionary@) matches Some(root) ==> root.child_offset <= root.remainder.len(),
    ensures
        r == compress_letters_spec(dictionary@, letters@),
{
    let root = match Node::extract(dictionary) {
        Some(n) => n,
        None => return Err(CompressError::DictionaryCorrupt),
    };
    if root.child_offset == 0 {
        return Err(CompressError::DictionaryCorrupt);
    }
    let mut data = slice_subrange(root.remainder, root.child_offset, root.remainder.len());
    let mut pos: usize = 0;
    let mut n_choices: u32 = 0;
    let mut choices: u32 = 0;
    assert(letters@.skip(0) == letters@);
    loop
        invariant
            pos <= letters@.len(),
            compress_from(data@, letters@.skip(pos as int), n_choices as nat, choices)
                == compress_letters_spec(dictionary@, letters@),
        decreases data@.len(),
    {
        let node = match Node::extract(data) {
            Some(n) => n,
            None => return Err(CompressError::DictionaryCorrupt),
        };
        proof {
            lemma_node_shrinks(data@);
        }
        let matches = if pos < letters.len() {
            node.letter == letters[pos]
        } else {
            node.letter == '\0'
        };
        if matches {
            if pos >= letters.len() {
                if n_choices >= 32 {
                    return Err(CompressError::TooManyBits);
                } else {
                    return Ok(choices | (1u32 << n_choices));
                }
            }
            if node.child_offset == 0 {
                return Err(CompressError::NotInDictionary);
            }
            if n_choices >= 32 {
                return Err(CompressError::TooManyBits);
            }
            choices = choices | (1u32 << n_choices);
            n_choices = n_choices + 1;
            if node.child_offset > node.remainder.len() {
                return Err(CompressError::DictionaryCorrupt);
            }
            proof {
                assert(letters@.skip(pos as int).drop_first() == letters@.skip(pos + 1));
            }
            data = slice_subrange(node.remainder, node.child_offset, node.remainder.len());
            pos = pos + 1;
        } else {
            if node.sibling_offset == 0 {
                return Err(CompressError::NotInDictionary);
            }
            if n_choices >= 32 {
                return Err(CompressError::TooManyBits);
            }
            n_choices = n_choices + 1;
            if node.sibling_offset > node.remainder.len() {
                return Err(CompressError::DictionaryCorrupt);
            }
            data = slice_subrange(node.remainder, node.sibling_offset, node.remainder.len());
        }
    }
}

/// The bytes of a word list file: each code as four little-endian bytes.
pub open spec fn word_list_bytes(words: Seq<u32>) -> Seq<u8>
    decreases words.len(),
{
    if words.len() == 0 {
        Seq::empty()
    } else {
        let w = words.last();
        word_list_bytes(words.drop_last()) + seq![
            (w & 0xff) as u8,
            ((w >> 8u32) & 0xff) as u8,
            ((w >> 16u32) & 0xff) as u8,
            ((w >> 24u32) & 0xff) as u8,
        ]
    }
}

/// Lays out the codes of a word list as the bytes of its file.
pub fn encode_words(words: &[u32]) -> (r: Vec<u8>)
    ensures
        r@ == word_list_bytes(words@),
{
    let mut bytes: Vec<u8> = Vec::new();
    let mut i: usize = 0;
    while i < words.len()
        invariant
            i <= words@.len(),
            bytes@ == word_list_bytes(words@.take(i as int)),
        decreases words@.len() - i,
    {
        let w = words[i];
        proof {
            assert(words@.take(i + 1).drop_last() == words@.take(i as int));
        }
        bytes.push((w & 0xff) as u8);
        bytes.push(((w >> 8u32) & 0xff) as u8);
        bytes.push(((w >> 16u32) & 0xff) as u8);
        bytes.push(((w >> 24u32) & 0xff) as u8);
        i = i + 1;
    }
    assert(words@.take(words@.len() as int) == words@);
    bytes
}

} // verus!

verus! {

/// The word that the code stands for in the dictionary, and whether the code
/// reaches the end of a word; `None` when the dictionary has no words.
pub open spec fn word_for_code(dictionary: Seq<u8>, code: u64) -> Option<(Seq<char>, bool)> {
    match root_of(dictionary) {
        None => None,
        Some(root) => Some(decode_choices(root.remainder.skip(root.child_offset), code)),
    }
}

/// Appends to `buf` the letters of the word that `word` stands for in the
/// dictionary; says whether the code led to the end of a word.
pub fn append_word(buf: &mut Vec<char>, dictionary: &[u8], word: u64) -> (ok: bool)
    requires
        root_of(dictionary@) matches Some(root) ==> root.child_offset <= root.remainder.len(),
    ensures
        match word_for_code(dictionary@, word) {
            None => !ok && final(buf)@ == old(buf)@,
            Some((letters, complete)) => ok == complete && final(buf)@ == old(buf)@ + letters,
        },
{
    let root = match Node::extract(dictionary) {
        Some(n) => n,
        None => return false,
    };
    if root.child_offset == 0 {
        return false;
    }
    let data = slice_subrange(root.remainder, root.child_offset, root.remainder.len());
    decode_word(buf, data, word)
}

} // verus!

verus! {

/// The bits of a code: one more for each letter still to match and one for
/// the end of the word, on top of those already chosen.
proof fn lemma_code_bits(data: Seq<u8>, letters: Seq<char>, n: nat, choices: u32)
    requires
        compress_from(data, letters, n, choices) is Ok,
        forall|i: int| n <= i < 32 ==> !#[trigger] is_set(choices, i),
    ensures
        count_bits(compress_from(data, letters, n, choices)->Ok_0, 32) == count_bits(choices, 32)
            + letters.len() + 1,
    decreases data.len(),
{
    let node = node_spec(data)->0;
    lemma_node_shrinks(data);
    let target = if letters.len() > 0 {
        letters[0]
    } else {
        '\0'
    };
    if n < 32 {
        lemma_count_bits_add(choices, n as u32, 32);
        lemma_add_member(choices, n as int);
    }
    if node.letter == target {
        if letters.len() > 0 {
            let next = choices | (1u32 << (n as u32));
            assert forall|i: int| n + 1 <= i < 32 implies !#[trigger] is_set(next, i) by {
                lemma_bit_or(choices, n as u32, i as u32);
            }
            lemma_code_bits(
                node.remainder.skip(node.child_offset),
                letters.drop_first(),
                n + 1,
                next,
            );
        }
    } else {
        lemma_code_bits(node.remainder.skip(node.sibling_offset), letters, n + 1, choices);
    }
}

proof fn lemma_add_member(x: u32, c: int)
    requires
        0 <= c < 32,
    ensures
        forall|i: int| 0 <= i < 32 ==> #[trigger] is_set(x | (1u32 << (c as u32)), i) == (is_set(x, i) || i == c),
{
    assert forall|i: int| 0 <= i < 32 implies #[trigger] is_set(x | (1u32 << (c as u32)), i) == (is_set(x, i) || i == c) by {
        lemma_bit_or(x, c as u32, i as u32);
    }
}

/// A word's code has one bit set for each of its letters and one for the
/// end of the word.
pub proof fn lemma_code_bit_count(dictionary: Seq<u8>, letters: Seq<char>)
    requires
        compress_letters_spec(dictionary, letters) is Ok,
    ensures
        count_bits(compress_letters_spec(dictionary, letters)->Ok_0, 32) == letters.len() + 1,
{
    let root = root_of(dictionary)->0;
    assert forall|i: int| 0 <= i < 32 implies !#[trigger] is_set(0u32, i) by {
        lemma_bit_empty(i as u32);
    }
    lemma_count_bits_positive(0u32, 32);
    lemma_code_bits(root.remainder.skip(root.child_offset), letters, 0, 0);
}

/// Lowercasing a word before compressing it changes nothing, provided the
/// lowercase mapping leaves the lowercased word as it is; a word's code has
/// one bit for each letter of the lowercased word and one for its end.
pub proof fn lemma_compress_lowercased_word(dictionary: Seq<u8>, word: Seq<char>)
    requires
        lowercase_all(lowercase_all(word)) == lowercase_all(word),
    ensures
        compress_spec(dictionary, lowercase_all(word)) == compress_spec(dictionary, word),
        compress_spec(dictionary, word) is Ok ==> count_bits(
            compress_spec(dictionary, word)->Ok_0,
            32,
        ) == lowercase_all(word).len() + 1,
{
    if compress_spec(dictionary, word) is Ok {
        lemma_code_bit_count(dictionary, lowercase_all(word));
    }
}

} // verus!
