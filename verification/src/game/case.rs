use vstd::prelude::*;

verus! {

/// The characters of `char::to_uppercase` applied to `c`.
pub uninterp spec fn uppercase_of(c: char) -> Seq<char>;

/// The characters of `char::to_lowercase` applied to `c`.
pub uninterp spec fn lowercase_of(c: char) -> Seq<char>;

/// Calls `char::to_uppercase` and collects its characters.
///
/// Trusted: the result is Unicode's uppercase mapping of `c`, which depends on
/// `c` alone; it is given the name `uppercase_of`. std documents it as one or
/// more characters. Nothing more of the mapping is stated.
#[verifier::external_body]
pub(crate) fn to_uppercase(c: char) -> (r: Vec<char>)
    ensures
        r@ == uppercase_of(c),
        r@.len() >= 1,
{
    c.to_uppercase().collect()
}

/// Calls `char::to_lowercase` and collects its characters.
///
/// Trusted: the result is Unicode's lowercase mapping of `c`, which depends on
/// `c` alone; it is given the name `lowercase_of`. std documents it as one or
/// more characters. Nothing more of the mapping is stated.
#[verifier::external_body]
pub(crate) fn to_lowercase(c: char) -> (r: Vec<char>)
    ensures
        r@ == lowercase_of(c),
        r@.len() >= 1,
{
    c.to_lowercase().collect()
}

} // verus!
