//! Big-endian words, as the container and every table of it store their numbers.

use vstd::prelude::*;

verus! {

/// The number that four bytes spell, most significant byte first.
pub open spec fn be_word(b0: u8, b1: u8, b2: u8, b3: u8) -> nat {
    (b0 as nat) * 0x100_0000 + (b1 as nat) * 0x1_0000 + (b2 as nat) * 0x100 + (b3 as nat)
}

/// The big-endian word that starts at `at` in `s`.
pub open spec fn be_u32(s: Seq<u8>, at: int) -> nat
    recommends
        0 <= at,
        at + 4 <= s.len(),
{
    be_word(s[at], s[at + 1], s[at + 2], s[at + 3])
}

/// The four bytes that spell `n`, most significant byte first.
#[verifier::opaque]
pub open spec fn be_bytes(n: nat) -> Seq<u8>
    recommends
        n <= u32::MAX,
{
    seq![
        (n / 0x100_0000) as u8,
        ((n / 0x1_0000) % 0x100) as u8,
        ((n / 0x100) % 0x100) as u8,
        (n % 0x100) as u8,
    ]
}

/// Writing a word and reading it back gives the word.
pub proof fn lemma_be_round_trip(n: nat)
    requires
        n <= u32::MAX,
    ensures
        be_bytes(n).len() == 4,
        be_u32(be_bytes(n), 0) == n,
{
    reveal(be_bytes);
}

/// What a vector of byte vectors holds, row by row.
pub open spec fn byte_rows(rows: Seq<Vec<u8>>) -> Seq<Seq<u8>> {
    Seq::new(rows.len(), |i: int| rows[i]@)
}

/// Reads the big-endian word at `at`.
pub fn read_be_u32(data: &[u8], at: usize) -> (word: u32)
    requires
        at + 4 <= data@.len(),
    ensures
        word == be_u32(data@, at as int),
{
    let b0: u32 = data[at] as u32;
    let b1: u32 = data[at + 1] as u32;
    let b2: u32 = data[at + 2] as u32;
    let b3: u32 = data[at + 3] as u32;
    b0 * 0x100_0000 + b1 * 0x1_0000 + b2 * 0x100 + b3
}

} // verus!
