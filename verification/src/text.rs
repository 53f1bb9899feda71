//! Text as the listings need it: decimal numbers and names read from bytes.

use vstd::prelude::*;
use vstd::string::*;
use vstd::utf8::*;

verus! {

/// The character that writes the digit `d`.
pub open spec fn digit_char(d: nat) -> char
    recommends
        d < 10,
{
    if d == 0 {
        '0'
    } else if d == 1 {
        '1'
    } else if d == 2 {
        '2'
    } else if d == 3 {
        '3'
    } else if d == 4 {
        '4'
    } else if d == 5 {
        '5'
    } else if d == 6 {
        '6'
    } else if d == 7 {
        '7'
    } else if d == 8 {
        '8'
    } else {
        '9'
    }
}

/// `n` in decimal, without leading zeros.
pub open spec fn decimal(n: nat) -> Seq<char>
    decreases n,
{
    if n < 10 {
        seq![digit_char(n)]
    } else {
        decimal(n / 10).push(digit_char(n % 10))
    }
}

/// The text that a sequence of Latin-1 bytes spells: each byte is the code point of one character.
pub open spec fn latin1_text(bytes: Seq<u8>) -> Seq<char> {
    Seq::new(bytes.len(), |i: int| bytes[i] as char)
}

/// The bytes that spell a text in Latin-1, one byte for each character.
pub open spec fn latin1_bytes(text: Seq<char>) -> Seq<u8>
    recommends
        forall|i: int| 0 <= i < text.len() ==> text[i] as u32 <= 0xff,
{
    Seq::new(text.len(), |i: int| text[i] as u8)
}

proof fn lemma_latin1_char(c: char)
    requires
        c as u32 <= 0xff,
    ensures
        (c as u8) as char == c,
{
    let b = c as u8;
    assert(b as int == c as int);
}

/// A text whose characters all lie in Latin-1 is read back from its bytes.
pub proof fn lemma_latin1_round_trip(text: Seq<char>)
    requires
        forall|i: int| 0 <= i < text.len() ==> text[i] as u32 <= 0xff,
    ensures
        latin1_bytes(text).len() == text.len(),
        latin1_text(latin1_bytes(text)) == text,
{
    assert forall|i: int| 0 <= i < text.len() implies latin1_text(latin1_bytes(text))[i]
        == text[i] by {
        lemma_latin1_char(text[i]);
    }
    assert(latin1_text(latin1_bytes(text)) =~= text);
}

fn digit_str(d: u64) -> (s: &'static str)
    requires
        d < 10,
    ensures
        s@ == seq![digit_char(d as nat)],
{
    proof {
        reveal_strlit("0");
        reveal_strlit("1");
        reveal_strlit("2");
        reveal_strlit("3");
        reveal_strlit("4");
        reveal_strlit("5");
        reveal_strlit("6");
        reveal_strlit("7");
        reveal_strlit("8");
        reveal_strlit("9");
    }
    let s = if d == 0 {
        "0"
    } else if d == 1 {
        "1"
    } else if d == 2 {
        "2"
    } else if d == 3 {
        "3"
    } else if d == 4 {
        "4"
    } else if d == 5 {
        "5"
    } else if d == 6 {
        "6"
    } else if d == 7 {
        "7"
    } else if d == 8 {
        "8"
    } else {
        "9"
    };
    assert(s@ =~= seq![digit_char(d as nat)]);
    s
}

/// Appends `n` in decimal to `out`.
pub fn push_decimal(out: &mut String, n: u64)
    ensures
        final(out)@ == old(out)@ + decimal(n as nat),
    decreases n,
{
    if n >= 10 {
        push_decimal(out, n / 10);
    }
    out.append(digit_str(n % 10));
    assert(final(out)@ =~= old(out)@ + decimal(n as nat));
}

/// Appends one character to a string. This is `String::push` of the
/// standard library, which is documented to append the given character to
/// the end of the string; nothing else of the string changes.
#[verifier::external_body]
fn push_char(out: &mut String, c: char)
    ensures
        final(out)@ == old(out)@.push(c),
{
    out.push(c)
}

/// Checks that `bytes` are UTF-8. This is `std::str::from_utf8`, which is
/// documented to give the string slice over exactly these bytes when they
/// are well-formed UTF-8, and an error otherwise. Well-formed is what
/// `vstd::utf8::valid_utf8` says: no overlong form, no surrogate, nothing
/// above U+10FFFF.
#[verifier::external_body]
fn utf8_str(bytes: &[u8]) -> (out: Option<&str>)
    ensures
        out is Some <==> valid_utf8(bytes@),
        out matches Some(s) ==> s.spec_bytes() == bytes@,
{
    std::str::from_utf8(bytes).ok()
}

/// Reads Latin-1 bytes as text.
pub fn latin1_string(bytes: &[u8]) -> (text: String)
    ensures
        text@ == latin1_text(bytes@),
{
    let mut text = String::new();
    let mut i: usize = 0;
    while i < bytes.len()
        invariant
            i <= bytes@.len(),
            text@ == latin1_text(bytes@.take(i as int)),
        decreases bytes@.len() - i,
    {
        push_char(&mut text, bytes[i] as char);
        i += 1;
        assert(text@ =~= latin1_text(bytes@.take(i as int)));
    }
    assert(bytes@.take(i as int) =~= bytes@);
    text
}

/// Reads UTF-8 bytes as text; `None` when they are not valid UTF-8.
pub fn utf8_string(bytes: &[u8]) -> (text: Option<String>)
    ensures
        text is Some <==> valid_utf8(bytes@),
        text matches Some(t) ==> t@ == decode_utf8(bytes@),
{
    match utf8_str(bytes) {
        Some(s) => {
            proof {
                encode_utf8_decode_utf8(s@);
            }
            Some(s.to_owned())
        },
        None => None,
    }
}

} // verus!
