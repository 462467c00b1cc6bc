//! Text encoding for the game's 8-bit code page. Scripts are stored with
//! CR-terminated lines; decoding maps byte 13 to `\n` and every other byte
//! through the code page, and encoding reverses that. A character with no
//! code-page pre-image is an encoding error.

use vstd::prelude::*;

verus! {

/// The character the code page assigns to one byte.
pub uninterp spec fn cp437_char_of(b: u8) -> char;

/// The byte the code page assigns to one character, if any.
pub uninterp spec fn cp437_byte_of(c: char) -> Option<u8>;

/// Relies on codepage_437's `Cp437Dialect::decode` for the dialect that
/// maps the control range to dingbats: a pure 256-entry table lookup. The
/// table is injective and its generated `encode` match lists each table
/// pair before any variant, so encoding a decoded character returns the
/// original byte; no byte decodes to a line feed, because byte 10 maps to
/// a dingbat in this dialect.
#[verifier::external_body]
fn cp437_decode(b: u8) -> (c: char)
    ensures
        c == cp437_char_of(b),
        cp437_byte_of(c) == Some(b),
        c != '\n',
{
    codepage_437::CP437_WINGDINGS.decode(b)
}

/// Relies on codepage_437's `Cp437Dialect::encode` for the same dialect:
/// the reverse lookup of the decode table, `None` when the character has
/// no pre-image.
#[verifier::external_body]
fn cp437_encode(c: char) -> (r: Option<u8>)
    ensures
        r == cp437_byte_of(c),
{
    codepage_437::CP437_WINGDINGS.encode(c)
}

/// The decoded form of one byte of script text.
pub open spec fn decoded_code_char(b: u8) -> char {
    if b == 13 {
        '\n'
    } else {
        cp437_char_of(b)
    }
}

/// A character fails to encode as script text exactly when it is not a
/// newline and has no code-page pre-image.
pub open spec fn code_char_encodes(c: char) -> bool {
    c == '\n' || cp437_byte_of(c) is Some
}

/// The encoded form of one character of script text.
pub open spec fn encoded_code_char(c: char) -> u8 {
    if c == '\n' {
        13
    } else {
        cp437_byte_of(c)->Some_0
    }
}

/// Decode a multi-line script: byte 13 is the line terminator and becomes
/// `\n`; every other byte goes through the code page. Every decoded
/// character re-encodes to the byte it came from, so re-encoding the
/// result reverses the decoding exactly.
pub fn decode_multiline(input: &Vec<u8>) -> (r: Vec<char>)
    ensures
        r@.len() == input@.len(),
        forall|i: int| 0 <= i < input@.len() ==> r@[i] == decoded_code_char(#[trigger] input@[i]),
        forall|i: int|
            0 <= i < input@.len() ==> code_char_encodes(#[trigger] r@[i]) && encoded_code_char(
                r@[i],
            ) == input@[i],
{
    let mut r: Vec<char> = Vec::new();
    let mut i: usize = 0;
    while i < input.len()
        invariant
            i <= input@.len(),
            r@.len() == i,
            forall|j: int| 0 <= j < i ==> r@[j] == decoded_code_char(#[trigger] input@[j]),
            forall|j: int|
                0 <= j < i ==> code_char_encodes(#[trigger] r@[j]) && encoded_code_char(r@[j])
                    == input@[j],
        decreases input@.len() - i,
    {
        let b = input[i];
        if b == 13 {
            r.push('\n');
        } else {
            r.push(cp437_decode(b));
        }
        i = i + 1;
    }
    r
}

/// Encode a multi-line script: `\n` becomes byte 13; every other
/// character must have a code-page pre-image, else the encode fails.
pub fn encode_multiline(input: &Vec<char>) -> (r: Result<Vec<u8>, ()>)
    ensures
        match r {
            Ok(bytes) => {
                &&& bytes@.len() == input@.len()
                &&& (forall|i: int|
                    0 <= i < input@.len() ==> #[trigger] bytes@[i] == encoded_code_char(
                        input@[i],
                    ))
                &&& (forall|i: int|
                    0 <= i < input@.len() ==> code_char_encodes(#[trigger] input@[i]))
            },
            Err(_) => exists|i: int|
                0 <= i < input@.len() && !code_char_encodes(#[trigger] input@[i]),
        },
{
    let mut r: Vec<u8> = Vec::new();
    let mut i: usize = 0;
    while i < input.len()
        invariant
            i <= input@.len(),
            r@.len() == i,
            forall|j: int| 0 <= j < i ==> #[trigger] r@[j] == encoded_code_char(input@[j]),
            forall|j: int| 0 <= j < i ==> code_char_encodes(#[trigger] input@[j]),
        decreases input@.len() - i,
    {
        let c = input[i];
        if c == '\n' {
            r.push(13);
        } else {
            match cp437_encode(c) {
                Some(b) => r.push(b),
                None => {
                    return Err(());
                },
            }
        }
        i = i + 1;
    }
    Ok(r)
}

/// Decode a one-line string such as a board title: every byte, byte 13
/// included, goes through the code page. Every decoded character
/// re-encodes to the byte it came from.
pub fn decode_oneline(input: &Vec<u8>) -> (r: Vec<char>)
    ensures
        r@.len() == input@.len(),
        forall|i: int| 0 <= i < input@.len() ==> r@[i] == cp437_char_of(#[trigger] input@[i]),
        forall|i: int|
            0 <= i < input@.len() ==> cp437_byte_of(#[trigger] r@[i]) == Some(input@[i]),
{
    let mut r: Vec<char> = Vec::new();
    let mut i: usize = 0;
    while i < input.len()
        invariant
            i <= input@.len(),
            r@.len() == i,
            forall|j: int| 0 <= j < i ==> r@[j] == cp437_char_of(#[trigger] input@[j]),
            forall|j: int| 0 <= j < i ==> cp437_byte_of(#[trigger] r@[j]) == Some(input@[j]),
        decreases input@.len() - i,
    {
        r.push(cp437_decode(input[i]));
        i = i + 1;
    }
    r
}

/// Encode a one-line string: every character must have a code-page
/// pre-image; newlines are not special here.
pub fn encode_oneline(input: &Vec<char>) -> (r: Result<Vec<u8>, ()>)
    ensures
        match r {
            Ok(bytes) => {
                &&& bytes@.len() == input@.len()
                &&& (forall|i: int|
                    0 <= i < input@.len() ==> Some(#[trigger] bytes@[i]) == cp437_byte_of(
                        input@[i],
                    ))
            },
            Err(_) => exists|i: int|
                0 <= i < input@.len() && cp437_byte_of(#[trigger] input@[i]) is None,
        },
{
    let mut r: Vec<u8> = Vec::new();
    let mut i: usize = 0;
    while i < input.len()
        invariant
            i <= input@.len(),
            r@.len() == i,
            forall|j: int| 0 <= j < i ==> Some(#[trigger] r@[j]) == cp437_byte_of(input@[j]),
        decreases input@.len() - i,
    {
        match cp437_encode(input[i]) {
            Some(b) => r.push(b),
            None => {
                return Err(());
            },
        }
        i = i + 1;
    }
    Ok(r)
}

} // verus!
