//! Tokens of a text: the words between its whitespace.
//!
//! The bytes of the text are read as characters one by one, each byte as the
//! character with that number. [`token_step`] decides byte by byte where a
//! token begins and ends, for a caller that gets its bytes from elsewhere;
//! [`read_token_from`] and [`read_ascii_from`] read from bytes in memory.

use vstd::prelude::*;

verus! {

/// Whether the byte, read as a character, is whitespace.
pub open spec fn is_space(b: u8) -> bool {
    9 <= b <= 13 || b == 0x20 || b == 0x85 || b == 0xA0
}

/// Tells whether the byte, read as a character, is whitespace.
pub fn is_whitespace(b: u8) -> (r: bool)
    ensures
        r == is_space(b),
{
    (9 <= b && b <= 13) || b == 0x20 || b == 0x85 || b == 0xA0
}

/// The position of the first byte at or after `i` that is no whitespace, or
/// the length of the text if there is none.
pub open spec fn skip_spaces(s: Seq<u8>, i: int) -> int
    decreases s.len() - i,
{
    if 0 <= i < s.len() && is_space(s[i]) {
        skip_spaces(s, i + 1)
    } else {
        i
    }
}

/// The position of the first byte at or after `i` that is whitespace, or the
/// length of the text if there is none.
pub open spec fn skip_word(s: Seq<u8>, i: int) -> int
    decreases s.len() - i,
{
    if 0 <= i < s.len() && !is_space(s[i]) {
        skip_word(s, i + 1)
    } else {
        i
    }
}

/// The characters of the bytes `s[from], ..., s[to - 1]`.
pub open spec fn chars_of(s: Seq<u8>, from: int, to: int) -> Seq<char> {
    Seq::new((to - from) as nat, |k: int| s[from + k] as char)
}

/// The token that begins at or after `pos`: the bytes from the first one that
/// is no whitespace up to the next whitespace, as characters.
pub open spec fn token_at(s: Seq<u8>, pos: int) -> Seq<char> {
    let start = skip_spaces(s, pos);
    chars_of(s, start, skip_word(s, start))
}

/// The position after the token that begins at or after `pos`, and after the
/// whitespace byte that ends it, if there is one.
pub open spec fn after_token(s: Seq<u8>, pos: int) -> int {
    let end = skip_word(s, skip_spaces(s, pos));
    if end < s.len() {
        end + 1
    } else {
        end
    }
}

/// The two skips stop inside the text, at a byte of the other kind.
pub proof fn lemma_skips(s: Seq<u8>, i: int)
    requires
        0 <= i <= s.len(),
    ensures
        i <= skip_spaces(s, i) <= s.len(),
        i <= skip_word(s, i) <= s.len(),
        skip_spaces(s, i) < s.len() ==> !is_space(s[skip_spaces(s, i)]),
        skip_word(s, i) < s.len() ==> is_space(s[skip_word(s, i)]),
        forall|k: int| i <= k < skip_spaces(s, i) ==> is_space(#[trigger] s[k]),
        forall|k: int| i <= k < skip_word(s, i) ==> !is_space(#[trigger] s[k]),
    decreases s.len() - i,
{
    if i < s.len() {
        lemma_skips(s, i + 1);
    }
}

/// What to do with a byte of the text while a token is read.
#[derive(Debug, Clone, Copy, PartialEq, Eq)]
pub enum TokenStep {
    /// The byte stands before the token: pass over it.
    Skip,
    /// The byte belongs to the token, as this character.
    Take(char),
    /// The byte stands after the token: the token is complete.
    Stop,
}

/// What [`token_step`] decides: whitespace is passed over before the token has
/// started and ends it afterwards, and any other byte belongs to the token.
pub open spec fn token_step_spec(started: bool, byte: u8) -> TokenStep {
    if !is_space(byte) {
        TokenStep::Take(byte as char)
    } else if started {
        TokenStep::Stop
    } else {
        TokenStep::Skip
    }
}

/// Decides what to do with the next byte of the text, given whether the token
/// has started.
pub fn token_step(started: bool, byte: u8) -> (step: TokenStep)
    ensures
        step == token_step_spec(started, byte),
{
    if !is_whitespace(byte) {
        TokenStep::Take(byte as char)
    } else if started {
        TokenStep::Stop
    } else {
        TokenStep::Skip
    }
}

/// `String::push` appends the character to the end of the string.
#[verifier::external_body]
fn push_char(s: &mut String, c: char)
    ensures
        final(s)@ == old(s)@.push(c),
{
    s.push(c);
}

/// A text in memory that is read from the front.
#[derive(Debug, Clone)]
pub struct ByteReader {
    bytes: Vec<u8>,
    pos: usize,
}

impl ByteReader {
    /// The bytes of the whole text.
    pub closed spec fn bytes(&self) -> Seq<u8> {
        self.bytes@
    }

    /// The number of bytes read so far.
    pub closed spec fn position(&self) -> int {
        self.pos as int
    }

    /// The invariant of the reader: it has not read more than there is.
    pub closed spec fn wf(&self) -> bool {
        self.pos <= self.bytes@.len()
    }

    /// Makes a reader at the beginning of a text.
    pub fn new(bytes: Vec<u8>) -> (read: ByteReader)
        ensures
            read.wf(),
            read.bytes() == bytes@,
            read.position() == 0,
    {
        ByteReader { bytes, pos: 0 }
    }

    /// Returns the number of bytes that are left to read.
    pub fn remaining(&self) -> (n: usize)
        requires
            self.wf(),
        ensures
            n == self.bytes().len() - self.position(),
    {
        self.bytes.len() - self.pos
    }
}

/// Reads the next token: passes over whitespace, takes the bytes up to the
/// next whitespace, and passes over that one byte of whitespace too. The token
/// is empty if the text ends before it begins.
pub fn read_token_from(read: &mut ByteReader) -> (token: String)
    requires
        old(read).wf(),
    ensures
        final(read).wf(),
        final(read).bytes() == old(read).bytes(),
        token@ == token_at(old(read).bytes(), old(read).position()),
        final(read).position() == after_token(old(read).bytes(), old(read).position()),
{
    let ghost s = read.bytes@;
    let ghost first = read.pos as int;
    let ghost start = skip_spaces(s, first);
    let mut token = String::new();
    let mut started = false;
    proof {
        lemma_skips(s, first);
        lemma_skips(s, start);
    }
    while read.pos < read.bytes.len()
        invariant
            read.bytes@ == s,
            s == old(read).bytes@,
            first == old(read).pos,
            first <= read.pos <= s.len(),
            start == skip_spaces(s, first),
            first <= start <= s.len(),
            !started ==> read.pos <= start && token@.len() == 0,
            started ==> start < read.pos <= skip_word(s, start),
            started ==> token@ == chars_of(s, start, read.pos as int),
            forall|k: int| first <= k < start ==> is_space(#[trigger] s[k]),
            start < s.len() ==> !is_space(s[start]),
            start <= skip_word(s, start) <= s.len(),
            skip_word(s, start) < s.len() ==> is_space(s[skip_word(s, start)]),
            forall|k: int| start <= k < skip_word(s, start) ==> !is_space(#[trigger] s[k]),
        decreases s.len() - read.pos,
    {
        let byte = read.bytes[read.pos];
        let ghost at = read.pos as int;
        read.pos += 1;
        match token_step(started, byte) {
            TokenStep::Skip => {
                proof {
                    if at >= start {
                        assert(!is_space(s[start]));
                    }
                }
            },
            TokenStep::Take(c) => {
                proof {
                    if !started {
                        if at < start {
                            assert(is_space(s[at]));
                        }
                        assert(at == start);
                    }
                    if at >= skip_word(s, start) {
                        assert(is_space(s[skip_word(s, start)]));
                    }
                }
                push_char(&mut token, c);
                started = true;
                assert(token@ =~= chars_of(s, start, read.pos as int));
            },
            TokenStep::Stop => {
                proof {
                    if at < skip_word(s, start) {
                        assert(!is_space(s[at]));
                    }
                }
                return token;
            },
        }
    }
    proof {
        if !started {
            assert(start == s.len()) by {
                if start < s.len() {
                    assert(!is_space(s[start]));
                }
            }
            assert(token@ =~= chars_of(s, start, skip_word(s, start)));
        }
    }
    token
}

/// Reads the next character that is no whitespace. There must be one.
pub fn read_ascii_from(read: &mut ByteReader) -> (c: char)
    requires
        old(read).wf(),
        skip_spaces(old(read).bytes(), old(read).position()) < old(read).bytes().len(),
    ensures
        final(read).wf(),
        final(read).bytes() == old(read).bytes(),
        c == old(read).bytes()[skip_spaces(old(read).bytes(), old(read).position())] as char,
        final(read).position() == skip_spaces(old(read).bytes(), old(read).position()) + 1,
{
    let ghost s = read.bytes@;
    let ghost first = read.pos as int;
    let len = read.bytes.len();
    proof {
        lemma_skips(s, first);
    }
    loop
        invariant
            read.bytes@ == s,
            s == old(read).bytes@,
            first == old(read).pos,
            len == s.len(),
            first <= read.pos <= skip_spaces(s, first) < s.len(),
            !is_space(s[skip_spaces(s, first)]),
            skip_spaces(s, read.pos as int) == skip_spaces(s, first),
        decreases s.len() - read.pos,
    {
        let byte = read.bytes[read.pos];
        read.pos += 1;
        if !is_whitespace(byte) {
            return byte as char;
        }
    }
}

/// Tells whether a character that is no whitespace is left to read, which
/// [`read_ascii_from`] asks for.
pub fn has_next_ascii(read: &ByteReader) -> (r: bool)
    requires
        read.wf(),
    ensures
        r == (skip_spaces(read.bytes(), read.position()) < read.bytes().len()),
{
    let mut i = read.pos;
    while i < read.bytes.len()
        invariant
            read.pos <= i <= read.bytes@.len(),
            skip_spaces(read.bytes@, i as int) == skip_spaces(read.bytes@, read.pos as int),
        decreases read.bytes@.len() - i,
    {
        if !is_whitespace(read.bytes[i]) {
            return true;
        }
        i += 1;
    }
    false
}

} // verus!
