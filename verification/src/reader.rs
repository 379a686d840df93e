//! The byte source of a parse, and the decoding of its bytes into characters.

use vstd::prelude::*;
use vstd::utf8::{
    decode_first_scalar, decode_utf8, pop_first_scalar, valid_first_scalar, valid_utf8,
};

verus! {

/// `char::from_u32` of the standard library: the character with the given
/// code, for every code that is a Unicode scalar value, and `None` for the
/// surrogates and for codes above `0x10FFFF`.
pub assume_specification[ char::from_u32 ](i: u32) -> (r: Option<char>)
    ensures
        r == (if i <= 0xD7FF || (0xE000 <= i <= 0x10FFFF) {
            Some(i as char)
        } else {
            None
        }),
;

/// The character that `bytes` begins with, if it begins with the UTF-8
/// encoding of one.
pub open spec fn first_char(bytes: Seq<u8>) -> Option<char> {
    if bytes.len() > 0 && valid_first_scalar(bytes) {
        Some(decode_first_scalar(bytes) as char)
    } else {
        None
    }
}

/// The characters that `bytes` encodes in UTF-8, up to the end or to the first
/// byte that begins no well-formed character.
pub open spec fn decode_prefix(bytes: Seq<u8>) -> Seq<char>
    decreases bytes.len(),
{
    if bytes.len() > 0 && valid_first_scalar(bytes) {
        seq![decode_first_scalar(bytes) as char] + decode_prefix(pop_first_scalar(bytes))
    } else {
        Seq::empty()
    }
}

/// What is left of `bytes` after the encoding of its decoded prefix: nothing,
/// or bytes that begin with no well-formed character.
pub open spec fn undecoded_rest(bytes: Seq<u8>) -> Seq<u8>
    decreases bytes.len(),
{
    if bytes.len() > 0 && valid_first_scalar(bytes) {
        undecoded_rest(pop_first_scalar(bytes))
    } else {
        bytes
    }
}

/// On well-formed UTF-8 the decoded prefix is the whole decoded text.
pub proof fn lemma_decode_prefix_of_valid(bytes: Seq<u8>)
    requires
        valid_utf8(bytes),
    ensures
        decode_prefix(bytes) == decode_utf8(bytes),
    decreases bytes.len(),
{
    if bytes.len() > 0 {
        lemma_decode_prefix_of_valid(pop_first_scalar(bytes));
    }
}

/// An in-memory byte source with a read position.
pub struct MemReader {
    buf: Vec<u8>,
    pos: usize,
}

impl MemReader {
    #[verifier::type_invariant]
    spec fn inv(&self) -> bool {
        self.pos <= self.buf@.len()
    }

    /// The bytes that have not been read yet.
    pub closed spec fn remaining(&self) -> Seq<u8> {
        self.buf@.skip(self.pos as int)
    }

    /// A reader positioned at the start of `buf`.
    pub fn new(buf: Vec<u8>) -> (rd: MemReader)
        ensures
            rd.remaining() == buf@,
    {
        MemReader { buf, pos: 0 }
    }

    /// Whether every byte has been read.
    pub fn eof(&self) -> (b: bool)
        ensures
            b == (self.remaining().len() == 0),
    {
        proof {
            use_type_invariant(self);
        }
        self.pos >= self.buf.len()
    }

    /// Reads one byte, if any is left.
    pub fn read_byte(&mut self) -> (r: Option<u8>)
        ensures
            match r {
                Some(b) => old(self).remaining().len() > 0 && b == old(self).remaining()[0]
                    && final(self).remaining() == old(self).remaining().skip(1),
                None => old(self).remaining().len() == 0 && final(self).remaining() == old(
                    self,
                ).remaining(),
            },
    {
        proof {
            use_type_invariant(&*self);
        }
        if self.pos < self.buf.len() {
            let b = self.buf[self.pos];
            self.pos = self.pos + 1;
            Some(b)
        } else {
            None
        }
    }
}

impl MemReader {
    /// Reads one character in UTF-8, if the unread bytes begin with a
    /// well-formed one. Otherwise nothing is read: at the end of the bytes and
    /// at a malformed sequence alike the reader stays where it is.
    pub fn read_char(&mut self) -> (r: Option<char>)
        ensures
            r == first_char(old(self).remaining()),
            final(self).remaining() == (if r is Some {
                pop_first_scalar(old(self).remaining())
            } else {
                old(self).remaining()
            }),
    {
        proof {
            use_type_invariant(&*self);
        }
        let n = self.buf.len();
        let p = self.pos;
        let ghost rest = self.remaining();
        if p >= n {
            return None;
        }
        let b0 = self.buf[p];
        assert(rest[0] == b0);
        if b0 <= 0x7f {
            assert(b0 & 0x7f == b0) by (bit_vector)
                requires
                    b0 <= 0x7f,
            ;
            self.pos = p + 1;
            return Some(b0 as char);
        }
        if 0xc0 <= b0 && b0 <= 0xdf {
            if n - p < 2 {
                return None;
            }
            let b1 = self.buf[p + 1];
            assert(rest[1] == b1);
            if !(0x80 <= b1 && b1 <= 0xbf) {
                return None;
            }
            let cp: u32 = (((b0 & 0x1f) as u32) << 6) | ((b1 & 0x3f) as u32);
            assert(cp <= 0x7ff) by (bit_vector)
                requires
                    cp == (((b0 & 0x1f) as u32) << 6) | ((b1 & 0x3f) as u32),
            ;
            if cp < 0x80 {
                return None;
            }
            let c = char::from_u32(cp);
            self.pos = p + 2;
            return c;
        }
        if 0xe0 <= b0 && b0 <= 0xef {
            if n - p < 3 {
                return None;
            }
            let b1 = self.buf[p + 1];
            let b2 = self.buf[p + 2];
            assert(rest[1] == b1 && rest[2] == b2);
            if !(0x80 <= b1 && b1 <= 0xbf && 0x80 <= b2 && b2 <= 0xbf) {
                return None;
            }
            let cp: u32 = (((b0 & 0x0f) as u32) << 12) | (((b1 & 0x3f) as u32) << 6) | ((b2
                & 0x3f) as u32);
            assert(cp <= 0xffff) by (bit_vector)
                requires
                    cp == (((b0 & 0x0f) as u32) << 12) | (((b1 & 0x3f) as u32) << 6) | ((b2
                        & 0x3f) as u32),
            ;
            if cp < 0x800 {
                return None;
            }
            match char::from_u32(cp) {
                Some(c) => {
                    self.pos = p + 3;
                    return Some(c);
                },
                None => {
                    return None;
                },
            }
        }
        if 0xf0 <= b0 && b0 <= 0xf7 {
            if n - p < 4 {
                return None;
            }
            let b1 = self.buf[p + 1];
            let b2 = self.buf[p + 2];
            let b3 = self.buf[p + 3];
            assert(rest[1] == b1 && rest[2] == b2 && rest[3] == b3);
            if !(0x80 <= b1 && b1 <= 0xbf && 0x80 <= b2 && b2 <= 0xbf && 0x80 <= b3 && b3 <= 0xbf) {
                return None;
            }
            let cp: u32 = (((b0 & 0x07) as u32) << 18) | (((b1 & 0x3f) as u32) << 12) | (((b2
                & 0x3f) as u32) << 6) | ((b3 & 0x3f) as u32);
            if cp < 0x10000 || cp > 0x10ffff {
                return None;
            }
            let c = char::from_u32(cp);
            self.pos = p + 4;
            return c;
        }
        None
    }
}

} // verus!
