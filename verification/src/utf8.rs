//! UTF-8: a decoder from bytes to Unicode scalar values and an encoder back.
//!
//! The decoder reads one byte at a step. A scalar value of several bytes
//! takes as many steps, of which all but the last report `Skip`. The encoder
//! gives one byte at a step and reads a scalar value when it has none left.
//! `decode_byte` and `utf8_bytes` say what the two do; the module `laws`
//! holds what follows from them.

use crate::{EIterator, Step};
use vstd::prelude::*;
use vstd::std_specs::convert::FromSpec;
use vstd::utf8::{encode_scalar, is_scalar};

pub mod laws;

verus! {

/// Decoding and encoding for fallible iterators of bytes and of Unicode
/// scalar values.
pub trait EIteratorUtf8Ext: EIterator {
    /// The scalar values that the bytes of `self` encode.
    fn decode_utf8(self) -> (r: DecodeUtf8<Self>)
        where
            Self: Sized,
            Self: EIterator<Item = u8>,
            Self::Error: From<DecodeUtf8Error>,
        ensures
            r.inner() == self,
            r@ == idle(),
    {
        DecodeUtf8 { iter: self, count: 0, res: 0 }
    }

    /// The bytes that encode the scalar values of `self`.
    fn encode_utf8(self) -> (r: EncodeUtf8<Self>)
        where
            Self: Sized,
            Self: EIterator<Item = char>,
        ensures
            r.inner() == self,
            r@ == Seq::<u8>::empty(),
    {
        EncodeUtf8 { iter: self, buf: [0;4], index: 4 }
    }
}

impl<I, T, E> EIteratorUtf8Ext for I where I: EIterator<Item = T, Error = E> {
}

/// Why a byte stream is not the UTF-8 encoding of a text.
#[derive(Debug)]
pub enum DecodeUtf8Error {
    /// A byte sequence is malformed or cut short, or it encodes a number that
    /// is no Unicode scalar value.
    InvalidUtf8Codepoint,
}

impl DecodeUtf8Error {
    /// The message for a reader.
    pub fn to_string(&self) -> (r: String)
        ensures
            r@ == "Invalid UTF8 codepoint"@,
    {
        match self {
            DecodeUtf8Error::InvalidUtf8Codepoint => "Invalid UTF8 codepoint".to_owned(),
        }
    }

    /// A short name of the error kind.
    pub fn description(&self) -> (r: &'static str)
        ensures
            r@ == "UTF8 decode error"@,
    {
        "UTF8 decode error"
    }
}

/// What a decoder remembers between two bytes: how many continuation bytes
/// the sequence in flight still needs, and the number that the payload bits
/// read so far make up. Between two sequences both are zero.
pub struct DecoderState {
    pub pending: nat,
    pub acc: nat,
}

/// The state between two sequences.
pub open spec fn idle() -> DecoderState {
    DecoderState { pending: 0, acc: 0 }
}

/// The states that a decoder can be in: at most three bytes are awaited, and
/// the payload read so far leaves room for theirs below 2^21.
pub open spec fn reachable(s: DecoderState) -> bool {
    if s.pending == 0 {
        s.acc == 0
    } else if s.pending == 1 {
        s.acc < 0x8000
    } else if s.pending == 2 {
        s.acc < 0x200
    } else {
        s.pending == 3 && s.acc < 8
    }
}

/// The number `n` is a Unicode scalar value: at most 0x10FFFF and no
/// surrogate.
pub open spec fn is_scalar_value(n: nat) -> bool {
    n < 0xd800 || 0xe000 <= n <= 0x10ffff
}

/// The decoder's move on one input byte: the state after it and the outcome.
///
/// Between two sequences, a byte below 0x80 is a character by itself, and a
/// byte of the form 110xxxxx, 1110xxxx or 11110xxx opens a sequence of two,
/// three or four bytes with its payload bits; any other byte is an error.
/// Inside a sequence every byte adds its low six bits, and the last one
/// completes the number, which has to be a scalar value.
pub open spec fn decode_byte(s: DecoderState, b: u8) -> (DecoderState, Step<char, DecodeUtf8Error>) {
    if s.pending == 0 {
        if b < 0x80 {
            (idle(), Step::Yield(b as char))
        } else if 0xc0 <= b < 0xe0 {
            (DecoderState { pending: 1, acc: (b - 0xc0) as nat }, Step::Skip)
        } else if 0xe0 <= b < 0xf0 {
            (DecoderState { pending: 2, acc: (b - 0xe0) as nat }, Step::Skip)
        } else if 0xf0 <= b < 0xf8 {
            (DecoderState { pending: 3, acc: (b - 0xf0) as nat }, Step::Skip)
        } else {
            (idle(), Step::Error(DecodeUtf8Error::InvalidUtf8Codepoint))
        }
    } else {
        let acc = s.acc * 0x40 + b % 0x40;
        if s.pending > 1 {
            (DecoderState { pending: (s.pending - 1) as nat, acc: acc as nat }, Step::Skip)
        } else if is_scalar_value(acc as nat) {
            (idle(), Step::Yield(acc as char))
        } else {
            (idle(), Step::Error(DecodeUtf8Error::InvalidUtf8Codepoint))
        }
    }
}

/// The decoder's outcome when the input ends: a sequence in flight is cut
/// short.
pub open spec fn decode_end(s: DecoderState) -> Step<char, DecodeUtf8Error> {
    if s.pending == 0 {
        Step::Done
    } else {
        Step::Error(DecodeUtf8Error::InvalidUtf8Codepoint)
    }
}

/// The outcome `out` is the decoder's own outcome `pure`, with the error
/// converted into `E`.
pub open spec fn lifted<E: From<DecodeUtf8Error>>(
    pure: Step<char, DecodeUtf8Error>,
    out: Step<char, E>,
) -> bool {
    match pure {
        Step::Done => out is Done,
        Step::Skip => out is Skip,
        Step::Yield(c) => out == Step::<char, E>::Yield(c),
        Step::Error(d) => out is Error && (E::obeys_from_spec() ==> out->Error_0 == E::from_spec(d)),
    }
}

/// What a decoder in state `s` makes of the outcome `inner` of its input:
/// the state `next` and the outcome `out`. A byte moves the decoder, the end
/// of the input is the end or an error, and `Skip` and an error of the input
/// pass through.
pub open spec fn decoded<E: From<DecodeUtf8Error>>(
    s: DecoderState,
    inner: Step<u8, E>,
    next: DecoderState,
    out: Step<char, E>,
) -> bool {
    match inner {
        Step::Yield(b) => next == decode_byte(s, b).0 && lifted(decode_byte(s, b).1, out),
        Step::Done => next == s && lifted(decode_end(s), out),
        Step::Skip => next == s && out is Skip,
        Step::Error(e) => next == s && out == Step::<char, E>::Error(e),
    }
}

/// The Unicode scalar values that a stream of bytes encodes in UTF-8.
pub struct DecodeUtf8<I> {
    iter: I,
    count: u8,
    res: u32,
}

impl<I> DecodeUtf8<I> {
    /// The wrapped iterator.
    pub closed spec fn inner(&self) -> I {
        self.iter
    }

    /// The decoder's state.
    pub closed spec fn view(&self) -> DecoderState {
        if self.count == 0 {
            idle()
        } else {
            DecoderState { pending: self.count as nat, acc: self.res as nat }
        }
    }
}

impl<I> EIterator for DecodeUtf8<I> where I: EIterator<Item = u8>, I::Error: From<DecodeUtf8Error> {
    type Item = char;

    type Error = I::Error;

    open spec fn wf(&self) -> bool {
        &&& self.inner().wf()
        &&& reachable(self@)
    }

    open spec fn fuel(&self) -> nat {
        self.inner().fuel()
    }

    open spec fn advances(&self, next: &Self, out: Step<char, I::Error>) -> bool {
        exists|inner: Step<u8, I::Error>|
            self.inner().advances(&next.inner(), inner) && decoded(self@, inner, next@, out)
    }

    fn enext(&mut self) -> (out: Step<char, I::Error>) {
        assert(self.inner() == self.iter && self.fuel() == self.iter.fuel());
        let ghost before = self@;
        let inner = self.iter.enext();
        proof {
            if let Step::Yield(b) = inner {
                lemma_byte_masks(b);
                lemma_fold(self.res, b);
            }
        }
        let out = match inner {
            Step::Done => {
                if self.count == 0 {
                    Step::Done
                } else {
                    Step::Error(From::from(DecodeUtf8Error::InvalidUtf8Codepoint))
                }
            },
            Step::Error(e) => Step::Error(e),
            Step::Skip => Step::Skip,
            Step::Yield(b) => {
                if self.count == 0 {
                    if b & 0b1000_0000 == 0 {
                        Step::Yield(b as char)
                    } else if b & 0b1110_0000 == 0b1100_0000 {
                        self.res = (b & 0b0001_1111) as u32;
                        self.count = 1;
                        Step::Skip
                    } else if b & 0b1111_0000 == 0b1110_0000 {
                        self.res = (b & 0b0000_1111) as u32;
                        self.count = 2;
                        Step::Skip
                    } else if b & 0b1111_1000 == 0b1111_0000 {
                        self.res = (b & 0b0000_0111) as u32;
                        self.count = 3;
                        Step::Skip
                    } else {
                        Step::Error(From::from(DecodeUtf8Error::InvalidUtf8Codepoint))
                    }
                } else {
                    self.count -= 1;
                    self.res = (self.res << 6) | ((b as u32) & 0b0011_1111);
                    if self.count == 0 {
                        match scalar_from_u32(self.res) {
                            Some(c) => Step::Yield(c),
                            None => Step::Error(From::from(DecodeUtf8Error::InvalidUtf8Codepoint)),
                        }
                    } else {
                        Step::Skip
                    }
                }
            },
        };
        assert(self.inner() == self.iter);
        assert(decoded(before, inner, self@, out));
        out
    }
}

/// The UTF-8 encoding of the scalar value `c`: one byte below 0x80, two
/// below 0x800, three below 0x10000, and four from there on. The first byte
/// of a longer encoding tells the length and holds the highest bits, and
/// each byte after it holds six bits more.
pub open spec fn utf8_bytes(c: char) -> Seq<u8> {
    let v = c as int;
    if v < 0x80 {
        seq![v as u8]
    } else if v < 0x800 {
        seq![(0xc0 + v / 0x40) as u8, (0x80 + v % 0x40) as u8]
    } else if v < 0x10000 {
        seq![(0xe0 + v / 0x1000) as u8, (0x80 + v / 0x40 % 0x40) as u8, (0x80 + v % 0x40) as u8]
    } else {
        seq![
            (0xf0 + v / 0x40000) as u8,
            (0x80 + v / 0x1000 % 0x40) as u8,
            (0x80 + v / 0x40 % 0x40) as u8,
            (0x80 + v % 0x40) as u8,
        ]
    }
}

/// The bytes that an encoder holds back at position `at` of its buffer: the
/// byte there, and those after it up to the first zero or the buffer's end.
spec fn held(buf: Seq<u8>, at: int) -> Seq<u8>
    decreases 4 - at,
{
    if 0 <= at < 4 && buf.len() == 4 {
        if at + 1 < 4 && buf[at + 1] != 0 {
            seq![buf[at]] + held(buf, at + 1)
        } else {
            seq![buf[at]]
        }
    } else {
        Seq::empty()
    }
}

/// What an encoder with nothing held back makes of the outcome `inner` of
/// its input: the outcome `out`, and the bytes `rest` that it holds back. Of
/// a scalar value it gives the first byte and holds back the others; the
/// other outcomes pass through.
pub open spec fn encoded<E>(inner: Step<char, E>, out: Step<u8, E>, rest: Seq<u8>) -> bool {
    match inner {
        Step::Yield(c) => {
            &&& out == Step::<u8, E>::Yield(utf8_bytes(c).first())
            &&& rest == utf8_bytes(c).drop_first()
        },
        Step::Done => out is Done && rest.len() == 0,
        Step::Skip => out is Skip && rest.len() == 0,
        Step::Error(e) => out == Step::<u8, E>::Error(e) && rest.len() == 0,
    }
}

/// The UTF-8 encoding of a stream of Unicode scalar values, byte by byte.
pub struct EncodeUtf8<I> {
    iter: I,
    buf: [u8; 4],
    index: usize,
}

impl<I> EncodeUtf8<I> {
    /// The wrapped iterator.
    pub closed spec fn inner(&self) -> I {
        self.iter
    }

    /// The bytes held back: the rest of the encoding of the scalar value
    /// that was read last.
    pub closed spec fn view(&self) -> Seq<u8> {
        held(self.buf@, self.index as int)
    }
}

impl<I> EIterator for EncodeUtf8<I> where I: EIterator<Item = char> {
    type Item = u8;

    type Error = I::Error;

    open spec fn wf(&self) -> bool {
        self.inner().wf()
    }

    open spec fn fuel(&self) -> nat {
        4 * self.inner().fuel() + self@.len()
    }

    open spec fn advances(&self, next: &Self, out: Step<u8, I::Error>) -> bool {
        if self@.len() > 0 {
            &&& next.inner() == self.inner()
            &&& out == Step::<u8, I::Error>::Yield(self@.first())
            &&& next@ == self@.drop_first()
        } else {
            exists|inner: Step<char, I::Error>|
                self.inner().advances(&next.inner(), inner) && encoded(inner, out, next@)
        }
    }

    fn enext(&mut self) -> (out: Step<u8, I::Error>) {
        assert(self.inner() == self.iter && self.fuel() == 4 * self.iter.fuel() + self@.len());
        if self.index < 4 {
            let res = self.buf[self.index];
            self.index += 1;
            if self.index < 4 && self.buf[self.index] == 0 {
                self.index = 4;
            }
            assert(self.inner() == self.iter);
            assert(self@ == old(self)@.drop_first());
            Step::Yield(res)
        } else {
            let inner = self.iter.enext();
            let out = match inner {
                Step::Done => Step::Done,
                Step::Error(e) => Step::Error(e),
                Step::Skip => Step::Skip,
                Step::Yield(c) => {
                    let len = encoded_len(c);
                    encode_into(c, &mut self.buf);
                    if len > 1 {
                        self.index = 1;
                        if len < 4 {
                            self.buf[len] = 0;
                        }
                    }
                    proof {
                        let enc = utf8_bytes(c);
                        lemma_utf8_bytes_standard(c);
                        reveal_with_fuel(held, 4);
                        assert forall|i: int| 0 <= i < len implies self.buf@[i] == enc[i] by {
                            assert(self.buf@[i] == self.buf@.subrange(0, len as int)[i]);
                        }
                        assert(self@ =~= enc.drop_first());
                    }
                    Step::Yield(self.buf[0])
                },
            };
            assert(self.inner() == self.iter);
            assert(encoded(inner, out, self@));
            out
        }
    }
}

/// The number of bytes that the encoding of `c` takes.
fn encoded_len(c: char) -> (len: usize)
    ensures
        len == utf8_bytes(c).len(),
{
    let v = c as u32;
    if v < 0x80 {
        1
    } else if v < 0x800 {
        2
    } else if v < 0x10000 {
        3
    } else {
        4
    }
}

/// `utf8_bytes` is the encoding that the standard library's model of UTF-8
/// gives.
pub proof fn lemma_utf8_bytes_standard(c: char)
    ensures
        utf8_bytes(c) == encode_scalar(c as u32),
{
    let v = c as u32;
    if v < 0x80 {
        lemma_one_byte(v);
    } else if v < 0x800 {
        lemma_two_bytes(v);
    } else if v < 0x10000 {
        lemma_three_bytes(v);
    } else {
        lemma_four_bytes(v);
    }
    assert(utf8_bytes(c) =~= encode_scalar(v));
}

/// The bit masks by which the decoder tells the kinds of bytes apart select
/// the byte ranges of UTF-8, and what they leave is the payload.
proof fn lemma_byte_masks(b: u8)
    by (bit_vector)
    ensures
        b & 0b1000_0000 == 0 <==> b < 0x80,
        b & 0b1110_0000 == 0b1100_0000 <==> 0xc0 <= b < 0xe0,
        b & 0b1111_0000 == 0b1110_0000 <==> 0xe0 <= b < 0xf0,
        b & 0b1111_1000 == 0b1111_0000 <==> 0xf0 <= b < 0xf8,
        0xc0 <= b < 0xe0 ==> b & 0b0001_1111 == b - 0xc0,
        0xe0 <= b < 0xf0 ==> b & 0b0000_1111 == b - 0xe0,
        0xf0 <= b < 0xf8 ==> b & 0b0000_0111 == b - 0xf0,
{
}

/// Shifting the payload and putting in six bits more is multiplying by 64
/// and adding them.
proof fn lemma_fold(acc: u32, b: u8)
    by (bit_vector)
    ensures
        acc < 0x8000 ==> (acc << 6) | ((b as u32) & 0b0011_1111) == acc * 0x40 + b % 0x40,
{
}

proof fn lemma_one_byte(v: u32)
    by (bit_vector)
    requires
        v < 0x80,
    ensures
        (v & 0x7f) as u8 == v as u8,
{
}

proof fn lemma_two_bytes(v: u32)
    by (bit_vector)
    requires
        0x80 <= v < 0x800,
    ensures
        0xc0u8 | ((v >> 6) & 0x1f) as u8 == (0xc0 + v / 0x40) as u8,
        0x80u8 | (v & 0x3f) as u8 == (0x80 + v % 0x40) as u8,
{
}

proof fn lemma_three_bytes(v: u32)
    by (bit_vector)
    requires
        0x800 <= v < 0x10000,
    ensures
        0xe0u8 | ((v >> 12) & 0x0f) as u8 == (0xe0 + v / 0x1000) as u8,
        0x80u8 | ((v >> 6) & 0x3f) as u8 == (0x80 + v / 0x40 % 0x40) as u8,
        0x80u8 | (v & 0x3f) as u8 == (0x80 + v % 0x40) as u8,
{
}

proof fn lemma_four_bytes(v: u32)
    by (bit_vector)
    requires
        0x10000 <= v < 0x110000,
    ensures
        0xf0u8 | ((v >> 18) & 0x07) as u8 == (0xf0 + v / 0x40000) as u8,
        0x80u8 | ((v >> 12) & 0x3f) as u8 == (0x80 + v / 0x1000 % 0x40) as u8,
        0x80u8 | ((v >> 6) & 0x3f) as u8 == (0x80 + v / 0x40 % 0x40) as u8,
        0x80u8 | (v & 0x3f) as u8 == (0x80 + v % 0x40) as u8,
{
}

/// `char::encode_utf8`: writes the UTF-8 encoding of `c` to the front of
/// `buf`. Nothing is claimed of the bytes behind it.
#[verifier::external_body]
fn encode_into(c: char, buf: &mut [u8; 4])
    ensures
        final(buf)@.subrange(0, encode_scalar(c as u32).len() as int) == encode_scalar(c as u32),
{
    c.encode_utf8(buf);
}

/// `char::from_u32`: the character with the number `v`, which exists exactly
/// when `v` is a Unicode scalar value.
#[verifier::external_body]
fn scalar_from_u32(v: u32) -> (r: Option<char>)
    ensures
        r == if is_scalar(v) {
            Some(v as char)
        } else {
            None
        },
{
    char::from_u32(v)
}

} // verus!
