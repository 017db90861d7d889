//! What holds of the decoder and the encoder: single bytes, whole scalar
//! values, whole texts, and a chain of the two.

use crate::run::{
    items, lemma_items_concat, lemma_items_push, lemma_runs_push, lemma_without_skips_push, runs,
    without_skips,
};
use crate::utf8::{
    decode_byte, decode_end, decoded, encoded, idle, lemma_utf8_bytes_standard, utf8_bytes,
    DecodeUtf8, DecodeUtf8Error, DecoderState, EncodeUtf8,
};
use crate::{EIterator, Step};
use vstd::prelude::*;
use vstd::utf8::{encode_scalar, encode_utf8};

verus! {

/// The decoder's way through the bytes `bytes` from the state `s`: the state
/// after them, and the outcome for each byte.
pub open spec fn fed(s: DecoderState, bytes: Seq<u8>) -> (DecoderState, Seq<
    Step<char, DecodeUtf8Error>,
>)
    decreases bytes.len(),
{
    if bytes.len() == 0 {
        (s, Seq::empty())
    } else {
        let (mid, outs) = fed(s, bytes.drop_last());
        let (next, out) = decode_byte(mid, bytes.last());
        (next, outs.push(out))
    }
}

/// The outcomes of a fresh decoder on a stream that holds `bytes` and then
/// ends: one for each byte, and one for the end.
pub open spec fn decode_outcomes(bytes: Seq<u8>) -> Seq<Step<char, DecodeUtf8Error>> {
    fed(idle(), bytes).1.push(decode_end(fed(idle(), bytes).0))
}

/// `n` times `Skip`.
pub open spec fn skips(n: nat) -> Seq<Step<char, DecodeUtf8Error>> {
    Seq::new(n, |i: int| Step::Skip)
}

/// The UTF-8 encoding of the text `chars`.
pub open spec fn utf8_text(chars: Seq<char>) -> Seq<u8>
    decreases chars.len(),
{
    if chars.len() == 0 {
        Seq::empty()
    } else {
        utf8_text(chars.drop_last()) + utf8_bytes(chars.last())
    }
}

/// A byte below 0x80 is decoded at once, to the character with its number.
pub proof fn lemma_ascii_decodes_in_one_step(b: u8)
    requires
        b < 0x80,
    ensures
        decode_byte(idle(), b) == (idle(), Step::<char, DecodeUtf8Error>::Yield(b as char)),
        fed(idle(), seq![b]) == (idle(), seq![Step::<char, DecodeUtf8Error>::Yield(b as char)]),
{
    lemma_fed_one(idle(), b);
}

/// A stream that ends after the first byte of a sequence of two, three or
/// four bytes is refused: the decoder skips at the byte and fails at the end.
pub proof fn lemma_truncation_is_an_error(b: u8)
    requires
        0xc0 <= b < 0xf8,
    ensures
        decode_outcomes(seq![b]) == seq![
            Step::<char, DecodeUtf8Error>::Skip,
            Step::Error(DecodeUtf8Error::InvalidUtf8Codepoint),
        ],
{
    lemma_fed_one(idle(), b);
    assert(decode_outcomes(seq![b]) =~= seq![
        Step::<char, DecodeUtf8Error>::Skip,
        Step::Error(DecodeUtf8Error::InvalidUtf8Codepoint),
    ]);
}

/// The encoding of a scalar value is decoded to that value: the decoder
/// skips at every byte but the last, gives the value at the last, and is
/// then between two sequences again.
pub proof fn lemma_scalar_decodes(c: char)
    ensures
        fed(idle(), utf8_bytes(c)) == (
            idle(),
            skips((utf8_bytes(c).len() - 1) as nat).push(Step::Yield(c)),
        ),
{
    let enc = utf8_bytes(c);
    let expected = skips((enc.len() - 1) as nat).push(Step::Yield(c));
    lemma_moves_on_encoding(c);
    lemma_fed_one(idle(), enc[0]);
    if enc.len() == 1 {
        assert(enc =~= seq![enc[0]]);
        assert(fed(idle(), enc).1 =~= expected);
    } else {
        lemma_fed_push(idle(), seq![enc[0]], enc[1]);
        assert(seq![enc[0]].push(enc[1]) =~= enc.take(2));
        if enc.len() == 2 {
            assert(enc =~= enc.take(2));
            assert(fed(idle(), enc).1 =~= expected);
        } else {
            lemma_fed_push(idle(), enc.take(2), enc[2]);
            assert(enc.take(2).push(enc[2]) =~= enc.take(3));
            if enc.len() == 3 {
                assert(enc =~= enc.take(3));
                assert(fed(idle(), enc).1 =~= expected);
            } else {
                lemma_fed_push(idle(), enc.take(3), enc[3]);
                assert(enc.take(3).push(enc[3]) =~= enc);
                assert(fed(idle(), enc).1 =~= expected);
            }
        }
    }
}

/// The decoder's moves on the bytes of the encoding of `c`, one by one:
/// it skips up to the last byte, where it gives `c`.
proof fn lemma_moves_on_encoding(c: char)
    ensures
        ({
            let enc = utf8_bytes(c);
            let m0 = decode_byte(idle(), enc[0]);
            let m1 = decode_byte(m0.0, enc[1]);
            let m2 = decode_byte(m1.0, enc[2]);
            let m3 = decode_byte(m2.0, enc[3]);
            let done = (idle(), Step::<char, DecodeUtf8Error>::Yield(c));
            &&& 1 <= enc.len() <= 4
            &&& enc.len() == 1 ==> m0 == done
            &&& enc.len() == 2 ==> m0.1 is Skip && m1 == done
            &&& enc.len() == 3 ==> m0.1 is Skip && m1.1 is Skip && m2 == done
            &&& enc.len() == 4 ==> m0.1 is Skip && m1.1 is Skip && m2.1 is Skip && m3 == done
        }),
{
    let v = c as int;
    assert(v as char == c);
    if v < 0x80 {
    } else if v < 0x800 {
        lemma_moves_on_two(c);
    } else if v < 0x10000 {
        lemma_moves_on_three(c);
    } else {
        lemma_moves_on_four(c);
    }
}

/// The decoder's moves on an encoding of two bytes.
proof fn lemma_moves_on_two(c: char)
    requires
        0x80 <= (c as int) < 0x800,
    ensures
        ({
            let enc = utf8_bytes(c);
            let m0 = decode_byte(idle(), enc[0]);
            let m1 = decode_byte(m0.0, enc[1]);
            &&& enc.len() == 2
            &&& m0.1 is Skip
            &&& m1 == (idle(), Step::<char, DecodeUtf8Error>::Yield(c))
        }),
{
    let v = c as int;
    let enc = utf8_bytes(c);
    assert(v as char == c);
    assert(enc[0] == 0xc0 + v / 0x40 && enc[1] == 0x80 + v % 0x40);
    let m0 = decode_byte(idle(), enc[0]);
    assert(m0.0 == DecoderState { pending: 1, acc: (v / 0x40) as nat } && m0.1 is Skip);
    assert(enc[1] % 0x40 == v % 0x40);
    assert((v / 0x40) * 0x40 + v % 0x40 == v);
}

/// The decoder's moves on an encoding of three bytes.
proof fn lemma_moves_on_three(c: char)
    requires
        0x800 <= (c as int) < 0x10000,
    ensures
        ({
            let enc = utf8_bytes(c);
            let m0 = decode_byte(idle(), enc[0]);
            let m1 = decode_byte(m0.0, enc[1]);
            let m2 = decode_byte(m1.0, enc[2]);
            &&& enc.len() == 3
            &&& m0.1 is Skip
            &&& m1.1 is Skip
            &&& m2 == (idle(), Step::<char, DecodeUtf8Error>::Yield(c))
        }),
{
    let v = c as int;
    let enc = utf8_bytes(c);
    assert(v as char == c);
    assert(enc[0] == 0xe0 + v / 0x1000 && enc[1] == 0x80 + v / 0x40 % 0x40 && enc[2] == 0x80 + v
        % 0x40);
    let m0 = decode_byte(idle(), enc[0]);
    assert(m0.0 == DecoderState { pending: 2, acc: (v / 0x1000) as nat } && m0.1 is Skip);
    assert(enc[1] % 0x40 == v / 0x40 % 0x40);
    assert((v / 0x1000) * 0x40 + v / 0x40 % 0x40 == v / 0x40);
    let m1 = decode_byte(m0.0, enc[1]);
    assert(m1.0 == DecoderState { pending: 1, acc: (v / 0x40) as nat } && m1.1 is Skip);
    assert(enc[2] % 0x40 == v % 0x40);
    assert((v / 0x40) * 0x40 + v % 0x40 == v);
}

/// The decoder's moves on an encoding of four bytes.
proof fn lemma_moves_on_four(c: char)
    requires
        0x10000 <= (c as int),
    ensures
        ({
            let enc = utf8_bytes(c);
            let m0 = decode_byte(idle(), enc[0]);
            let m1 = decode_byte(m0.0, enc[1]);
            let m2 = decode_byte(m1.0, enc[2]);
            let m3 = decode_byte(m2.0, enc[3]);
            &&& enc.len() == 4
            &&& m0.1 is Skip
            &&& m1.1 is Skip
            &&& m2.1 is Skip
            &&& m3 == (idle(), Step::<char, DecodeUtf8Error>::Yield(c))
        }),
{
    let v = c as int;
    let enc = utf8_bytes(c);
    assert(v as char == c);
    assert(v <= 0x10ffff);
    assert(enc[0] == 0xf0 + v / 0x40000 && enc[1] == 0x80 + v / 0x1000 % 0x40 && enc[2] == 0x80 + v
        / 0x40 % 0x40 && enc[3] == 0x80 + v % 0x40);
    let m0 = decode_byte(idle(), enc[0]);
    assert(m0.0 == DecoderState { pending: 3, acc: (v / 0x40000) as nat } && m0.1 is Skip);
    assert(enc[1] % 0x40 == v / 0x1000 % 0x40);
    assert((v / 0x40000) * 0x40 + v / 0x1000 % 0x40 == v / 0x1000);
    let m1 = decode_byte(m0.0, enc[1]);
    assert(m1.0 == DecoderState { pending: 2, acc: (v / 0x1000) as nat } && m1.1 is Skip);
    assert(enc[2] % 0x40 == v / 0x40 % 0x40);
    assert((v / 0x1000) * 0x40 + v / 0x40 % 0x40 == v / 0x40);
    let m2 = decode_byte(m1.0, enc[2]);
    assert(m2.0 == DecoderState { pending: 1, acc: (v / 0x40) as nat } && m2.1 is Skip);
    assert(enc[3] % 0x40 == v % 0x40);
    assert((v / 0x40) * 0x40 + v % 0x40 == v);
}

/// Decoding undoes encoding: on the encoding of `chars` the decoder gives
/// the items `chars`, fails nowhere and ends with `Done`.
pub proof fn lemma_round_trip(chars: Seq<char>)
    ensures
        items(decode_outcomes(utf8_text(chars))) == chars,
        decode_outcomes(utf8_text(chars)).last() is Done,
        forall|i: int|
            0 <= i < decode_outcomes(utf8_text(chars)).len() ==> !(decode_outcomes(
                utf8_text(chars),
            )[i] is Error),
{
    lemma_text_decodes(chars);
    let (end, outs) = fed(idle(), utf8_text(chars));
    lemma_items_push(outs, decode_end(end));
}

/// A decoder behind an encoder gives the stream back. Take a chain of the
/// two that starts with nothing in flight, and any run of it. Then the
/// encoder's source has a run with the same outcomes, apart from `Skip`s:
/// the same items, the same errors and the same ends, in the same order.
/// This holds where the run stops between two scalar values, which is so
/// whenever it stops at `Done`, at an error or at an item.
pub proof fn lemma_chain_round_trip<I>(
    chain: DecodeUtf8<EncodeUtf8<I>>,
    outs: Seq<Step<char, I::Error>>,
    end: DecodeUtf8<EncodeUtf8<I>>,
) where I: EIterator<Item = char>, I::Error: From<DecodeUtf8Error>
    requires
        chain@ == idle(),
        chain.inner()@.len() == 0,
        runs(chain, outs, end),
        outs.len() > 0 ==> !(outs.last() is Skip),
    ensures
        exists|ins: Seq<Step<char, I::Error>>|
            runs(chain.inner().inner(), ins, end.inner().inner()) && without_skips(ins)
                == without_skips(outs),
{
    lemma_chain_in_step(chain, outs, end);
}

/// A decoder with the state `s` behind an encoder that holds back `held`
/// has made `outs` of what the encoder's source gave, `ins`: all of it but
/// the `Skip`s when nothing is held back, and all but the last scalar value
/// when its encoding is under way.
spec fn in_step<E>(
    held: Seq<u8>,
    s: DecoderState,
    ins: Seq<Step<char, E>>,
    outs: Seq<Step<char, E>>,
) -> bool {
    if held.len() == 0 {
        s == idle() && without_skips(ins) == without_skips(outs)
    } else {
        &&& ins.len() > 0 && ins.last() is Yield
        &&& outs.len() > 0 && outs.last() is Skip
        &&& without_skips(ins.drop_last()) == without_skips(outs)
        &&& {
            let enc = utf8_bytes(ins.last()->Yield_0);
            let k = enc.len() - held.len();
            &&& 1 <= k < enc.len()
            &&& held == enc.skip(k)
            &&& s == fed(idle(), enc.take(k)).0
        }
    }
}

/// Every run of a chain of an encoder and a decoder keeps the two in step
/// with a run of the encoder's source.
proof fn lemma_chain_in_step<I>(
    chain: DecodeUtf8<EncodeUtf8<I>>,
    outs: Seq<Step<char, I::Error>>,
    end: DecodeUtf8<EncodeUtf8<I>>,
) where I: EIterator<Item = char>, I::Error: From<DecodeUtf8Error>
    requires
        chain@ == idle(),
        chain.inner()@.len() == 0,
        runs(chain, outs, end),
    ensures
        exists|ins: Seq<Step<char, I::Error>>|
            runs(chain.inner().inner(), ins, end.inner().inner()) && in_step(
                end.inner()@,
                end@,
                ins,
                outs,
            ),
    decreases outs.len(),
{
    let src = chain.inner().inner();
    if outs.len() == 0 {
        let ins = Seq::<Step<char, I::Error>>::empty();
        assert(runs(src, ins, end.inner().inner()) && in_step(end.inner()@, end@, ins, outs));
    } else {
        let mid = choose|mid: DecodeUtf8<EncodeUtf8<I>>|
            runs(chain, outs.drop_last(), mid) && mid.advances(&end, outs.last());
        lemma_chain_in_step(chain, outs.drop_last(), mid);
        let ins = choose|ins: Seq<Step<char, I::Error>>|
            runs(src, ins, mid.inner().inner()) && in_step(
                mid.inner()@,
                mid@,
                ins,
                outs.drop_last(),
            );
        lemma_chain_step(src, mid, end, ins, outs.drop_last(), outs.last());
        assert(outs.drop_last().push(outs.last()) =~= outs);
    }
}

/// One call of `enext` on a chain of an encoder and a decoder keeps the two
/// in step with the encoder's source.
proof fn lemma_chain_step<I>(
    src: I,
    mid: DecodeUtf8<EncodeUtf8<I>>,
    end: DecodeUtf8<EncodeUtf8<I>>,
    ins: Seq<Step<char, I::Error>>,
    outs: Seq<Step<char, I::Error>>,
    out: Step<char, I::Error>,
) where I: EIterator<Item = char>, I::Error: From<DecodeUtf8Error>
    requires
        runs(src, ins, mid.inner().inner()),
        in_step(mid.inner()@, mid@, ins, outs),
        mid.advances(&end, out),
    ensures
        exists|more: Seq<Step<char, I::Error>>|
            runs(src, more, end.inner().inner()) && in_step(
                end.inner()@,
                end@,
                more,
                outs.push(out),
            ),
{
    let byte = choose|byte: Step<u8, I::Error>|
        mid.inner().advances(&end.inner(), byte) && decoded(mid@, byte, end@, out);
    let held = mid.inner()@;
    lemma_without_skips_push(outs, out);
    if held.len() > 0 {
        let c = ins.last()->Yield_0;
        let enc = utf8_bytes(c);
        let k = enc.len() - held.len();
        lemma_fed_push(idle(), enc.take(k), enc[k]);
        assert(enc.take(k).push(enc[k]) =~= enc.take(k + 1));
        assert(held.drop_first() =~= enc.skip(k + 1));
        assert(held.first() == enc[k]);
        lemma_fed_steps(c, k);
        if k + 1 == enc.len() {
            assert(enc.take(k + 1) =~= enc);
            assert(ins.drop_last().push(ins.last()) =~= ins);
            lemma_without_skips_push(ins.drop_last(), ins.last());
            assert(runs(src, ins, end.inner().inner()) && in_step(
                end.inner()@,
                end@,
                ins,
                outs.push(out),
            ));
        } else {
            assert(outs.push(out).last() == out);
            assert(runs(src, ins, end.inner().inner()) && in_step(
                end.inner()@,
                end@,
                ins,
                outs.push(out),
            ));
        }
    } else {
        let given = choose|given: Step<char, I::Error>|
            mid.inner().inner().advances(&end.inner().inner(), given) && encoded(
                given,
                byte,
                end.inner()@,
            );
        let more = ins.push(given);
        lemma_runs_push(src, ins, mid.inner().inner(), given, end.inner().inner());
        lemma_without_skips_push(ins, given);
        assert(more.drop_last() =~= ins);
        if let Step::Yield(c) = given {
            let enc = utf8_bytes(c);
            lemma_moves_on_encoding(c);
            lemma_fed_one(idle(), enc[0]);
            assert(enc.take(1) =~= seq![enc[0]]);
            assert(enc.drop_first() =~= enc.skip(1));
            assert(outs.push(out).last() == out);
        }
        assert(runs(src, more, end.inner().inner()) && in_step(
            end.inner()@,
            end@,
            more,
            outs.push(out),
        ));
    }
}

/// Where the decoder stands after the first `k` bytes of the encoding of
/// `c`, and what it makes of the next one.
proof fn lemma_fed_steps(c: char, k: int)
    requires
        1 <= k < utf8_bytes(c).len(),
    ensures
        ({
            let enc = utf8_bytes(c);
            let at = fed(idle(), enc.take(k)).0;
            &&& at.pending > 0
            &&& k + 1 < enc.len() ==> decode_byte(at, enc[k]).1 is Skip
            &&& k + 1 == enc.len() ==> decode_byte(at, enc[k]) == (
                idle(),
                Step::<char, DecodeUtf8Error>::Yield(c),
            )
        }),
{
    let enc = utf8_bytes(c);
    lemma_moves_on_encoding(c);
    lemma_fed_one(idle(), enc[0]);
    assert(enc.take(1) =~= seq![enc[0]]);
    if k >= 2 {
        lemma_fed_push(idle(), enc.take(1), enc[1]);
        assert(enc.take(1).push(enc[1]) =~= enc.take(2));
        if k >= 3 {
            lemma_fed_push(idle(), enc.take(2), enc[2]);
            assert(enc.take(2).push(enc[2]) =~= enc.take(3));
        }
    }
}

/// `utf8_text` is the encoding that the standard library's model of UTF-8
/// gives, which is also what the bytes of a `String` are.
pub proof fn lemma_utf8_text_standard(chars: Seq<char>)
    ensures
        utf8_text(chars) == encode_utf8(chars),
    decreases chars.len(),
{
    if chars.len() == 0 {
        assert(utf8_text(chars) =~= encode_utf8(chars));
    } else {
        lemma_utf8_text_standard(chars.drop_last());
        lemma_standard_text_push(chars.drop_last(), chars.last());
        lemma_utf8_bytes_standard(chars.last());
        assert(chars.drop_last().push(chars.last()) =~= chars);
    }
}

/// The standard model's encoding of a text with one more character at its
/// end.
proof fn lemma_standard_text_push(chars: Seq<char>, c: char)
    ensures
        encode_utf8(chars.push(c)) == encode_utf8(chars) + encode_scalar(c as u32),
    decreases chars.len(),
{
    let more = chars.push(c);
    assert(more.drop_first() =~= if chars.len() == 0 {
        Seq::empty()
    } else {
        chars.drop_first().push(c)
    });
    if chars.len() == 0 {
        assert(encode_utf8(more.drop_first()) =~= Seq::empty());
        assert(encode_utf8(more) =~= encode_utf8(chars) + encode_scalar(c as u32));
    } else {
        lemma_standard_text_push(chars.drop_first(), c);
        assert(encode_utf8(more) =~= encode_utf8(chars) + encode_scalar(c as u32));
    }
}

/// On the encoding of `chars` the decoder gives the items `chars`, fails
/// nowhere, and is between two sequences afterwards.
proof fn lemma_text_decodes(chars: Seq<char>)
    ensures
        fed(idle(), utf8_text(chars)).0 == idle(),
        items(fed(idle(), utf8_text(chars)).1) == chars,
        forall|i: int|
            0 <= i < fed(idle(), utf8_text(chars)).1.len() ==> !(#[trigger] fed(
                idle(),
                utf8_text(chars),
            ).1[i] is Error),
    decreases chars.len(),
{
    if chars.len() == 0 {
        assert(items(fed(idle(), utf8_text(chars)).1) =~= chars);
    } else {
        let c = chars.last();
        let front = chars.drop_last();
        lemma_text_decodes(front);
        lemma_scalar_decodes(c);
        lemma_fed_concat(idle(), utf8_text(front), utf8_bytes(c));
        let first = fed(idle(), utf8_text(front)).1;
        let then = skips((utf8_bytes(c).len() - 1) as nat).push(Step::Yield(c));
        lemma_items_concat(first, then);
        lemma_items_of_skips((utf8_bytes(c).len() - 1) as nat);
        lemma_items_push(skips((utf8_bytes(c).len() - 1) as nat), Step::Yield(c));
        assert(items(first + then) =~= chars);
    }
}

/// Feeding one byte is one move of the decoder.
proof fn lemma_fed_one(s: DecoderState, b: u8)
    ensures
        fed(s, seq![b]) == (decode_byte(s, b).0, seq![decode_byte(s, b).1]),
{
    lemma_fed_push(s, Seq::empty(), b);
    assert(Seq::<u8>::empty().push(b) =~= seq![b]);
    assert(Seq::<Step<char, DecodeUtf8Error>>::empty().push(decode_byte(s, b).1) =~= seq![
        decode_byte(s, b).1,
    ]);
}

/// Feeding one byte more is one more move of the decoder.
proof fn lemma_fed_push(s: DecoderState, bytes: Seq<u8>, b: u8)
    ensures
        fed(s, bytes.push(b)) == (
            decode_byte(fed(s, bytes).0, b).0,
            fed(s, bytes).1.push(decode_byte(fed(s, bytes).0, b).1),
        ),
{
    assert(bytes.push(b).drop_last() =~= bytes);
}

/// Feeding `a` and then `b` is feeding `a + b`.
proof fn lemma_fed_concat(s: DecoderState, a: Seq<u8>, b: Seq<u8>)
    ensures
        fed(s, a + b) == (fed(fed(s, a).0, b).0, fed(s, a).1 + fed(fed(s, a).0, b).1),
    decreases b.len(),
{
    if b.len() == 0 {
        assert(a + b =~= a);
        assert(fed(s, a).1 + fed(fed(s, a).0, b).1 =~= fed(s, a).1);
    } else {
        lemma_fed_concat(s, a, b.drop_last());
        assert((a + b).drop_last() =~= a + b.drop_last());
        assert(fed(s, a + b).1 =~= fed(s, a).1 + fed(fed(s, a).0, b).1);
    }
}

/// `Skip`s hold no item.
proof fn lemma_items_of_skips(n: nat)
    ensures
        items(skips(n)) == Seq::<char>::empty(),
    decreases n,
{
    if n > 0 {
        lemma_items_of_skips((n - 1) as nat);
        assert(skips(n).drop_last() =~= skips((n - 1) as nat));
    }
}

} // verus!
