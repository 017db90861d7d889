//! The sink drain: writing a stream of bytes to a writer, batch by batch.
//!
//! What a writer does with its bytes is outside this library. A `Sink` keeps
//! a record of its calls of the writer, over which the drain is stated.

use crate::run::{items, lemma_items_push, lemma_runs_push, runs};
use crate::{EIterator, Step};
use std::io::Write;
use vstd::prelude::*;
use vstd::std_specs::convert::FromSpec;

verus! {

/// `std::io::Error`, the error of a writer: handed on, never looked into.
#[verifier::external_type_specification]
#[verifier::external_body]
pub struct ExIoError(std::io::Error);

/// The number of bytes that a drain hands to its sink at once.
pub const BATCH_SIZE: usize = 4096;

/// A byte sink, with the record of the batches that it was handed so far.
pub struct Sink<W> {
    out: W,
    log: Ghost<Seq<Seq<u8>>>,
    tried: Ghost<Seq<Seq<u8>>>,
}

impl<W> Sink<W> {
    /// The batches that were written without an error, in their order.
    pub closed spec fn written(&self) -> Seq<Seq<u8>> {
        self.log@
    }

    /// The writer inside.
    pub closed spec fn writer(&self) -> W {
        self.out
    }

    /// A sink to which nothing has been written yet.
    pub fn new(out: W) -> (r: Self)
        ensures
            r.writer() == out,
            r.written() == Seq::<Seq<u8>>::empty(),
            r.handed() == Seq::<Seq<u8>>::empty(),
    {
        Sink { out, log: Ghost(Seq::empty()), tried: Ghost(Seq::empty()) }
    }

    /// Gives the writer back.
    pub fn into_inner(self) -> (out: W)
        ensures
            out == self.writer(),
    {
        self.out
    }
}

impl<W: Write> Sink<W> {
    /// Hands `bytes` to the writer, which writes all of them or fails, and
    /// returns the writer's answer. The call is recorded whatever the answer.
    pub fn write_all(&mut self, bytes: &[u8]) -> (r: Result<(), std::io::Error>)
        ensures
            final(self).handed() == old(self).handed().push(bytes@),
            r is Ok ==> final(self).written() == old(self).written().push(bytes@),
            r is Err ==> final(self).written() == old(self).written(),
    {
        let r = write_all_to(&mut self.out, bytes);
        proof {
            self.tried@ = self.tried@.push(bytes@);
        }
        if r.is_ok() {
            proof {
                self.log@ = self.log@.push(bytes@);
            }
        }
        r
    }
}

impl<W> Sink<W> {
    /// The batches that were handed to the writer, in their order, whether
    /// it wrote them or failed.
    pub closed spec fn handed(&self) -> Seq<Seq<u8>> {
        self.tried@
    }
}

/// The batches in which a drain writes `bytes`: full ones, and then the
/// rest, if any is left.
pub open spec fn batches(bytes: Seq<u8>) -> Seq<Seq<u8>> {
    Seq::new(
        ((bytes.len() + BATCH_SIZE - 1) / (BATCH_SIZE as int)) as nat,
        |k: int|
            bytes.subrange(
                k * BATCH_SIZE,
                if (k + 1) * BATCH_SIZE <= bytes.len() {
                    (k + 1) * BATCH_SIZE
                } else {
                    bytes.len() as int
                },
            ),
    )
}

/// The batches of `bytes` are `bytes` cut into pieces: joined they give
/// `bytes` back, none is empty, and all but the last are full.
pub proof fn lemma_batches_cut(bytes: Seq<u8>)
    ensures
        batches(bytes).flatten() == bytes,
        forall|k: int|
            0 <= k < batches(bytes).len() ==> 0 < (#[trigger] batches(bytes)[k]).len()
                <= BATCH_SIZE,
        forall|k: int|
            0 <= k < batches(bytes).len() - 1 ==> (#[trigger] batches(bytes)[k]).len()
                == BATCH_SIZE,
    decreases bytes.len(),
{
    let all = batches(bytes);
    if bytes.len() > 0 {
        let cut = (all.len() - 1) * BATCH_SIZE;
        let front = bytes.take(cut);
        lemma_batches_cut(front);
        assert(all.drop_last() =~= batches(front)) by {
            assert forall|k: int| 0 <= k < all.len() - 1 implies all[k] == batches(front)[k] by {
                assert(all[k] =~= batches(front)[k]);
            }
        }
        assert(all.last() =~= bytes.skip(cut));
        batches(front).lemma_flatten_and_flatten_alt_are_equivalent();
        assert(all.flatten_alt() =~= front + bytes.skip(cut));
        assert(front + bytes.skip(cut) =~= bytes);
    }
    all.lemma_flatten_and_flatten_alt_are_equivalent();
}

/// The result `r` reports that the sink has failed.
pub open spec fn sink_failed<E: From<std::io::Error>>(r: Result<(), E>) -> bool {
    &&& r is Err
    &&& E::obeys_from_spec() ==> exists|cause: std::io::Error| r->Err_0 == E::from_spec(cause)
}

/// The outcomes `outs` are what a drain pulls: items and `Skip`s, and then
/// the outcome at which it stops.
pub open spec fn pulled<E>(outs: Seq<Step<u8, E>>) -> bool {
    &&& outs.len() > 0
    &&& forall|i: int| 0 <= i < outs.len() - 1 ==> outs[i] is Yield || outs[i] is Skip
}

/// How a drain that has pulled `outs` ends. It stops at the end of the
/// stream, at an error of the stream, or at an item that fills a batch
/// which the sink then refuses. The last batch can also be refused at the
/// end of the stream, when it is not full.
pub open spec fn drain_result<E: From<std::io::Error>>(
    outs: Seq<Step<u8, E>>,
    r: Result<(), E>,
) -> bool {
    let n = items(outs).len();
    match outs.last() {
        Step::Error(e) => r == Err::<(), E>(e),
        Step::Done => r is Ok || (n % (BATCH_SIZE as nat) != 0 && sink_failed(r)),
        Step::Yield(_) => n % (BATCH_SIZE as nat) == 0 && sink_failed(r),
        Step::Skip => false,
    }
}

/// What a drain that has pulled `outs` and ends with `r` has written: every
/// batch if all went well, every full batch if the stream failed, and every
/// batch but the last if the sink refused that one.
pub open spec fn drain_delivery<E>(outs: Seq<Step<u8, E>>, r: Result<(), E>) -> Seq<Seq<u8>> {
    let all = batches(items(outs));
    if outs.last() is Error {
        all.take((items(outs).len() / (BATCH_SIZE as nat)) as int)
    } else if r is Ok {
        all
    } else {
        all.drop_last()
    }
}

/// What a drain that has pulled `outs` has handed to its writer, written
/// or refused: every batch, or every full batch if the stream failed.
pub open spec fn drain_handed<E>(outs: Seq<Step<u8, E>>) -> Seq<Seq<u8>> {
    let all = batches(items(outs));
    if outs.last() is Error {
        all.take((items(outs).len() / (BATCH_SIZE as nat)) as int)
    } else {
        all
    }
}

/// What the sink's answer to a write means for the drain: it goes on, or it
/// ends with the sink's error, converted.
pub fn sink_outcome<E: From<std::io::Error>>(answer: Result<(), std::io::Error>) -> (r: Result<
    (),
    E,
>)
    ensures
        answer is Ok ==> r is Ok,
        answer is Err ==> sink_failed(r) && (E::obeys_from_spec() ==> r->Err_0 == E::from_spec(
            answer->Err_0,
        )),
{
    match answer {
        Ok(()) => Ok(()),
        Err(cause) => Err(From::from(cause)),
    }
}

/// Draining a fallible iterator of bytes into a byte sink.
pub trait EIteratorIoExt: EIterator {
    /// Writes the bytes of `self` to `hout`, in batches of `BATCH_SIZE`.
    fn write_to<W: Write>(self, hout: W) -> (r: Result<(), Self::Error>)
        where
            Self: EIterator<Item = u8>,
            Self: Sized,
            Self::Error: From<std::io::Error>,
        requires
            self.wf(),
        ensures
            exists|outs: Seq<Step<u8, Self::Error>>, end: Self|
                runs(self, outs, end) && pulled(outs) && drain_result(outs, r),
    {
        let mut sink = Sink::new(hout);
        self.write_to_sink(&mut sink)
    }

    /// Writes the bytes of `self` to `sink`, in batches of `BATCH_SIZE`: a
    /// batch as soon as it is full, and what is left at the end of the
    /// stream. Stops at the first error, of the stream or of the sink.
    fn write_to_sink<W: Write>(self, sink: &mut Sink<W>) -> (r: Result<(), Self::Error>)
        where
            Self: EIterator<Item = u8>,
            Self: Sized,
            Self::Error: From<std::io::Error>,
        requires
            self.wf(),
        ensures
            exists|outs: Seq<Step<u8, Self::Error>>, end: Self|
                runs(self, outs, end) && pulled(outs) && drain_result(outs, r)
                    && final(sink).written() == old(sink).written() + drain_delivery(outs, r)
                    && final(sink).handed() == old(sink).handed() + drain_handed(outs),
    {
        let mut buf = [0u8;BATCH_SIZE];
        let mut i: usize = 0;
        let mut iter = self;
        let ghost mut outs: Seq<Step<u8, Self::Error>> = Seq::empty();
        proof {
            lemma_filled_start(sink.written(), buf@);
            lemma_filled_start(sink.handed(), buf@);
        }
        loop
            invariant
                iter.wf(),
                runs(self, outs, iter),
                forall|k: int| 0 <= k < outs.len() ==> outs[k] is Yield || outs[k] is Skip,
                i < BATCH_SIZE,
                filled(old(sink).written(), sink.written(), items(outs), buf@, i as int),
                filled(old(sink).handed(), sink.handed(), items(outs), buf@, i as int),
            decreases iter.fuel(),
        {
            let ghost before = iter;
            let ghost earlier = outs;
            let ghost written = sink.written();
            let ghost handed = sink.handed();
            let out = iter.enext();
            proof {
                outs = earlier.push(out);
                lemma_runs_push(self, earlier, before, out, iter);
                lemma_items_push(earlier, out);
            }
            match out {
                Step::Done => {
                    let r = if i > 0 {
                        let answer = sink.write_all(&buf[0..i]);
                        sink_outcome(answer)
                    } else {
                        Ok(())
                    };
                    proof {
                        lemma_filled_end(
                            old(sink).written(),
                            written,
                            sink.written(),
                            items(outs),
                            buf@,
                            i as int,
                            r is Ok,
                        );
                        lemma_filled_end(
                            old(sink).handed(),
                            handed,
                            sink.handed(),
                            items(outs),
                            buf@,
                            i as int,
                            true,
                        );
                    }
                    return r;
                },
                Step::Skip => {},
                Step::Error(e) => {
                    return Err(e);
                },
                Step::Yield(b) => {
                    let ghost held = buf@;
                    buf[i] = b;
                    i += 1;
                    if i == BATCH_SIZE {
                        let answer = sink.write_all(&buf);
                        let r = sink_outcome(answer);
                        proof {
                            lemma_filled_full(
                                old(sink).written(),
                                written,
                                sink.written(),
                                items(earlier),
                                held,
                                b,
                                r is Ok,
                            );
                            lemma_filled_full(
                                old(sink).handed(),
                                handed,
                                sink.handed(),
                                items(earlier),
                                held,
                                b,
                                true,
                            );
                        }
                        if r.is_err() {
                            proof {
                                lemma_filled_end(
                                    old(sink).handed(),
                                    sink.handed(),
                                    sink.handed(),
                                    items(outs),
                                    buf@,
                                    0,
                                    true,
                                );
                            }
                            return r;
                        }
                        i = 0;
                    } else {
                        proof {
                            lemma_filled_more(
                                old(sink).written(),
                                sink.written(),
                                items(earlier),
                                held,
                                b,
                            );
                            lemma_filled_more(
                                old(sink).handed(),
                                sink.handed(),
                                items(earlier),
                                held,
                                b,
                            );
                        }
                    }
                },
            }
        }
    }
}

impl<I, E> EIteratorIoExt for I where I: EIterator<Item = u8, Error = E> {
}

/// The state of a drain that has pulled `bytes`: the sink has taken every
/// full batch, and the `fill` bytes after them wait in `buf`.
spec fn filled(
    before: Seq<Seq<u8>>,
    after: Seq<Seq<u8>>,
    bytes: Seq<u8>,
    buf: Seq<u8>,
    fill: int,
) -> bool {
    let full = bytes.len() / (BATCH_SIZE as nat);
    &&& buf.len() == BATCH_SIZE
    &&& fill == bytes.len() % (BATCH_SIZE as nat)
    &&& after == before + batches(bytes).take(full as int)
    &&& buf.take(fill) == bytes.skip(full * BATCH_SIZE)
}

/// A drain starts with nothing pulled and nothing in its buffer.
proof fn lemma_filled_start(log: Seq<Seq<u8>>, buf: Seq<u8>)
    requires
        buf.len() == BATCH_SIZE,
    ensures
        filled(log, log, Seq::empty(), buf, 0),
{
    let bytes = Seq::<u8>::empty();
    assert(batches(bytes).take(0) =~= Seq::empty());
    assert(log + batches(bytes).take(0) =~= log);
    assert(buf.take(0) =~= bytes.skip(0));
}

/// One more byte that does not fill the batch only lengthens what waits.
proof fn lemma_filled_more(
    before: Seq<Seq<u8>>,
    after: Seq<Seq<u8>>,
    bytes: Seq<u8>,
    buf: Seq<u8>,
    b: u8,
)
    requires
        filled(before, after, bytes, buf, (bytes.len() % (BATCH_SIZE as nat)) as int),
        bytes.len() % (BATCH_SIZE as nat) + 1 < BATCH_SIZE,
    ensures
        filled(
            before,
            after,
            bytes.push(b),
            buf.update((bytes.len() % (BATCH_SIZE as nat)) as int, b),
            (bytes.len() % (BATCH_SIZE as nat)) as int + 1,
        ),
{
    let full = (bytes.len() / (BATCH_SIZE as nat)) as int;
    let fill = (bytes.len() % (BATCH_SIZE as nat)) as int;
    let more = bytes.push(b);
    assert(more.take(bytes.len() as int) =~= bytes);
    lemma_full_batches_stay(bytes, more);
    assert(buf.update(fill, b).take(fill + 1) =~= more.skip(full * BATCH_SIZE)) by {
        assert forall|j: int| 0 <= j < fill implies #[trigger] buf[j] == bytes.skip(
            full * BATCH_SIZE,
        )[j] by {
            assert(buf.take(fill)[j] == buf[j]);
        }
    }
}

/// The byte that fills the batch makes the buffer the next batch: if the
/// sink takes it, the buffer is free again.
proof fn lemma_filled_full(
    before: Seq<Seq<u8>>,
    mid: Seq<Seq<u8>>,
    after: Seq<Seq<u8>>,
    bytes: Seq<u8>,
    buf: Seq<u8>,
    b: u8,
    taken: bool,
)
    requires
        bytes.len() % (BATCH_SIZE as nat) + 1 == BATCH_SIZE,
        filled(before, mid, bytes, buf, BATCH_SIZE - 1),
        after == if taken {
            mid.push(buf.update(BATCH_SIZE - 1, b))
        } else {
            mid
        },
    ensures
        bytes.push(b).len() % (BATCH_SIZE as nat) == 0,
        taken ==> filled(before, after, bytes.push(b), buf.update(BATCH_SIZE - 1, b), 0),
        !taken ==> after == before + batches(bytes.push(b)).drop_last(),
{
    let full = (bytes.len() / (BATCH_SIZE as nat)) as int;
    let more = bytes.push(b);
    let last = buf.update(BATCH_SIZE - 1, b);
    assert(more.take(bytes.len() as int) =~= bytes);
    lemma_full_batches_stay(bytes, more);
    assert(batches(more).len() == full + 1);
    assert(last =~= batches(more)[full]) by {
        assert forall|j: int| 0 <= j < BATCH_SIZE - 1 implies #[trigger] buf[j] == bytes.skip(
            full * BATCH_SIZE,
        )[j] by {
            assert(buf.take(BATCH_SIZE - 1)[j] == buf[j]);
        }
    }
    assert(batches(more).drop_last() =~= batches(more).take(full));
    assert(batches(more).take(full).push(last) =~= batches(more).take(full + 1));
    if taken {
        assert(after =~= before + batches(more).take(full + 1));
        assert(last.take(0) =~= more.skip((full + 1) * BATCH_SIZE));
    }
}

/// At the end of the stream, what waits in the buffer is the last batch.
proof fn lemma_filled_end(
    before: Seq<Seq<u8>>,
    mid: Seq<Seq<u8>>,
    after: Seq<Seq<u8>>,
    bytes: Seq<u8>,
    buf: Seq<u8>,
    fill: int,
    taken: bool,
)
    requires
        fill == 0 ==> taken,
        filled(before, mid, bytes, buf, fill),
        after == if taken && fill > 0 {
            mid.push(buf.subrange(0, fill))
        } else {
            mid
        },
    ensures
        fill == bytes.len() % (BATCH_SIZE as nat),
        taken ==> after == before + batches(bytes),
        !taken ==> after == before + batches(bytes).drop_last(),
{
    let full = (bytes.len() / (BATCH_SIZE as nat)) as int;
    if fill > 0 {
        assert(batches(bytes).len() == full + 1);
        assert(buf.subrange(0, fill) =~= batches(bytes)[full]) by {
            assert(buf.subrange(0, fill) =~= buf.take(fill));
        }
        assert(batches(bytes).drop_last() =~= batches(bytes).take(full));
        assert(batches(bytes).take(full).push(batches(bytes)[full]) =~= batches(bytes));
        if taken {
            assert(after =~= before + batches(bytes));
        }
    } else {
        assert(batches(bytes).len() == full);
        assert(batches(bytes).take(full) =~= batches(bytes));
    }
}

/// More bytes leave the full batches as they are.
proof fn lemma_full_batches_stay(bytes: Seq<u8>, more: Seq<u8>)
    requires
        bytes.len() <= more.len(),
        more.take(bytes.len() as int) == bytes,
    ensures
        batches(more).take((bytes.len() / (BATCH_SIZE as nat)) as int) == batches(bytes).take(
            (bytes.len() / (BATCH_SIZE as nat)) as int,
        ),
{
    let full = (bytes.len() / (BATCH_SIZE as nat)) as int;
    assert forall|k: int| 0 <= k < full implies batches(more)[k] == batches(bytes)[k] by {
        assert(batches(more)[k] =~= batches(bytes)[k]) by {
            assert forall|x: int| 0 <= x < bytes.len() implies #[trigger] more[x] == bytes[x] by {
                assert(more.take(bytes.len() as int)[x] == more[x]);
            }
        }
    }
    assert(batches(more).take(full) =~= batches(bytes).take(full));
}

/// `std::io::Write::write_all`: hands `bytes` to the writer. Whether the
/// writer takes them is its own affair, so nothing is stated of the result.
#[verifier::external_body]
fn write_all_to<W: Write>(out: &mut W, bytes: &[u8]) -> Result<(), std::io::Error> {
    out.write_all(bytes)
}

} // verus!
