use error_iterator::io::{sink_outcome, EIteratorIoExt, Sink, BATCH_SIZE};
use error_iterator::utf8::{DecodeUtf8Error, EIteratorUtf8Ext};
use error_iterator::{EIterator, Step, ToEIter};
use std::io::Write;

/// A source that replays a list of outcomes and then reports `Done`.
struct Script<T, E> {
    steps: Vec<Step<T, E>>,
}

impl<T, E> Script<T, E> {
    fn new(mut steps: Vec<Step<T, E>>) -> Self {
        steps.reverse();
        Script { steps }
    }
}

impl<T, E> EIterator for Script<T, E> {
    type Item = T;
    type Error = E;

    fn enext(&mut self) -> Step<T, E> {
        match self.steps.pop() {
            Some(step) => step,
            None => Step::Done,
        }
    }
}

#[derive(Debug, PartialEq)]
enum Failure {
    Source(u32),
    Sink(String),
    Decode,
}

impl From<std::io::Error> for Failure {
    fn from(e: std::io::Error) -> Failure {
        Failure::Sink(e.to_string())
    }
}

impl From<DecodeUtf8Error> for Failure {
    fn from(_: DecodeUtf8Error) -> Failure {
        Failure::Decode
    }
}

/// A writer that records every `write_all` call and fails on the call with
/// the number `fail_at`, counted from 1.
struct Recorder {
    writes: Vec<Vec<u8>>,
    calls: usize,
    fail_at: usize,
}

impl Recorder {
    fn new() -> Self {
        Recorder { writes: Vec::new(), calls: 0, fail_at: 0 }
    }

    fn failing_at(fail_at: usize) -> Self {
        Recorder { writes: Vec::new(), calls: 0, fail_at }
    }

    fn sizes(&self) -> Vec<usize> {
        self.writes.iter().map(|w| w.len()).collect()
    }
}

impl Write for Recorder {
    fn write(&mut self, buf: &[u8]) -> std::io::Result<usize> {
        self.write_all(buf).map(|_| buf.len())
    }

    fn write_all(&mut self, buf: &[u8]) -> std::io::Result<()> {
        self.calls += 1;
        if self.calls == self.fail_at {
            return Err(std::io::Error::new(std::io::ErrorKind::Other, "sink is full"));
        }
        self.writes.push(buf.to_vec());
        Ok(())
    }

    fn flush(&mut self) -> std::io::Result<()> {
        Ok(())
    }
}

fn count(n: usize) -> Vec<u8> {
    (0..n).map(|i| (i % 251) as u8).collect()
}

fn source(bytes: &[u8]) -> Script<u8, Failure> {
    Script::new(bytes.iter().map(|b| Step::Yield(*b)).collect())
}

#[test]
fn the_batch_size_is_4096() {
    assert_eq!(BATCH_SIZE, 4096);
}

#[test]
fn draining_4097_bytes_writes_4096_and_1() {
    let data = count(4097);
    let mut w = Recorder::new();
    assert_eq!(source(&data).write_to(&mut w), Ok(()));
    assert_eq!(w.calls, 2);
    assert_eq!(w.sizes(), vec![4096, 1]);
    assert_eq!(w.writes[0], data[..4096].to_vec());
    assert_eq!(w.writes[1], data[4096..].to_vec());
}

#[test]
fn draining_an_empty_stream_writes_nothing() {
    let mut w = Recorder::new();
    assert_eq!(source(&[]).write_to(&mut w), Ok(()));
    assert_eq!(w.calls, 0);
}

#[test]
fn draining_a_few_bytes_writes_them_at_the_end() {
    let mut w = Recorder::new();
    assert_eq!(source(b"abc").write_to(&mut w), Ok(()));
    assert_eq!(w.writes, vec![b"abc".to_vec()]);
}

#[test]
fn draining_one_full_batch_writes_it_once() {
    let data = count(4096);
    let mut w = Recorder::new();
    assert_eq!(source(&data).write_to(&mut w), Ok(()));
    assert_eq!(w.calls, 1);
    assert_eq!(w.writes, vec![data]);
}

#[test]
fn draining_4095_bytes_writes_one_short_batch() {
    let data = count(4095);
    let mut w = Recorder::new();
    assert_eq!(source(&data).write_to(&mut w), Ok(()));
    assert_eq!(w.sizes(), vec![4095]);
}

#[test]
fn draining_many_bytes_writes_full_batches_and_the_rest() {
    let data = count(3 * 4096 + 17);
    let mut w = Recorder::new();
    assert_eq!(source(&data).write_to(&mut w), Ok(()));
    assert_eq!(w.sizes(), vec![4096, 4096, 4096, 17]);
    assert_eq!(w.writes.concat(), data);
}

#[test]
fn draining_two_full_batches_writes_no_empty_one() {
    let data = count(2 * 4096);
    let mut w = Recorder::new();
    assert_eq!(source(&data).write_to(&mut w), Ok(()));
    assert_eq!(w.sizes(), vec![4096, 4096]);
}

#[test]
fn skips_do_not_reach_the_sink() {
    let mut steps: Vec<Step<u8, Failure>> = Vec::new();
    for b in b"hello" {
        steps.push(Step::Skip);
        steps.push(Step::Yield(*b));
        steps.push(Step::Skip);
    }
    let mut w = Recorder::new();
    assert_eq!(Script::new(steps).write_to(&mut w), Ok(()));
    assert_eq!(w.writes, vec![b"hello".to_vec()]);
}

#[test]
fn a_sink_that_fails_on_the_second_batch_fails_the_drain() {
    let data = count(3 * 4096);
    let mut w = Recorder::failing_at(2);
    let r = source(&data).write_to(&mut w);
    assert_eq!(r, Err(Failure::Sink("sink is full".to_string())));
    assert_eq!(w.calls, 2);
    assert_eq!(w.writes, vec![data[..4096].to_vec()]);
}

#[test]
fn a_sink_that_fails_on_the_last_short_batch_fails_the_drain() {
    let data = count(4097);
    let mut w = Recorder::failing_at(2);
    let r = source(&data).write_to(&mut w);
    assert_eq!(r, Err(Failure::Sink("sink is full".to_string())));
    assert_eq!(w.sizes(), vec![4096]);
}

#[test]
fn a_sink_that_fails_at_once_gets_nothing() {
    let mut w = Recorder::failing_at(1);
    let r = source(b"abc").write_to(&mut w);
    assert_eq!(r, Err(Failure::Sink("sink is full".to_string())));
    assert_eq!(w.calls, 1);
    assert!(w.writes.is_empty());
}

#[test]
fn the_drain_stops_pulling_when_the_sink_fails() {
    let data = count(3 * 4096);
    let mut pulled = 0usize;
    let mut w = Recorder::failing_at(1);
    let r = source(&data)
        .map(|b| {
            pulled += 1;
            b
        })
        .write_to(&mut w);
    assert!(r.is_err());
    assert_eq!(pulled, 4096);
}

#[test]
fn an_error_of_the_stream_ends_the_drain_and_loses_the_open_batch() {
    let mut steps: Vec<Step<u8, Failure>> = count(4096 + 10).into_iter().map(Step::Yield).collect();
    steps.push(Step::Error(Failure::Source(3)));
    steps.push(Step::Yield(1));
    let mut w = Recorder::new();
    let r = Script::new(steps).write_to(&mut w);
    assert_eq!(r, Err(Failure::Source(3)));
    assert_eq!(w.sizes(), vec![4096]);
}

#[test]
fn an_error_at_the_start_writes_nothing() {
    let steps: Vec<Step<u8, Failure>> = vec![Step::Error(Failure::Source(1)), Step::Yield(1)];
    let mut w = Recorder::new();
    assert_eq!(Script::new(steps).write_to(&mut w), Err(Failure::Source(1)));
    assert_eq!(w.calls, 0);
}

#[test]
fn a_decode_error_surfaces_through_the_drain() {
    let input: Vec<Result<u8, Failure>> = vec![Ok(0x41), Ok(0xe2), Ok(0x82)];
    let mut w = Recorder::new();
    let r = input.into_iter().eiter().decode_utf8().encode_utf8().write_to(&mut w);
    assert_eq!(r, Err(Failure::Decode));
    assert!(w.writes.is_empty());
}

#[test]
fn a_whole_chain_reproduces_its_input() {
    let input = [0x41u8, 0xe2, 0x82, 0xac, 0x42];
    let mut w = Recorder::new();
    let r = source(&input).decode_utf8().encode_utf8().write_to(&mut w);
    assert_eq!(r, Ok(()));
    assert_eq!(w.writes, vec![input.to_vec()]);
}

#[test]
fn a_whole_chain_maps_characters_on_the_way() {
    let input: Vec<Result<u8, Failure>> = "abc \u{e9}".bytes().map(Ok).collect();
    let mut out: Vec<u8> = Vec::new();
    let r = input
        .into_iter()
        .eiter()
        .decode_utf8()
        .map(|c| c.to_ascii_uppercase())
        .encode_utf8()
        .write_to(&mut out);
    assert_eq!(r, Ok(()));
    assert_eq!(out, "ABC \u{e9}".as_bytes().to_vec());
}

#[test]
fn write_to_sink_writes_to_the_writer_inside() {
    let data = count(4100);
    let mut sink = Sink::new(Recorder::new());
    assert_eq!(source(&data).write_to_sink(&mut sink), Ok(()));
    assert_eq!(source(b"xy").write_to_sink(&mut sink), Ok(()));
    let w = sink.into_inner();
    assert_eq!(w.sizes(), vec![4096, 4, 2]);
}

#[test]
fn a_sink_hands_bytes_on_and_reports_the_answer() {
    let mut sink = Sink::new(Recorder::failing_at(2));
    assert!(sink.write_all(b"one").is_ok());
    assert!(sink.write_all(b"two").is_err());
    assert!(sink.write_all(b"three").is_ok());
    let w = sink.into_inner();
    assert_eq!(w.writes, vec![b"one".to_vec(), b"three".to_vec()]);
}

#[test]
fn sink_outcome_converts_the_error_of_the_sink() {
    let ok: Result<(), Failure> = sink_outcome(Ok(()));
    assert_eq!(ok, Ok(()));
    let failed: Result<(), Failure> =
        sink_outcome(Err(std::io::Error::new(std::io::ErrorKind::Other, "no space")));
    assert_eq!(failed, Err(Failure::Sink("no space".to_string())));
}
