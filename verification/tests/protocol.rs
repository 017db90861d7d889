use error_iterator::{EIterator, Step, ToEIter};

/// A source that replays a list of outcomes and then reports `Done`.
struct Script<T, E> {
    steps: Vec<Step<T, E>>,
}

impl<T, E> Script<T, E> {
    fn new(mut steps: Vec<Step<T, E>>) -> Self {
        steps.reverse();
        Script { steps }
    }
}

impl<T, E> EIterator for Script<T, E> {
    type Item = T;
    type Error = E;

    fn enext(&mut self) -> Step<T, E> {
        match self.steps.pop() {
            Some(step) => step,
            None => Step::Done,
        }
    }
}

#[derive(Debug, PartialEq)]
struct Low(u8);

#[derive(Debug, PartialEq)]
struct High(u32);

impl From<Low> for High {
    fn from(e: Low) -> High {
        High(1000 + e.0 as u32)
    }
}

/// The kind of each outcome: 'D', 'Y', 'S' or 'E'.
fn kinds<I: EIterator>(mut it: I, n: usize) -> String {
    let mut s = String::new();
    for _ in 0..n {
        s.push(match it.enext() {
            Step::Done => 'D',
            Step::Yield(_) => 'Y',
            Step::Skip => 'S',
            Step::Error(_) => 'E',
        });
    }
    s
}

fn sample() -> Vec<Step<u8, Low>> {
    vec![Step::Skip, Step::Yield(1), Step::Skip, Step::Skip, Step::Error(Low(9)), Step::Yield(2), Step::Done]
}

#[test]
fn scripted_source_replays_its_outcomes() {
    let mut s = Script::new(sample());
    assert!(matches!(s.enext(), Step::Skip));
    assert!(matches!(s.enext(), Step::Yield(1)));
    assert!(matches!(s.enext(), Step::Skip));
    assert!(matches!(s.enext(), Step::Skip));
    assert!(matches!(s.enext(), Step::Error(Low(9))));
    assert!(matches!(s.enext(), Step::Yield(2)));
    assert!(matches!(s.enext(), Step::Done));
    assert!(matches!(s.enext(), Step::Done));
}

#[test]
fn step_hands_an_item_to_the_function() {
    let mut s: Script<u8, Low> = Script::new(vec![Step::Yield(20), Step::Yield(21)]);
    let out: Step<u32, High> = s.step(|x| Step::Yield(x as u32 * 2));
    assert!(matches!(out, Step::Yield(40)));
    let out: Step<u32, High> = s.step(|_| Step::Skip);
    assert!(matches!(out, Step::Skip));
}

#[test]
fn step_passes_done_and_skip_and_converts_an_error() {
    let mut s: Script<u8, Low> = Script::new(vec![Step::Skip, Step::Error(Low(3)), Step::Done]);
    let mut calls = 0;
    let out: Step<u32, High> = s.step(|x| {
        calls += 1;
        Step::Yield(x as u32)
    });
    assert!(matches!(out, Step::Skip));
    let out: Step<u32, High> = s.step(|x| Step::Yield(x as u32));
    assert!(matches!(out, Step::Error(High(1003))));
    let out: Step<u32, High> = s.step(|x| Step::Yield(x as u32));
    assert!(matches!(out, Step::Done));
    assert_eq!(calls, 0);
}

#[test]
fn step_option_asks_the_function_at_the_end() {
    let mut s: Script<u8, Low> = Script::new(vec![Step::Yield(5), Step::Skip, Step::Error(Low(1)), Step::Done]);
    let f = |x: Option<u8>| -> Step<u32, High> {
        match x {
            Some(v) => Step::Yield(v as u32 + 1),
            None => Step::Yield(77),
        }
    };
    assert!(matches!(s.step_option(f), Step::Yield(6)));
    assert!(matches!(s.step_option(f), Step::Skip));
    assert!(matches!(s.step_option(f), Step::Error(High(1001))));
    assert!(matches!(s.step_option(f), Step::Yield(77)));
}

#[test]
fn map_applies_the_function_to_each_item() {
    let mut m = Script::new(sample()).map(|x| x as u32 * 10);
    assert!(matches!(m.enext(), Step::Skip));
    assert!(matches!(m.enext(), Step::Yield(10)));
    assert!(matches!(m.enext(), Step::Skip));
    assert!(matches!(m.enext(), Step::Skip));
    assert!(matches!(m.enext(), Step::Error(Low(9))));
    assert!(matches!(m.enext(), Step::Yield(20)));
    assert!(matches!(m.enext(), Step::Done));
}

#[test]
fn map_may_change_the_item_type_and_keep_state() {
    let mut seen = 0u32;
    let mut m = Script::<u8, Low>::new(vec![Step::Yield(1), Step::Yield(2), Step::Yield(3)]).map(|x| {
        seen += x as u32;
        format!("{}:{}", x, seen)
    });
    assert!(matches!(m.enext(), Step::Yield(s) if s == "1:1"));
    assert!(matches!(m.enext(), Step::Yield(s) if s == "2:3"));
    assert!(matches!(m.enext(), Step::Yield(s) if s == "3:6"));
    assert!(matches!(m.enext(), Step::Done));
}

#[test]
fn map_error_applies_the_function_to_each_error() {
    let mut m = Script::new(sample()).map_error(|e: Low| format!("low {}", e.0));
    assert!(matches!(m.enext(), Step::Skip));
    assert!(matches!(m.enext(), Step::Yield(1)));
    assert!(matches!(m.enext(), Step::Skip));
    assert!(matches!(m.enext(), Step::Skip));
    assert!(matches!(m.enext(), Step::Error(s) if s == "low 9"));
    assert!(matches!(m.enext(), Step::Yield(2)));
    assert!(matches!(m.enext(), Step::Done));
}

#[test]
fn map_error_from_uses_the_standard_conversion() {
    let mut m = Script::new(sample()).map_error_from::<High>();
    assert!(matches!(m.enext(), Step::Skip));
    assert!(matches!(m.enext(), Step::Yield(1)));
    assert!(matches!(m.enext(), Step::Skip));
    assert!(matches!(m.enext(), Step::Skip));
    assert!(matches!(m.enext(), Step::Error(High(1009))));
    assert!(matches!(m.enext(), Step::Yield(2)));
    assert!(matches!(m.enext(), Step::Done));
}

#[test]
fn maps_leave_skip_and_done_where_they_are() {
    let script = || -> Script<u8, Low> {
        Script::new(vec![Step::Skip, Step::Skip, Step::Done, Step::Skip, Step::Done, Step::Done, Step::Skip])
    };
    let plain = kinds(script(), 9);
    assert_eq!(plain, "SSDSDDSDD");
    assert_eq!(kinds(script().map(|x| x + 1), 9), plain);
    assert_eq!(kinds(script().map_error(|e: Low| e.0), 9), plain);
    assert_eq!(kinds(script().map_error_from::<High>(), 9), plain);
    assert_eq!(kinds(script().map(|x| x + 1).map_error(|e: Low| e.0).map(|x| x as u32), 9), plain);
}

#[test]
fn maps_keep_the_kind_of_every_outcome() {
    let plain = kinds(Script::new(sample()), 8);
    assert_eq!(plain, "SYSSEYDD");
    assert_eq!(kinds(Script::new(sample()).map(|x| x + 1), 8), plain);
    assert_eq!(kinds(Script::new(sample()).map_error(|e: Low| e.0), 8), plain);
}

#[test]
fn iter_absorbs_skips() {
    let mut it = Script::new(sample()).iter();
    assert_eq!(it.next(), Some(Ok(1)));
    assert_eq!(it.next(), Some(Err(Low(9))));
    assert_eq!(it.next(), Some(Ok(2)));
    assert_eq!(it.next(), None);
}

#[test]
fn iter_ends_at_done_after_skips_only() {
    let mut it = Script::<u8, Low>::new(vec![Step::Skip, Step::Skip, Step::Skip, Step::Done, Step::Yield(1)]).iter();
    assert_eq!(it.next(), None);
    assert_eq!(it.next(), Some(Ok(1)));
}

#[test]
fn iter_of_an_empty_stream_is_empty() {
    let mut it = Script::<u8, Low>::new(vec![]).iter();
    assert_eq!(it.next(), None);
}

#[test]
fn eiter_yields_successes_and_fails_on_failures() {
    let items: Vec<Result<u8, Low>> = vec![Ok(1), Err(Low(4)), Ok(2)];
    let mut it = items.into_iter().eiter();
    assert!(matches!(it.enext(), Step::Yield(1)));
    assert!(matches!(it.enext(), Step::Error(Low(4))));
    assert!(matches!(it.enext(), Step::Yield(2)));
    assert!(matches!(it.enext(), Step::Done));
    assert!(matches!(it.enext(), Step::Done));
}

#[test]
fn eiter_never_skips() {
    let items: Vec<Result<u8, Low>> = (0..50u8).map(|i| if i % 7 == 3 { Err(Low(i)) } else { Ok(i) }).collect();
    let s = kinds(items.into_iter().eiter(), 52);
    assert!(!s.contains('S'));
    assert_eq!(s.matches('E').count(), 7);
    assert_eq!(s.matches('Y').count(), 43);
    assert!(s.ends_with("DD"));
}

#[test]
fn eiter_and_iter_undo_each_other() {
    let items: Vec<Result<u8, Low>> = vec![Ok(1), Err(Low(4)), Ok(2)];
    let mut it = items.into_iter().eiter().iter();
    assert_eq!(it.next(), Some(Ok(1)));
    assert_eq!(it.next(), Some(Err(Low(4))));
    assert_eq!(it.next(), Some(Ok(2)));
    assert_eq!(it.next(), None);
}
