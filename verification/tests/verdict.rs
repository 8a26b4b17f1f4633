use spill_ring::ring::SpillRing;
use spill_ring::spout::{CollectSpout, Spout};
use spill_ring::verdict::actionable::Actionable;
use spill_ring::verdict::frame::{append_decimal, Frame};
use spill_ring::verdict::sinks::{CountingSpout, FrameFormatter, LogSpout, StderrSpout, TeeSpout};
use spill_ring::verdict::status::{
    Dynamic, ErrorStatusValue, Permanent, Persistent, Status, Temporary,
};
use std::cell::RefCell;

#[test]
fn only_temporary_is_retryable() {
    assert!(!ErrorStatusValue::Permanent.is_retryable());
    assert!(ErrorStatusValue::Temporary.is_retryable());
    assert!(!ErrorStatusValue::Persistent.is_retryable());
}

#[test]
fn status_from_its_number() {
    assert_eq!(ErrorStatusValue::from_u32(0), Some(ErrorStatusValue::Permanent));
    assert_eq!(ErrorStatusValue::from_u32(1), Some(ErrorStatusValue::Temporary));
    assert_eq!(ErrorStatusValue::from_u32(2), Some(ErrorStatusValue::Persistent));
    assert_eq!(ErrorStatusValue::from_u32(3), None);
    assert_eq!(ErrorStatusValue::from_u32(u32::MAX), None);
}

#[test]
fn status_names() {
    assert_eq!(ErrorStatusValue::Permanent.as_str(), "permanent");
    assert_eq!(ErrorStatusValue::Temporary.as_str(), "temporary");
    assert_eq!(ErrorStatusValue::Persistent.as_str(), "persistent");
    assert_eq!(ErrorStatusValue::default(), ErrorStatusValue::Permanent);
}

#[test]
fn status_markers() {
    assert_eq!(Dynamic::value(), None);
    assert_eq!(Temporary::value(), Some(ErrorStatusValue::Temporary));
    assert_eq!(Persistent::value(), Some(ErrorStatusValue::Persistent));
    assert_eq!(Permanent::value(), Some(ErrorStatusValue::Permanent));
    assert_eq!(<Dynamic as Status>::is_retryable(), None);
    assert_eq!(<Temporary as Status>::is_retryable(), Some(true));
    assert_eq!(<Persistent as Status>::is_retryable(), Some(false));
    assert_eq!(<Permanent as Status>::is_retryable(), Some(false));
    assert_eq!(Dynamic::name(), "Dynamic");
    assert_eq!(Temporary::name(), "Temporary");
    assert_eq!(Persistent::name(), "Persistent");
    assert_eq!(Permanent::name(), "Permanent");
}

struct ApiError {
    status: u16,
}

impl Actionable for ApiError {
    fn status_value(&self) -> ErrorStatusValue {
        if self.status == 429 || self.status >= 500 {
            ErrorStatusValue::Temporary
        } else {
            ErrorStatusValue::Permanent
        }
    }
}

#[test]
fn actionable_errors_say_whether_to_retry() {
    assert!(ApiError { status: 503 }.is_retryable());
    assert!(ApiError { status: 429 }.is_retryable());
    assert!(!ApiError { status: 404 }.is_retryable());
    let by_ref = &ApiError { status: 503 };
    assert_eq!(by_ref.status_value(), ErrorStatusValue::Temporary);
    assert!(Actionable::is_retryable(&by_ref));
    let boxed: Box<ApiError> = Box::new(ApiError { status: 400 });
    assert_eq!(Actionable::status_value(&boxed), ErrorStatusValue::Permanent);
    assert!(!Actionable::is_retryable(&boxed));
    assert!(<ErrorStatusValue as Actionable>::is_retryable(&ErrorStatusValue::Temporary));
    assert_eq!(
        ErrorStatusValue::Persistent.status_value(),
        ErrorStatusValue::Persistent
    );
}

#[test]
fn frame_holds_what_it_was_made_of() {
    let frame = Frame::new("src/main.rs", 10, 5, "loading config");
    assert_eq!(frame.file(), "src/main.rs");
    assert_eq!(frame.line(), 10);
    assert_eq!(frame.column(), 5);
    assert_eq!(frame.msg(), "loading config");
    assert!(!frame.is_unlocated());
    assert_eq!(frame.to_string(), "loading config, at src/main.rs:10:5");
}

#[test]
fn frame_without_a_location_reads_as_its_message() {
    let frame = Frame::message("fetching user 42");
    assert_eq!(frame.file(), "<unknown>");
    assert_eq!(frame.line(), 0);
    assert_eq!(frame.column(), 0);
    assert_eq!(frame.msg(), "fetching user 42");
    assert!(frame.is_unlocated());
    assert_eq!(frame.to_string(), "fetching user 42");
    assert_eq!(Frame::new("<unknown>", 3, 4, "m").to_string(), "m");
}

#[test]
fn frame_writes_numbers_in_decimal() {
    assert_eq!(Frame::new("f", 0, 0, "").to_string(), ", at f:0:0");
    assert_eq!(
        Frame::new("f", u32::MAX, 1000, "m").to_string(),
        "m, at f:4294967295:1000"
    );
    let mut out = String::from("n=");
    append_decimal(&mut out, 9);
    append_decimal(&mut out, 10);
    append_decimal(&mut out, 907);
    assert_eq!(out, "n=910907");
}

#[test]
fn frames_are_equal_field_by_field() {
    let frame = Frame::new("a.rs", 1, 2, "m");
    assert_eq!(frame, frame.clone());
    assert_eq!(frame, Frame::new("a.rs", 1, 2, "m"));
    assert_ne!(frame, Frame::new("b.rs", 1, 2, "m"));
    assert_ne!(frame, Frame::new("a.rs", 9, 2, "m"));
    assert_ne!(frame, Frame::new("a.rs", 1, 9, "m"));
    assert_ne!(frame, Frame::new("a.rs", 1, 2, "n"));
}

#[test]
fn formatter_puts_one_frame_on_each_line() {
    let mut formatter = FrameFormatter::new();
    assert_eq!(formatter.as_str(), "");
    assert_eq!(formatter.count(), 0);
    formatter.send(Frame::message("first"));
    assert_eq!(formatter.as_str(), "  |-> first");
    formatter.send(Frame::new("a.rs", 1, 2, "second"));
    formatter.flush();
    assert_eq!(formatter.as_str(), "  |-> first\n  |-> second, at a.rs:1:2");
    assert_eq!(formatter.count(), 2);
    let copy = formatter.clone();
    assert_eq!(copy.count(), 2);
    assert_eq!(copy.into_string(), "  |-> first\n  |-> second, at a.rs:1:2");
}

#[test]
fn formatter_starts_over_after_clear() {
    let mut formatter = FrameFormatter::with_capacity(64);
    assert_eq!(formatter.as_str(), "");
    assert_eq!(formatter.count(), 0);
    formatter.send(Frame::message("a"));
    formatter.send(Frame::message("b"));
    formatter.clear();
    assert_eq!(formatter.as_str(), "");
    assert_eq!(formatter.count(), 0);
    formatter.send(Frame::message("c"));
    assert_eq!(formatter.into_string(), "  |-> c");
    assert_eq!(FrameFormatter::default().as_str(), "");
}

#[test]
fn counting_spout_counts() {
    let mut counter = CountingSpout::new();
    assert_eq!(counter.count(), 0);
    counter.send(1u8);
    counter.send(2u8);
    Spout::<u8>::flush(&mut counter);
    assert_eq!(counter.count(), 2);
    counter.reset();
    assert_eq!(counter.count(), 0);
    assert_eq!(CountingSpout::default().count(), 0);
}

#[test]
fn tee_sends_to_both() {
    let mut tee = TeeSpout::new(CollectSpout::new(), CountingSpout::new());
    tee.send(7u64);
    tee.send(8u64);
    tee.flush();
    {
        let (collected, counted) = tee.inner();
        assert_eq!(collected.items(), &vec![7, 8]);
        assert_eq!(counted.count(), 2);
    }
    {
        let (collected, counted) = tee.inner_mut();
        collected.send(9);
        counted.reset();
    }
    let (collected, counted) = tee.into_inner();
    assert_eq!(collected.into_items(), vec![7, 8, 9]);
    assert_eq!(counted.count(), 0);
}

#[test]
fn log_spout_calls_its_function() {
    let seen: RefCell<Vec<String>> = RefCell::new(Vec::new());
    let mut log = LogSpout(|frame: Frame| seen.borrow_mut().push(frame.to_string()));
    log.send(Frame::message("a"));
    log.send(Frame::new("f", 1, 1, "b"));
    log.flush();
    assert_eq!(*seen.borrow(), vec!["a".to_string(), "b, at f:1:1".to_string()]);
}

#[test]
fn stderr_line_names_the_overflow() {
    let spout = StderrSpout::new();
    assert_eq!(
        spout.line(&Frame::new("a.rs", 3, 9, "lost")),
        "[verdict overflow] lost, at a.rs:3:9"
    );
    assert_eq!(StderrSpout::default().line(&Frame::message("m")), "[verdict overflow] m");
}

#[test]
fn ring_of_frames_spills_into_a_formatter() {
    let mut ring: SpillRing<Frame, 2, FrameFormatter> = SpillRing::with_sink(FrameFormatter::new());
    ring.push(Frame::message("one"));
    ring.push(Frame::message("two"));
    ring.push(Frame::new("x.rs", 1, 1, "three"));
    ring.push(Frame::message("four"));
    assert_eq!(ring.sink().as_str(), "  |-> one\n  |-> two");
    assert_eq!(ring.sink().count(), 2);
    assert_eq!(ring.pop().map(|f| f.to_string()), Some("three, at x.rs:1:1".to_string()));
    assert_eq!(ring.peek().map(|f| f.msg()), Some("four"));
}
