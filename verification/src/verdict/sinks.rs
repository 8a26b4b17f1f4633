//! Custom spout implementations for frame overflow handling.

use vstd::prelude::*;
use vstd::string::StringExecFns;
use crate::verdict::frame::Frame;
use crate::spout::Spout;

verus! {

/// What stands before each frame in formatted output.
pub open spec fn frame_prefix() -> Seq<char> {
    "  |-> "@
}

/// What stands between two frames in formatted output.
pub open spec fn frame_separator() -> Seq<char> {
    "\n"@
}

/// What stands before each frame that is written to standard error.
pub open spec fn overflow_prefix() -> Seq<char> {
    "[verdict overflow] "@
}

/// An empty string with room for `capacity` bytes.
///
/// Calls `String::with_capacity`, which returns an empty string and does
/// not allocate again until more than `capacity` bytes were pushed.
#[verifier::external_body]
fn string_with_capacity(capacity: usize) -> (s: String)
    ensures
        s@ == Seq::<char>::empty(),
{
    String::with_capacity(capacity)
}

/// Empties a string and keeps its allocation.
///
/// Calls `String::clear`, which truncates the string to length zero.
#[verifier::external_body]
fn clear_string(s: &mut String)
    ensures
        final(s)@ == Seq::<char>::empty(),
{
    s.clear()
}

/// A spout that formats frames to a string buffer.
///
/// Useful for collecting overflow frames as formatted text.
#[derive(Debug)]
pub struct FrameFormatter {
    buffer: String,
    count: usize,
}

/// A frame formatter as its contracts see it.
pub struct FormatterView {
    pub text: Seq<char>,
    pub count: usize,
}

impl View for FrameFormatter {
    type V = FormatterView;

    closed spec fn view(&self) -> FormatterView {
        FormatterView { text: self.buffer@, count: self.count }
    }
}

impl Clone for FrameFormatter {
    fn clone(&self) -> (copy: Self)
        ensures
            copy@ == self@,
    {
        FrameFormatter { buffer: self.buffer.clone(), count: self.count }
    }
}

impl Default for FrameFormatter {
    fn default() -> (formatter: Self)
        ensures
            formatter@ == (FormatterView { text: Seq::empty(), count: 0 }),
    {
        FrameFormatter { buffer: String::new(), count: 0 }
    }
}

impl FrameFormatter {
    /// Create a new empty formatter.
    pub fn new() -> (formatter: Self)
        ensures
            formatter@ == (FormatterView { text: Seq::empty(), count: 0 }),
    {
        FrameFormatter { buffer: String::new(), count: 0 }
    }

    /// Create with pre-allocated capacity.
    pub fn with_capacity(capacity: usize) -> (formatter: Self)
        ensures
            formatter@ == (FormatterView { text: Seq::empty(), count: 0 }),
    {
        FrameFormatter { buffer: string_with_capacity(capacity), count: 0 }
    }

    /// Get the formatted output.
    pub fn as_str(&self) -> (text: &str)
        ensures
            text@ == self@.text,
    {
        self.buffer.as_str()
    }

    /// Get the number of frames formatted.
    pub fn count(&self) -> (count: usize)
        ensures
            count == self@.count,
    {
        self.count
    }

    /// Consume and return the buffer.
    pub fn into_string(self) -> (text: String)
        ensures
            text@ == self@.text,
    {
        self.buffer
    }

    /// Clear the buffer.
    pub fn clear(&mut self)
        ensures
            final(self)@ == (FormatterView { text: Seq::empty(), count: 0 }),
    {
        clear_string(&mut self.buffer);
        self.count = 0;
    }
}

/// The text of a formatter after one more frame: a new line unless the
/// frame is the first, the prefix, and the frame as it reads.
pub open spec fn formatted_with(text: Seq<char>, count: usize, frame: Seq<char>) -> Seq<char> {
    if count > 0 {
        text + frame_separator() + frame_prefix() + frame
    } else {
        text + frame_prefix() + frame
    }
}

impl Spout<Frame> for FrameFormatter {
    open spec fn wf(&self) -> bool {
        true
    }

    open spec fn accepts(&self, item: Frame, next: &Self) -> bool {
        &&& next@.text == formatted_with(self@.text, self@.count, item@.text())
        &&& next@.count == vstd::wrapping::usize_specs::wrapping_add(self@.count, 1)
    }

    open spec fn settles(&self, next: &Self) -> bool {
        next@ == self@
    }

    fn send(&mut self, frame: Frame) {
        if self.count > 0 {
            self.buffer.append("\n");
        }
        self.buffer.append("  |-> ");
        frame.write_to(&mut self.buffer);
        self.count = self.count.wrapping_add(1);
        proof {
            assert(self.buffer@ =~= formatted_with(
                old(self).buffer@,
                old(self).count,
                frame@.text(),
            ));
        }
    }

    fn flush(&mut self) {
    }
}

/// A spout that counts items without storing them.
///
/// Useful for metrics when you only need to know how many frames overflowed.
/// The count starts again from zero past the largest number.
#[derive(Debug)]
pub struct CountingSpout {
    count: usize,
}

impl View for CountingSpout {
    type V = usize;

    closed spec fn view(&self) -> usize {
        self.count
    }
}

impl Default for CountingSpout {
    fn default() -> (spout: Self)
        ensures
            spout@ == 0,
    {
        CountingSpout { count: 0 }
    }
}

impl CountingSpout {
    /// Create a new counter.
    pub fn new() -> (spout: Self)
        ensures
            spout@ == 0,
    {
        CountingSpout { count: 0 }
    }

    /// Get the current count.
    pub fn count(&self) -> (count: usize)
        ensures
            count == self@,
    {
        self.count
    }

    /// Reset the counter to zero.
    pub fn reset(&mut self)
        ensures
            final(self)@ == 0,
    {
        self.count = 0;
    }
}

impl<T> Spout<T> for CountingSpout {
    open spec fn wf(&self) -> bool {
        true
    }

    open spec fn accepts(&self, item: T, next: &Self) -> bool {
        next@ == vstd::wrapping::usize_specs::wrapping_add(self@, 1)
    }

    open spec fn settles(&self, next: &Self) -> bool {
        next@ == self@
    }

    fn send(&mut self, _item: T) {
        self.count = self.count.wrapping_add(1);
    }

    fn flush(&mut self) {
    }
}

/// What a counting spout shows after a run of sends that does not take it
/// past the largest number: that many more.
pub proof fn lemma_counting_sent_all<T>(pre: CountingSpout, items: Seq<T>, post: CountingSpout)
    requires
        crate::spout::sent_all(pre, items, post),
        pre@ + items.len() <= usize::MAX,
    ensures
        post@ == pre@ + items.len(),
    decreases items.len(),
{
    if items.len() > 0 {
        let mid = choose|mid: CountingSpout|
            crate::spout::sent_all(pre, items.drop_last(), mid) && Spout::<T>::wf(&mid)
                && #[trigger] mid.accepts(items.last(), &post);
        lemma_counting_sent_all(pre, items.drop_last(), mid);
    }
}

/// A spout for frames that are to go to standard error. It says what is
/// written for a frame; the writing is left to the program.
#[derive(Debug, Clone, Copy)]
pub struct StderrSpout;

impl Default for StderrSpout {
    fn default() -> (spout: Self) {
        StderrSpout
    }
}

impl StderrSpout {
    /// Create a new stderr spout.
    pub fn new() -> (spout: Self) {
        StderrSpout
    }

    /// The line that is written for a frame, without its line end.
    pub fn line(&self, frame: &Frame) -> (line: String)
        ensures
            line@ == overflow_prefix() + frame@.text(),
    {
        let mut line = String::from_str("[verdict overflow] ");
        frame.write_to(&mut line);
        line
    }
}

/// A spout that logs frames via a custom function.
#[derive(Debug, Clone, Copy)]
pub struct LogSpout<F>(pub F);

impl<F: Fn(Frame)> Spout<Frame> for LogSpout<F> {
    open spec fn wf(&self) -> bool {
        forall|frame: Frame| call_requires(self.0, (frame,))
    }

    open spec fn accepts(&self, item: Frame, next: &Self) -> bool {
        &&& call_ensures(self.0, (item,), ())
        &&& *next == *self
    }

    open spec fn settles(&self, next: &Self) -> bool {
        *next == *self
    }

    fn send(&mut self, frame: Frame) {
        (self.0)(frame);
    }

    fn flush(&mut self) {
    }
}

/// Compose two spouts, sending to both (tee pattern).
///
/// Useful when you want to both log and collect overflow frames.
#[derive(Debug, Clone)]
pub struct TeeSpout<A, B> {
    a: A,
    b: B,
}

impl<A, B> View for TeeSpout<A, B> {
    type V = (A, B);

    closed spec fn view(&self) -> (A, B) {
        (self.a, self.b)
    }
}

impl<A, B> TeeSpout<A, B> {
    /// Create a tee that sends to both spouts.
    pub fn new(a: A, b: B) -> (tee: Self)
        ensures
            tee@ == (a, b),
    {
        Self { a, b }
    }

    /// Get references to both inner spouts.
    pub fn inner(&self) -> (both: (&A, &B))
        ensures
            *both.0 == self@.0,
            *both.1 == self@.1,
    {
        (&self.a, &self.b)
    }

    /// Get mutable references to both inner spouts.
    pub fn inner_mut(&mut self) -> (both: (&mut A, &mut B))
        ensures
            *both.0 == old(self)@.0,
            *both.1 == old(self)@.1,
            final(self)@ == (*final(both.0), *final(both.1)),
    {
        (&mut self.a, &mut self.b)
    }

    /// Consume and return both inner spouts.
    pub fn into_inner(self) -> (both: (A, B))
        ensures
            both == self@,
    {
        (self.a, self.b)
    }
}

impl<T: Clone, A: Spout<T>, B: Spout<T>> Spout<T> for TeeSpout<A, B> {
    open spec fn wf(&self) -> bool {
        self@.0.wf() && self@.1.wf()
    }

    open spec fn accepts(&self, item: T, next: &Self) -> bool {
        exists|copy: T|
            cloned(item, copy) && #[trigger] self@.0.accepts(copy, &next@.0) && self@.1.accepts(
                item,
                &next@.1,
            )
    }

    open spec fn settles(&self, next: &Self) -> bool {
        self@.0.settles(&next@.0) && self@.1.settles(&next@.1)
    }

    fn send(&mut self, item: T) {
        let copy = item.clone();
        self.a.send(copy);
        self.b.send(item);
        proof {
            assert(old(self)@.0.accepts(copy, &self@.0));
        }
    }

    fn flush(&mut self) {
        self.a.flush();
        self.b.flush();
    }
}

} // verus!
