//! Counting the lines of a byte stream, whole or chunk by chunk. Only text
//! has lines: content that is no valid UTF-8 is refused, not counted.

use crate::text::ends_begun;
use crate::text::is_text;
use crate::text::lemma_reading_behind_text;
use crate::text::lemma_text_reads_whole;
use crate::text::lemma_unfinished_reads_so;
use crate::text::read_on;
use crate::text::reading;
use crate::text::unfinished;
use crate::text::Reading;
use vstd::prelude::*;

verus! {

/// The byte that ends a line.
pub const NEWLINE: u8 = 10;

/// How many line terminators `bytes` holds.
pub open spec fn newline_count(bytes: Seq<u8>) -> nat
    decreases bytes.len(),
{
    if bytes.len() == 0 {
        0
    } else {
        newline_count(bytes.drop_last()) + if bytes.last() == NEWLINE {
            1nat
        } else {
            0nat
        }
    }
}

/// Whether `bytes` ends inside a line: it is not empty and its last byte is
/// no terminator.
pub open spec fn ends_open(bytes: Seq<u8>) -> bool {
    bytes.len() > 0 && bytes.last() != NEWLINE
}

/// The number of lines in `bytes`: one per terminator, and one more for
/// text after the last terminator.
pub open spec fn line_count(bytes: Seq<u8>) -> nat {
    newline_count(bytes) + if ends_open(bytes) {
        1nat
    } else {
        0nat
    }
}

/// A stream never holds more terminators than bytes.
pub proof fn lemma_newline_count_bound(bytes: Seq<u8>)
    ensures
        newline_count(bytes) <= bytes.len(),
        ends_open(bytes) ==> newline_count(bytes) < bytes.len(),
    decreases bytes.len(),
{
    if bytes.len() > 0 {
        lemma_newline_count_bound(bytes.drop_last());
    }
}

/// Terminators of a concatenation are those of its two parts.
pub proof fn lemma_newline_count_concat(a: Seq<u8>, b: Seq<u8>)
    ensures
        newline_count(a + b) == newline_count(a) + newline_count(b),
    decreases b.len(),
{
    if b.len() > 0 {
        assert((a + b).drop_last() =~= a + b.drop_last());
        lemma_newline_count_concat(a, b.drop_last());
    }
}

/// Counts the line terminators of `bytes`.
fn count_newlines(bytes: &[u8]) -> (n: usize)
    ensures
        n == newline_count(bytes@),
{
    let mut n: usize = 0;
    let mut i: usize = 0;
    while i < bytes.len()
        invariant
            i <= bytes.len(),
            n == newline_count(bytes@.take(i as int)),
            n <= i,
        decreases bytes.len() - i,
    {
        proof {
            assert(bytes@.take(i + 1).drop_last() =~= bytes@.take(i as int));
        }
        if bytes[i] == NEWLINE {
            n = n + 1;
        }
        i = i + 1;
    }
    proof {
        assert(bytes@.take(i as int) =~= bytes@);
    }
    n
}

/// Counts the lines of a whole content held in memory. Content that is no
/// text has no count.
pub fn count_lines(bytes: &[u8]) -> (counted: Option<usize>)
    ensures
        counted == if is_text(bytes@) {
            Some(line_count(bytes@) as usize)
        } else {
            None::<usize>
        },
{
    let mut counter = LineCounter::new();
    let length = bytes.len();
    proof {
        assert(Seq::<u8>::empty() + bytes@ =~= bytes@);
        lemma_text_reads_whole(bytes@);
        lemma_newline_count_bound(bytes@);
        assert(line_count(bytes@) <= length);
    }
    match counter.feed(bytes) {
        Fed::Taken => counter.finish(),
        _ => None,
    }
}

/// What became of a chunk that was fed to a counter.
#[derive(Clone, Copy, Debug, PartialEq, Eq, Structural)]
pub enum Fed {
    /// The chunk was taken.
    Taken,
    /// With the chunk the stream would hold more lines than the machine's
    /// word can count.
    TooManyLines,
    /// With the chunk the stream would hold bytes that are part of no
    /// character: it is no text.
    NotText,
}

/// What becomes of `chunk` when it is fed behind `before`.
pub open spec fn fed_as(before: Seq<u8>, chunk: Seq<u8>) -> Fed {
    if reading(before + chunk) == Reading::Broken {
        Fed::NotText
    } else if line_count(before + chunk) > usize::MAX {
        Fed::TooManyLines
    } else {
        Fed::Taken
    }
}

/// Where a stream is cut into chunks makes no difference to what becomes
/// of it.
pub proof fn lemma_fed_in_parts(before: Seq<u8>, first: Seq<u8>, second: Seq<u8>)
    ensures
        fed_as(before + first, second) == fed_as(before, first + second),
{
    assert((before + first) + second =~= before + (first + second));
}

/// Counts the lines of a stream that arrives in chunks. A chunk may end
/// inside a character; the next chunk then goes on with it.
pub struct LineCounter {
    terminated: usize,
    open: bool,
    begun: Vec<u8>,
    fed: Ghost<Seq<u8>>,
}

impl View for LineCounter {
    type V = Seq<u8>;

    /// The bytes of the chunks taken so far, in order.
    closed spec fn view(&self) -> Seq<u8> {
        self.fed@
    }
}

impl LineCounter {
    /// The counter knows the terminators of the stream and how it ends; the
    /// count fits the machine's word; and the stream is text followed by the
    /// bytes of a character that is not whole yet, if any.
    #[verifier::type_invariant]
    spec fn sound(&self) -> bool {
        &&& self.terminated == newline_count(self.fed@)
        &&& self.open == ends_open(self.fed@)
        &&& line_count(self.fed@) <= usize::MAX
        &&& self.begun@.len() == 0 || unfinished(self.begun@)
        &&& ends_begun(self.fed@, self.begun@)
    }

    /// A counter that was fed nothing.
    pub fn new() -> (counter: LineCounter)
        ensures
            counter@ == Seq::<u8>::empty(),
    {
        let fed = Ghost(Seq::<u8>::empty());
        let begun: Vec<u8> = Vec::new();
        proof {
            assert(fed@.take(0) =~= Seq::<u8>::empty());
            assert(fed@.skip(0) =~= begun@);
        }
        LineCounter { terminated: 0, open: false, begun, fed }
    }

    /// Feeds the next chunk of the stream. A chunk that is not taken leaves
    /// the counter as it was.
    pub fn feed(&mut self, chunk: &[u8]) -> (outcome: Fed)
        ensures
            outcome == fed_as(old(self)@, chunk@),
            final(self)@ == if outcome == Fed::Taken {
                old(self)@ + chunk@
            } else {
                old(self)@
            },
    {
        proof {
            use_type_invariant(&*self);
        }
        let ghost before = self.fed@;
        let ghost text = before.take(before.len() - self.begun@.len());
        let ghost after = before + chunk@;
        proof {
            assert(text + self.begun@ =~= before);
            assert(text + self.begun@ + chunk@ =~= after);
        }
        let left = read_on(&self.begun, chunk, Ghost(text));
        match left {
            None => Fed::NotText,
            Some(begun) => {
                proof {
                    let whole = after.take(after.len() - begun@.len());
                    assert(whole + begun@ =~= after);
                    lemma_reading_behind_text(whole, begun@);
                    if begun@.len() > 0 {
                        lemma_unfinished_reads_so(begun@);
                    }
                    lemma_newline_count_concat(before, chunk@);
                }
                if chunk.len() == 0 {
                    proof {
                        assert(after =~= before);
                    }
                    return Fed::Taken;
                }
                let open = chunk[chunk.len() - 1] != NEWLINE;
                let added = count_newlines(chunk);
                assert(after.last() == chunk@.last());
                match self.terminated.checked_add(added) {
                    Some(terminated) => {
                        if open && terminated == usize::MAX {
                            Fed::TooManyLines
                        } else {
                            *self = LineCounter { terminated, open, begun, fed: Ghost(after) };
                            Fed::Taken
                        }
                    },
                    None => Fed::TooManyLines,
                }
            },
        }
    }

    /// The number of lines of the stream, if the stream is text. A stream
    /// that ends inside a character is none.
    pub fn finish(&self) -> (counted: Option<usize>)
        ensures
            counted == if is_text(self@) {
                Some(line_count(self@) as usize)
            } else {
                None::<usize>
            },
    {
        proof {
            use_type_invariant(self);
            let text = self.fed@.take(self.fed@.len() - self.begun@.len());
            assert(text + self.begun@ =~= self.fed@);
            lemma_text_reads_whole(self.fed@);
            lemma_reading_behind_text(text, self.begun@);
            if self.begun@.len() > 0 {
                lemma_unfinished_reads_so(self.begun@);
            }
        }
        if self.begun.len() > 0 {
            None
        } else if self.open {
            Some(self.terminated + 1)
        } else {
            Some(self.terminated)
        }
    }
}

} // verus!
