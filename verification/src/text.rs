//! Telling text from other content: a byte stream is text where it is valid
//! UTF-8. A stream is read character by character, so that a stream that
//! arrives in chunks may break off inside a character and go on in the next
//! chunk.

use vstd::prelude::*;
use vstd::utf8::is_continuation_byte;
use vstd::utf8::is_leading_byte_width_2;
use vstd::utf8::is_leading_byte_width_3;
use vstd::utf8::is_leading_byte_width_4;
use vstd::utf8::length_of_first_scalar;
use vstd::utf8::pop_first_scalar;
use vstd::utf8::valid_first_scalar;
use vstd::utf8::valid_utf8;

verus! {

/// Whether `bytes` are text: valid UTF-8 from the first byte to the last.
pub open spec fn is_text(bytes: Seq<u8>) -> bool {
    valid_utf8(bytes)
}

/// Whether `bytes` are one whole character and nothing more.
pub open spec fn whole_character(bytes: Seq<u8>) -> bool {
    valid_first_scalar(bytes) && length_of_first_scalar(bytes) == bytes.len()
}

/// Whether `bytes` are the beginning of a character that is not whole yet:
/// a leading byte that calls for more bytes than there are, and behind it
/// continuation bytes only.
pub open spec fn unfinished(bytes: Seq<u8>) -> bool {
    &&& bytes.len() >= 1
    &&& {
        ||| is_leading_byte_width_2(bytes[0]) && bytes.len() < 2
        ||| is_leading_byte_width_3(bytes[0]) && bytes.len() < 3
        ||| is_leading_byte_width_4(bytes[0]) && bytes.len() < 4
    }
    &&& forall|k: int| 1 <= k < bytes.len() ==> is_continuation_byte(#[trigger] bytes[k])
}

/// Decides whether `bytes` are one whole character.
pub fn is_whole_character(bytes: &[u8]) -> (whole: bool)
    ensures
        whole == whole_character(bytes@),
{
    if bytes.len() == 0 || bytes.len() > 4 {
        return false;
    }
    let first = bytes[0];
    if first <= 0x7f {
        assert((first & 0x7f) as u32 <= 0x7f) by (bit_vector);
        bytes.len() == 1
    } else if 0xc0 <= first && first <= 0xdf {
        if bytes.len() != 2 || !(0x80 <= bytes[1] && bytes[1] <= 0xbf) {
            return false;
        }
        let second = bytes[1];
        let point: u32 = (((first & 0x1f) as u32) << 6) | ((second & 0x3f) as u32);
        assert((((first & 0x1f) as u32) << 6) | ((second & 0x3f) as u32) <= 0x7ff)
            by (bit_vector);
        0x80 <= point
    } else if 0xe0 <= first && first <= 0xef {
        if bytes.len() != 3 || !(0x80 <= bytes[1] && bytes[1] <= 0xbf) || !(0x80 <= bytes[2]
            && bytes[2] <= 0xbf) {
            return false;
        }
        let point: u32 = (((first & 0x0f) as u32) << 12) | (((bytes[1] & 0x3f) as u32) << 6) | ((
        bytes[2] & 0x3f) as u32);
        0x800 <= point && !(0xd800 <= point && point <= 0xdfff)
    } else if 0xf0 <= first && first <= 0xf7 {
        if bytes.len() != 4 || !(0x80 <= bytes[1] && bytes[1] <= 0xbf) || !(0x80 <= bytes[2]
            && bytes[2] <= 0xbf) || !(0x80 <= bytes[3] && bytes[3] <= 0xbf) {
            return false;
        }
        let point: u32 = (((first & 0x07) as u32) << 18) | (((bytes[1] & 0x3f) as u32) << 12) | (((
        bytes[2] & 0x3f) as u32) << 6) | ((bytes[3] & 0x3f) as u32);
        0x10000 <= point && point <= 0x10ffff
    } else {
        false
    }
}

/// How far a stream could be read as text.
pub ghost enum Reading {
    /// Every byte belongs to a whole character.
    Whole,
    /// The stream breaks off inside a character that may still be
    /// completed.
    Unfinished,
    /// The stream holds bytes that are part of no character.
    Broken,
}

/// Reads `bytes` character by character from the front. What is neither a
/// whole character nor the unfinished beginning of one breaks the stream.
/// Whether an unfinished character can be completed at all is judged when
/// it is whole.
pub open spec fn reading(bytes: Seq<u8>) -> Reading
    decreases bytes.len(),
{
    if bytes.len() == 0 {
        Reading::Whole
    } else if valid_first_scalar(bytes) {
        reading(pop_first_scalar(bytes))
    } else if unfinished(bytes) {
        Reading::Unfinished
    } else {
        Reading::Broken
    }
}

/// A stream is text exactly where it can be read whole.
pub proof fn lemma_text_reads_whole(bytes: Seq<u8>)
    ensures
        is_text(bytes) <==> reading(bytes) == Reading::Whole,
    decreases bytes.len(),
{
    if bytes.len() != 0 && valid_first_scalar(bytes) {
        lemma_text_reads_whole(pop_first_scalar(bytes));
    }
}

/// Behind text, a stream reads as it reads on its own.
pub proof fn lemma_reading_behind_text(text: Seq<u8>, more: Seq<u8>)
    requires
        is_text(text),
    ensures
        reading(text + more) == reading(more),
    decreases text.len(),
{
    if text.len() == 0 {
        assert(text + more =~= more);
    } else {
        let rest = pop_first_scalar(text);
        lemma_reading_behind_text(rest, more);
        assert(pop_first_scalar(text + more) =~= rest + more);
    }
}

/// A broken stream stays broken, whatever follows.
pub proof fn lemma_broken_stays(bytes: Seq<u8>, more: Seq<u8>)
    requires
        reading(bytes) == Reading::Broken,
    ensures
        reading(bytes + more) == Reading::Broken,
    decreases bytes.len(),
{
    if valid_first_scalar(bytes) {
        let rest = pop_first_scalar(bytes);
        lemma_broken_stays(rest, more);
        assert(pop_first_scalar(bytes + more) =~= rest + more);
    } else {
        assert(forall|k: int| 0 <= k < bytes.len() ==> (bytes + more)[k] == bytes[k]);
    }
}

/// The unfinished beginning of a character reads as unfinished.
pub proof fn lemma_unfinished_reads_so(bytes: Seq<u8>)
    requires
        unfinished(bytes),
    ensures
        reading(bytes) == Reading::Unfinished,
{
}

/// The unfinished beginning of a character, with one more byte, is a whole
/// character, or still unfinished, or broken.
pub proof fn lemma_reading_one_more(begun: Seq<u8>, byte: u8)
    requires
        begun.len() == 0 || unfinished(begun),
    ensures
        reading(begun.push(byte)) == if whole_character(begun.push(byte)) {
            Reading::Whole
        } else if unfinished(begun.push(byte)) {
            Reading::Unfinished
        } else {
            Reading::Broken
        },
{
    let longer = begun.push(byte);
    assert(forall|k: int| 0 <= k < begun.len() ==> longer[k] == begun[k]);
    if whole_character(longer) {
        assert(pop_first_scalar(longer) =~= Seq::<u8>::empty());
        assert(reading(pop_first_scalar(longer)) == Reading::Whole);
    }
}

/// Whether `bytes` are text followed by `begun`.
pub open spec fn ends_begun(bytes: Seq<u8>, begun: Seq<u8>) -> bool {
    &&& begun.len() <= bytes.len()
    &&& is_text(bytes.take(bytes.len() - begun.len()))
    &&& bytes.skip(bytes.len() - begun.len()) == begun
}

/// Decides whether `bytes` are the unfinished beginning of a character.
pub fn is_unfinished(bytes: &[u8]) -> (begun: bool)
    ensures
        begun == unfinished(bytes@),
{
    if bytes.len() == 0 {
        return false;
    }
    let first = bytes[0];
    let width: usize = if 0xc0 <= first && first <= 0xdf {
        2
    } else if 0xe0 <= first && first <= 0xef {
        3
    } else if 0xf0 <= first && first <= 0xf7 {
        4
    } else {
        return false;
    };
    if bytes.len() >= width {
        return false;
    }
    let mut at: usize = 1;
    while at < bytes.len()
        invariant
            1 <= at <= bytes.len(),
            forall|k: int| 1 <= k < at ==> is_continuation_byte(#[trigger] bytes@[k]),
        decreases bytes.len() - at,
    {
        if !(0x80 <= bytes[at] && bytes[at] <= 0xbf) {
            return false;
        }
        at = at + 1;
    }
    true
}

/// Reads `chunk` behind a stream that so far held `text` and then the
/// unfinished beginning `begun` of a character. The answer is what is left
/// unfinished at the end of the chunk, or `None` where the stream is broken.
pub(crate) fn read_on(begun: &Vec<u8>, chunk: &[u8], Ghost(text): Ghost<Seq<u8>>) -> (left: Option<Vec<u8>>)
    requires
        is_text(text),
        begun@.len() == 0 || unfinished(begun@),
    ensures
        match left {
            None => reading(text + begun@ + chunk@) == Reading::Broken,
            Some(rest) => (rest@.len() == 0 || unfinished(rest@)) && ends_begun(
                text + begun@ + chunk@,
                rest@,
            ),
        },
{
    let ghost all = text + begun@ + chunk@;
    let ghost mut done = text;
    let mut current: Vec<u8> = Vec::new();
    let mut copied: usize = 0;
    while copied < begun.len()
        invariant
            copied <= begun.len(),
            current@ == begun@.take(copied as int),
        decreases begun.len() - copied,
    {
        current.push(begun[copied]);
        copied = copied + 1;
    }
    let mut at: usize = 0;
    proof {
        assert(begun@.take(copied as int) =~= begun@);
        assert(done + current@ =~= text + begun@ + chunk@.take(0));
    }
    while at < chunk.len()
        invariant
            at <= chunk.len(),
            all == text + begun@ + chunk@,
            is_text(done),
            current@.len() == 0 || unfinished(current@),
            done + current@ == text + begun@ + chunk@.take(at as int),
        decreases chunk.len() - at,
    {
        let byte = chunk[at];
        let ghost before = current@;
        current.push(byte);
        proof {
            lemma_reading_one_more(before, byte);
            assert(chunk@.take(at + 1) =~= chunk@.take(at as int).push(byte));
            assert(done + current@ =~= (done + before).push(byte));
            assert(text + begun@ + chunk@.take(at + 1) =~= (text + begun@ + chunk@.take(
                at as int,
            )).push(byte));
        }
        if is_whole_character(current.as_slice()) {
            proof {
                assert(pop_first_scalar(current@) =~= Seq::<u8>::empty());
                assert(is_text(pop_first_scalar(current@)));
                assert(is_text(current@));
                vstd::utf8::valid_utf8_concat(done, current@);
                done = done + current@;
            }
            current = Vec::new();
            assert(done + current@ =~= text + begun@ + chunk@.take(at + 1));
        } else if is_unfinished(current.as_slice()) {
        } else {
            proof {
                lemma_reading_behind_text(done, current@);
                lemma_broken_stays(done + current@, chunk@.skip(at + 1));
                assert((done + current@) + chunk@.skip(at + 1) =~= all);
            }
            return None;
        }
        at = at + 1;
    }
    proof {
        assert(chunk@.take(at as int) =~= chunk@);
        assert(all.take(done.len() as int) =~= done);
        assert(all.skip(done.len() as int) =~= current@);
    }
    Some(current)
}

} // verus!
