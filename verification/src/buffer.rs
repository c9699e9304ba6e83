//! Where formatted output goes: a line that is kept up to a fixed number of
//! bytes, or bytes that are kept up to a limit the caller gives. Either
//! counts the bytes of all that was written to it, kept or not.

use vstd::prelude::*;
use vstd::string::StringSliceAdditionalSpecFns;
use vstd::utf8::{encode_utf8, is_ascii_chars, is_ascii_chars_encode_utf8};

verus! {

/// Bytes of a line that are kept.
pub const OUTPUT_CAPACITY: usize = 512;

/// `heapless::String`, a string of at most `N` bytes that is never
/// reallocated. Nothing is known of a value but what the functions below
/// tell of it.
#[verifier::external_type_specification]
#[verifier::external_body]
pub struct ExFixedString<const N: usize>(heapless::String<N>);

/// The characters that a `heapless::String<512>` holds, first to last.
pub uninterp spec fn fixed_string_text(buffer: heapless::String<512>) -> Seq<char>;

/// Bytes that `text` takes in UTF-8.
pub open spec fn utf8_len(text: Seq<char>) -> nat {
    encode_utf8(text).len()
}

/// The number of bytes of `text` in UTF-8.
pub fn byte_len(text: &str) -> (n: usize)
    ensures
        n == utf8_len(text@),
{
    let bytes = text.as_bytes();
    assert(bytes@ == encode_utf8(text@));
    bytes.len()
}

/// `heapless::String::new`: the new string holds nothing.
#[verifier::external_body]
fn fixed_string_new() -> (buffer: heapless::String<512>)
    ensures
        fixed_string_text(buffer) == Seq::<char>::empty(),
{
    heapless::String::new()
}

/// `heapless::String::push`: the character is appended where its UTF-8 bytes
/// still fit in the 512 bytes; otherwise the string is left as it was. The
/// call reports either through its result and never panics.
#[verifier::external_body]
fn fixed_string_push(buffer: &mut heapless::String<512>, c: char) -> (pushed: bool)
    ensures
        pushed == (utf8_len(fixed_string_text(*old(buffer))) + utf8_len(seq![c]) <= 512),
        pushed ==> fixed_string_text(*final(buffer)) == fixed_string_text(*old(buffer)).push(c),
        !pushed ==> fixed_string_text(*final(buffer)) == fixed_string_text(*old(buffer)),
    no_unwind
{
    buffer.push(c).is_ok()
}

/// `heapless::String::push_str`: the text is appended as a whole where its
/// UTF-8 bytes still fit in the 512 bytes; otherwise the string is left as
/// it was. The call reports either through its result and never panics.
#[verifier::external_body]
fn fixed_string_push_str(buffer: &mut heapless::String<512>, text: &str) -> (pushed: bool)
    ensures
        pushed == (utf8_len(fixed_string_text(*old(buffer))) + utf8_len(text@) <= 512),
        pushed ==> fixed_string_text(*final(buffer)) == fixed_string_text(*old(buffer)) + text@,
        !pushed ==> fixed_string_text(*final(buffer)) == fixed_string_text(*old(buffer)),
    no_unwind
{
    buffer.push_str(text).is_ok()
}

/// `heapless::String::as_str`: the string's characters as a string slice.
#[verifier::external_body]
fn fixed_string_as_str(buffer: &heapless::String<512>) -> (text: &str)
    ensures
        text@ == fixed_string_text(*buffer),
{
    buffer.as_str()
}

/// The UTF-8 bytes of a concatenation are those of its parts, one behind
/// the other.
pub proof fn lemma_utf8_concat(a: Seq<char>, b: Seq<char>)
    ensures
        encode_utf8(a + b) == encode_utf8(a) + encode_utf8(b),
        utf8_len(a + b) == utf8_len(a) + utf8_len(b),
    decreases a.len(),
{
    if a.len() == 0 {
        assert(a + b =~= b);
        assert(encode_utf8(a) + encode_utf8(b) =~= encode_utf8(b));
    } else {
        assert((a + b).drop_first() =~= a.drop_first() + b);
        lemma_utf8_concat(a.drop_first(), b);
        assert(encode_utf8(a + b) =~= encode_utf8(a) + encode_utf8(b));
    }
}

/// `text` cut to at most `capacity` bytes at a character boundary: the
/// longest run of its first characters that takes no more bytes.
pub open spec fn cut_to(text: Seq<char>, capacity: nat) -> Seq<char>
    decreases text.len(),
{
    if utf8_len(text) <= capacity || text.len() == 0 {
        text
    } else {
        cut_to(text.drop_last(), capacity)
    }
}

/// What cutting gives: the first characters of the text, within the
/// capacity, and so many of them that one more would be beyond it.
pub proof fn law_cut_to(text: Seq<char>, capacity: nat)
    ensures
        ({
            let cut = cut_to(text, capacity);
            &&& cut.len() <= text.len()
            &&& cut == text.take(cut.len() as int)
            &&& utf8_len(cut) <= capacity
            &&& utf8_len(text) <= capacity ==> cut == text
            &&& cut.len() < text.len() ==> utf8_len(text.take(cut.len() as int + 1)) > capacity
        }),
    decreases text.len(),
{
    if utf8_len(text) <= capacity || text.len() == 0 {
        assert(text.take(text.len() as int) =~= text);
    } else {
        let shorter = text.drop_last();
        law_cut_to(shorter, capacity);
        let cut = cut_to(shorter, capacity);
        assert(shorter.take(cut.len() as int) =~= text.take(cut.len() as int));
        if cut.len() < shorter.len() {
            assert(shorter.take(cut.len() as int + 1) =~= text.take(cut.len() as int + 1));
        } else {
            assert(text.take(cut.len() as int + 1) =~= text);
        }
    }
}

/// Text that is beyond the capacity stays cut where it is, whatever
/// follows it.
pub proof fn lemma_cut_to_closed(text: Seq<char>, more: Seq<char>, capacity: nat)
    requires
        utf8_len(text) > capacity,
    ensures
        cut_to(text + more, capacity) == cut_to(text, capacity),
    decreases more.len(),
{
    if more.len() == 0 {
        assert(text + more =~= text);
    } else {
        lemma_utf8_concat(text, more);
        assert((text + more).drop_last() =~= text + more.drop_last());
        lemma_cut_to_closed(text, more.drop_last(), capacity);
    }
}

/// A length as a number of machine size: the greatest such number where
/// the length is beyond it.
pub open spec fn saturated(len: nat) -> usize {
    if len <= usize::MAX {
        len as usize
    } else {
        usize::MAX
    }
}

/// A line in the making. It keeps what is written to it up to 512 bytes,
/// whole characters only, and counts the bytes of all that was written.
pub struct LineBuffer {
    inner: heapless::String<512>,
    total: usize,
    whole: Ghost<Seq<char>>,
}

impl LineBuffer {
    /// All that was written, also what is not kept.
    pub closed spec fn whole(&self) -> Seq<char> {
        self.whole@
    }

    /// What is kept is the cut of what was written, and the count is its
    /// length.
    pub closed spec fn wf(&self) -> bool {
        &&& fixed_string_text(self.inner) == cut_to(self.whole@, OUTPUT_CAPACITY as nat)
        &&& self.total == saturated(utf8_len(self.whole@))
    }

    /// A line to which nothing was written.
    pub fn new() -> (line: Self)
        ensures
            line.wf(),
            line.whole() == Seq::<char>::empty(),
    {
        LineBuffer { inner: fixed_string_new(), total: 0, whole: Ghost(Seq::empty()) }
    }

    /// Writes `text` behind what was written before.
    pub fn append(&mut self, text: &str)
        requires
            old(self).wf(),
        ensures
            final(self).wf(),
            final(self).whole() == old(self).whole() + text@,
    {
        let ghost before = self.whole@;
        let ghost after = before + text@;
        let len = byte_len(text);
        proof {
            lemma_utf8_concat(before, text@);
            law_cut_to(before, OUTPUT_CAPACITY as nat);
        }
        if self.total <= OUTPUT_CAPACITY {
            let pushed = fixed_string_push_str(&mut self.inner, text);
            if !pushed {
                let mut open = true;
                for c in it: text.chars()
                    invariant
                        it.seq() == text@,
                        self.total == old(self).total,
                        after == before + text@,
                        utf8_len(after) > OUTPUT_CAPACITY,
                        open ==> fixed_string_text(self.inner) == before + text@.take(
                            it.index() as int,
                        ) && utf8_len(fixed_string_text(self.inner)) <= OUTPUT_CAPACITY,
                        !open ==> fixed_string_text(self.inner) == cut_to(
                            after,
                            OUTPUT_CAPACITY as nat,
                        ),
                {
                    if open {
                        let ghost kept = fixed_string_text(self.inner);
                        let ghost index = it.index() as int;
                        let fits = fixed_string_push(&mut self.inner, c);
                        proof {
                            let longer = before + text@.take(index + 1);
                            assert(longer =~= kept.push(c));
                            assert(kept.push(c) =~= kept + seq![c]);
                            lemma_utf8_concat(kept, seq![c]);
                            if !fits {
                                assert(after =~= longer + text@.skip(index + 1));
                                lemma_cut_to_closed(
                                    longer,
                                    text@.skip(index + 1),
                                    OUTPUT_CAPACITY as nat,
                                );
                                assert(longer.drop_last() =~= kept);
                                assert(cut_to(longer, OUTPUT_CAPACITY as nat) == cut_to(
                                    kept,
                                    OUTPUT_CAPACITY as nat,
                                ));
                                assert(cut_to(kept, OUTPUT_CAPACITY as nat) == kept);
                            }
                        }
                        if !fits {
                            open = false;
                        }
                    }
                }
                proof {
                    if open {
                        assert(text@.take(text@.len() as int) =~= text@);
                    }
                }
            }
        } else {
            proof {
                lemma_cut_to_closed(before, text@, OUTPUT_CAPACITY as nat);
            }
        }
        self.total = self.total.saturating_add(len);
        self.whole = Ghost(after);
    }

    /// What is kept: all that was written, cut to 512 bytes at a character
    /// boundary.
    pub fn as_str(&self) -> (text: &str)
        requires
            self.wf(),
        ensures
            text@ == cut_to(self.whole(), OUTPUT_CAPACITY as nat),
            utf8_len(text@) <= OUTPUT_CAPACITY,
    {
        proof {
            law_cut_to(self.whole@, OUTPUT_CAPACITY as nat);
        }
        fixed_string_as_str(&self.inner)
    }

    /// The number of bytes of all that was written.
    pub fn total(&self) -> (total: usize)
        requires
            self.wf(),
        ensures
            total == saturated(utf8_len(self.whole())),
    {
        self.total
    }
}

/// `count` times the character `c`.
pub open spec fn repeated(c: char, count: nat) -> Seq<char> {
    Seq::new(count, |i: int| c)
}

/// The number of bytes that are kept of `len` bytes under a limit.
pub open spec fn kept_len(len: nat, limit: usize) -> int {
    if len < limit {
        len as int
    } else {
        limit as int
    }
}

/// The first bytes of `text` in UTF-8, as many as the limit admits. The
/// cut is by bytes and may fall inside a character.
pub open spec fn kept_bytes(text: Seq<char>, limit: usize) -> Seq<u8> {
    encode_utf8(text).take(kept_len(utf8_len(text), limit))
}

/// Bytes in the making. It keeps the first bytes of what is written to it,
/// up to a limit, and counts the bytes of all that was written.
pub struct ByteSink {
    kept: Vec<u8>,
    limit: usize,
    total: usize,
    whole: Ghost<Seq<char>>,
}

impl ByteSink {
    /// All that was written, also what is not kept.
    pub closed spec fn whole(&self) -> Seq<char> {
        self.whole@
    }

    /// The number of bytes that are kept at most.
    pub closed spec fn limit(&self) -> usize {
        self.limit
    }

    /// What is kept are the first bytes of what was written, and the count
    /// is its length.
    pub closed spec fn wf(&self) -> bool {
        &&& self.kept@ == kept_bytes(self.whole@, self.limit)
        &&& self.total == saturated(utf8_len(self.whole@))
    }

    /// A sink to which nothing was written and that keeps `limit` bytes.
    pub fn new(limit: usize) -> (sink: Self)
        ensures
            sink.wf(),
            sink.whole() == Seq::<char>::empty(),
            sink.limit() == limit,
    {
        let sink = ByteSink { kept: Vec::new(), limit, total: 0, whole: Ghost(Seq::empty()) };
        assert(sink.kept@ =~= kept_bytes(sink.whole@, limit));
        sink
    }

    /// Writes `bytes`, which are the UTF-8 bytes of `more`, behind what was
    /// written before.
    fn append_bytes(&mut self, bytes: &[u8], Ghost(more): Ghost<Seq<char>>)
        requires
            old(self).wf(),
            bytes@ == encode_utf8(more),
        ensures
            final(self).wf(),
            final(self).whole() == old(self).whole() + more,
            final(self).limit() == old(self).limit(),
    {
        let ghost before = self.whole@;
        let ghost e = encode_utf8(before);
        let ghost b = bytes@;
        proof {
            lemma_utf8_concat(before, more);
            assert(self.kept@ =~= (e + b).take(self.kept@.len() as int));
        }
        let count = bytes.len();
        let mut i: usize = 0;
        while i < count && self.kept.len() < self.limit
            invariant
                i <= count,
                count == b.len(),
                bytes@ == b,
                self.limit == old(self).limit,
                self.total == old(self).total,
                self.whole@ == before,
                self.kept@.len() == kept_len(e.len() + i as nat, self.limit),
                self.kept@ == (e + b).take(self.kept@.len() as int),
            decreases count - i,
        {
            self.kept.push(bytes[i]);
            i = i + 1;
            assert(self.kept@ =~= (e + b).take(self.kept@.len() as int));
        }
        self.total = self.total.saturating_add(count);
        self.whole = Ghost(before + more);
    }

    /// Writes `text` behind what was written before.
    pub fn append(&mut self, text: &str)
        requires
            old(self).wf(),
        ensures
            final(self).wf(),
            final(self).whole() == old(self).whole() + text@,
            final(self).limit() == old(self).limit(),
    {
        let bytes = text.as_bytes();
        assert(bytes@ == encode_utf8(text@));
        self.append_bytes(bytes, Ghost(text@));
    }

    /// Writes the character `c`, which is a blank or a zero, `count` times
    /// behind what was written before.
    pub fn append_repeated(&mut self, c: char, count: usize)
        requires
            old(self).wf(),
            c == ' ' || c == '0',
        ensures
            final(self).wf(),
            final(self).whole() == old(self).whole() + repeated(c, count as nat),
            final(self).limit() == old(self).limit(),
    {
        let byte: u8 = if c == ' ' {
            32
        } else {
            48
        };
        let ghost before = self.whole@;
        let ghost more = repeated(c, count as nat);
        let ghost e = encode_utf8(before);
        let ghost b = encode_utf8(more);
        proof {
            assert(is_ascii_chars(more));
            is_ascii_chars_encode_utf8(more);
            assert(forall|k: int| 0 <= k < count ==> b[k] == byte) by {
                assert(forall|k: int| 0 <= k < count ==> more[k] as u8 == byte);
                assert(forall|k: int| 0 <= k < count ==> more[k] as u8 == #[trigger] b[k]);
            }
            lemma_utf8_concat(before, more);
            assert(self.kept@ =~= (e + b).take(self.kept@.len() as int));
        }
        let mut i: usize = 0;
        while i < count && self.kept.len() < self.limit
            invariant
                i <= count,
                count == b.len(),
                forall|k: int| 0 <= k < count ==> b[k] == byte,
                self.limit == old(self).limit,
                self.total == old(self).total,
                self.whole@ == before,
                self.kept@.len() == kept_len(e.len() + i as nat, self.limit),
                self.kept@ == (e + b).take(self.kept@.len() as int),
            decreases count - i,
        {
            self.kept.push(byte);
            i = i + 1;
            assert(self.kept@ =~= (e + b).take(self.kept@.len() as int));
        }
        self.total = self.total.saturating_add(count);
        self.whole = Ghost(before + more);
    }

    /// The bytes that are kept.
    pub fn bytes(&self) -> (bytes: &Vec<u8>)
        requires
            self.wf(),
        ensures
            bytes@ == kept_bytes(self.whole(), self.limit()),
            bytes@.len() <= self.limit(),
    {
        &self.kept
    }

    /// The number of bytes of all that was written.
    pub fn total(&self) -> (total: usize)
        requires
            self.wf(),
        ensures
            total == saturated(utf8_len(self.whole())),
    {
        self.total
    }
}

} // verus!
