//! Incremental extraction of top-level JSON objects from a character stream.
//!
//! Text arrives in chunks of any size; each time the outer brace depth comes
//! back to zero, the object that just closed is handed out. Strings are
//! skipped with `\"` and `\\` handled, so braces inside them do not count.
use vstd::prelude::*;
use vstd::utf8::{decode_first_scalar, decode_utf8, length_of_first_scalar, pop_first_scalar, valid_utf8};

use crate::text::push_char;

verus! {

/// The scanner's state after a prefix of the text.
pub struct ScanState {
    /// Where the object being read began.
    pub start: Option<int>,
    /// How many braces and brackets are open.
    pub depth: nat,
    pub quoting: bool,
    pub escape: bool,
}

pub open spec fn initial_scan() -> ScanState {
    ScanState { start: None, depth: 0, quoting: false, escape: false }
}

pub open spec fn depth_after_close(d: nat) -> nat {
    if d > 0 {
        (d - 1) as nat
    } else {
        0
    }
}

/// The state after reading `ch` at position `i`.
pub open spec fn step(st: ScanState, ch: char, i: int) -> ScanState {
    if st.quoting {
        if ch == '\\' {
            ScanState { escape: !st.escape, ..st }
        } else {
            ScanState { quoting: st.escape || ch != '"', escape: false, ..st }
        }
    } else if ch == '"' {
        ScanState { quoting: true, escape: false, ..st }
    } else if ch == '{' {
        ScanState {
            start: if st.depth == 0 {
                Some(i)
            } else {
                st.start
            },
            depth: st.depth + 1,
            ..st
        }
    } else if ch == '[' {
        if st.start is Some {
            ScanState { depth: st.depth + 1, ..st }
        } else {
            st
        }
    } else if ch == '}' {
        let d = depth_after_close(st.depth);
        ScanState {
            depth: d,
            start: if d == 0 {
                None
            } else {
                st.start
            },
            ..st
        }
    } else if ch == ']' {
        ScanState { depth: depth_after_close(st.depth), ..st }
    } else {
        st
    }
}

/// Reading `ch` in state `st` closes an object.
pub open spec fn closes(st: ScanState, ch: char) -> bool {
    !st.quoting && ch == '}' && depth_after_close(st.depth) == 0 && st.start is Some
}

/// The state after reading all of `s`.
pub open spec fn scan(s: Seq<char>) -> ScanState
    decreases s.len(),
{
    if s.len() == 0 {
        initial_scan()
    } else {
        step(scan(s.drop_last()), s.last(), s.len() - 1)
    }
}

/// The objects read from `s`, in order, each as the text from its opening to its closing brace.
pub open spec fn emitted(s: Seq<char>) -> Seq<Seq<char>>
    decreases s.len(),
{
    if s.len() == 0 {
        Seq::empty()
    } else {
        let prev = scan(s.drop_last());
        let rest = emitted(s.drop_last());
        if closes(prev, s.last()) {
            rest.push(s.subrange(prev.start->0, s.len() as int))
        } else {
            rest
        }
    }
}

/// Reads JSON objects out of text that arrives in pieces.
#[derive(Debug)]
pub struct JsonStreamParser {
    buffer: Vec<char>,
    cursor: usize,
    start: Option<usize>,
    depth: usize,
    quoting: bool,
    escape: bool,
}

impl View for JsonStreamParser {
    type V = Seq<char>;

    /// All text read so far.
    closed spec fn view(&self) -> Seq<char> {
        self.buffer@
    }
}

/// Relies on `str::chars`: the characters of `s`, in order.
#[verifier::external_body]
fn chars_of(s: &str) -> (r: Vec<char>)
    ensures
        r@ == s@,
{
    s.chars().collect()
}

impl JsonStreamParser {
    pub closed spec fn wf(&self) -> bool {
        let st = scan(self.buffer@);
        &&& self.cursor == self.buffer@.len()
        &&& self.depth == st.depth
        &&& self.quoting == st.quoting
        &&& self.escape == st.escape
        &&& match self.start {
            Some(k) => st.start == Some(k as int) && k < self.buffer@.len(),
            None => st.start is None,
        }
        &&& self.depth <= self.buffer@.len()
    }

    pub fn new() -> (r: Self)
        ensures
            r.wf(),
            r@.len() == 0,
    {
        JsonStreamParser {
            buffer: Vec::new(),
            cursor: 0,
            start: None,
            depth: 0,
            quoting: false,
            escape: false,
        }
    }

    /// Reads one more piece of text and returns the objects it completes.
    pub fn process(&mut self, text: &str) -> (r: Vec<String>)
        requires
            old(self).wf(),
        ensures
            final(self).wf(),
            final(self)@ == old(self)@ + text@,
            emitted(final(self)@) == emitted(old(self)@) + r@.map_values(|s: String| s@),
    {
        let chars = chars_of(text);
        let ghost old_buffer = self.buffer@;
        let mut j: usize = 0;
        while j < chars.len()
            invariant
                0 <= j <= chars@.len(),
                self.buffer@ == old_buffer + chars@.take(j as int),
                old_buffer == old(self)@,
                old(self).wf(),
                self.cursor == old(self).cursor,
                self.depth == old(self).depth,
                self.quoting == old(self).quoting,
                self.escape == old(self).escape,
                self.start == old(self).start,
            decreases chars@.len() - j,
        {
            self.buffer.push(chars[j]);
            j += 1;
            proof {
                assert(self.buffer@ =~= old_buffer + chars@.take(j as int));
            }
        }
        proof {
            assert(chars@.take(j as int) =~= chars@);
            assert(self.buffer@.take(old_buffer.len() as int) =~= old_buffer);
        }
        let mut out: Vec<String> = Vec::new();
        let mut i: usize = self.cursor;
        while i < self.buffer.len()
            invariant
                old_buffer.len() <= i <= self.buffer@.len(),
                self.buffer@ == old_buffer + text@,
                self.depth == scan(self.buffer@.take(i as int)).depth,
                self.quoting == scan(self.buffer@.take(i as int)).quoting,
                self.escape == scan(self.buffer@.take(i as int)).escape,
                match self.start {
                    Some(k) => scan(self.buffer@.take(i as int)).start == Some(k as int) && k < i,
                    None => scan(self.buffer@.take(i as int)).start is None,
                },
                self.depth <= i,
                emitted(self.buffer@.take(i as int)) == emitted(old_buffer) + out@.map_values(
                    |s: String| s@,
                ),
            decreases self.buffer@.len() - i,
        {
            let ghost pre = self.buffer@.take(i as int);
            let ghost st = scan(pre);
            let ghost out_before = out@;
            let ch = self.buffer[i];
            proof {
                let t = self.buffer@.take(i + 1);
                assert(t.drop_last() =~= pre);
                assert(t.last() == ch);
            }
            if self.quoting {
                if ch == '\\' {
                    self.escape = !self.escape;
                } else {
                    if !self.escape && ch == '"' {
                        self.quoting = false;
                    }
                    self.escape = false;
                }
            } else if ch == '"' {
                self.quoting = true;
                self.escape = false;
            } else if ch == '{' {
                if self.depth == 0 {
                    self.start = Some(i);
                }
                self.depth = self.depth + 1;
            } else if ch == '[' {
                if self.start.is_some() {
                    self.depth = self.depth + 1;
                }
            } else if ch == '}' {
                if self.depth > 0 {
                    self.depth = self.depth - 1;
                }
                if self.depth == 0 {
                    if let Some(start) = self.start {
                        let value = collect_chars(&self.buffer, start, i + 1);
                        out.push(value);
                    }
                    self.start = None;
                }
            } else if ch == ']' {
                if self.depth > 0 {
                    self.depth = self.depth - 1;
                }
            }
            proof {
                let t = self.buffer@.take(i + 1);
                assert(scan(t) == step(st, ch, i as int));
                if closes(st, ch) {
                    assert(t.subrange(st.start->0, t.len() as int) =~= self.buffer@.subrange(
                        st.start->0,
                        i + 1,
                    ));
                    assert(out@.map_values(|s: String| s@) =~= out_before.map_values(
                        |s: String| s@,
                    ).push(t.subrange(st.start->0, t.len() as int)));
                } else {
                    assert(out@ == out_before);
                }
            }
            i += 1;
        }
        self.cursor = self.buffer.len();
        proof {
            assert(self.buffer@.take(i as int) =~= self.buffer@);
        }
        out
    }
}

/// Relies on `std::str::from_utf8`: it accepts exactly the valid UTF-8 byte
/// sequences, and then gives the text they encode.
#[verifier::external_body]
fn utf8_text(bytes: &[u8]) -> (r: Option<String>)
    ensures
        r is Some <==> valid_utf8(bytes@),
        r matches Some(s) ==> s@ == decode_utf8(bytes@),
{
    match std::str::from_utf8(bytes) {
        Ok(text) => Some(text.to_string()),
        Err(_) => None,
    }
}

/// Reads JSON objects out of a body that arrives as byte chunks. Bytes that
/// do not yet form valid UTF-8 (a character cut by a chunk boundary) wait for
/// the next chunk.
#[derive(Debug)]
pub struct JsonStream {
    parser: JsonStreamParser,
    unparsed: Vec<u8>,
}

impl JsonStream {
    /// The text handed to the parser so far.
    pub closed spec fn text(&self) -> Seq<char> {
        self.parser@
    }

    /// The bytes waiting for more input.
    pub closed spec fn pending(&self) -> Seq<u8> {
        self.unparsed@
    }

    pub closed spec fn wf(&self) -> bool {
        self.parser.wf()
    }

    pub fn new() -> (r: Self)
        ensures
            r.wf(),
            r.text().len() == 0,
            r.pending().len() == 0,
    {
        JsonStream { parser: JsonStreamParser::new(), unparsed: Vec::new() }
    }

    /// Takes one chunk; when the waiting bytes and the chunk decode, their text
    /// goes to the parser and the objects it completes are returned.
    pub fn feed(&mut self, chunk: &[u8]) -> (r: Vec<String>)
        requires
            old(self).wf(),
        ensures
            final(self).wf(),
            valid_utf8(old(self).pending() + chunk@) ==> {
                &&& final(self).text() == old(self).text() + decode_utf8(old(self).pending() + chunk@)
                &&& final(self).pending().len() == 0
                &&& emitted(final(self).text()) == emitted(old(self).text()) + r@.map_values(
                    |s: String| s@,
                )
            },
            !valid_utf8(old(self).pending() + chunk@) ==> {
                &&& final(self).text() == old(self).text()
                &&& final(self).pending() == old(self).pending() + chunk@
                &&& r@.len() == 0
            },
    {
        let mut i: usize = 0;
        let ghost before = self.unparsed@;
        while i < chunk.len()
            invariant
                0 <= i <= chunk@.len(),
                self.unparsed@ == before + chunk@.take(i as int),
                before == old(self).pending(),
                self.parser == old(self).parser,
                old(self).wf(),
            decreases chunk@.len() - i,
        {
            self.unparsed.push(chunk[i]);
            i += 1;
            proof {
                assert(self.unparsed@ =~= before + chunk@.take(i as int));
            }
        }
        proof {
            assert(chunk@.take(i as int) =~= chunk@);
        }
        match utf8_text(self.unparsed.as_slice()) {
            Some(text) => {
                let out = self.parser.process(text.as_str());
                self.unparsed.clear();
                out
            },
            None => Vec::new(),
        }
    }

    /// Ends the stream: waiting bytes that still do not decode are an error.
    pub fn finish(&mut self) -> (r: Result<Vec<String>, ()>)
        requires
            old(self).wf(),
        ensures
            final(self).wf(),
            old(self).pending().len() == 0 ==> (r matches Ok(v) && v@.len() == 0),
            old(self).pending().len() > 0 ==> (r is Ok <==> valid_utf8(old(self).pending())),
            old(self).pending().len() > 0 ==> match r {
                Ok(v) => {
                    &&& final(self).text() == old(self).text() + decode_utf8(old(self).pending())
                    &&& final(self).pending().len() == 0
                    &&& emitted(final(self).text()) == emitted(old(self).text()) + v@.map_values(
                        |s: String| s@,
                    )
                },
                Err(_) => final(self).text() == old(self).text() && final(self).pending() == old(
                    self,
                ).pending(),
            },
    {
        if self.unparsed.len() == 0 {
            return Ok(Vec::new());
        }
        match utf8_text(self.unparsed.as_slice()) {
            Some(text) => {
                let out = self.parser.process(text.as_str());
                self.unparsed.clear();
                Ok(out)
            },
            None => Err(()),
        }
    }
}

/// The characters of `buf` from `from` up to, not including, `to`, as a string.
fn collect_chars(buf: &Vec<char>, from: usize, to: usize) -> (r: String)
    requires
        from <= to <= buf@.len(),
    ensures
        r@ == buf@.subrange(from as int, to as int),
{
    let mut s = String::new();
    let mut k: usize = from;
    while k < to
        invariant
            from <= k <= to <= buf@.len(),
            s@ == buf@.subrange(from as int, k as int),
        decreases to - k,
    {
        push_char(&mut s, buf[k]);
        k += 1;
        proof {
            assert(s@ =~= buf@.subrange(from as int, k as int));
        }
    }
    s
}

// ---------------------------------------------------------------------------
// Chunk boundaries do not matter
// ---------------------------------------------------------------------------

/// The text of all chunks, in order.
pub open spec fn joined(chunks: Seq<Seq<char>>) -> Seq<char>
    decreases chunks.len(),
{
    if chunks.len() == 0 {
        Seq::empty()
    } else {
        joined(chunks.drop_last()) + chunks.last()
    }
}

/// What a parser hands out when fed `chunks` one after another from the start:
/// each call hands out what its chunk adds to the objects read so far.
pub open spec fn fed(chunks: Seq<Seq<char>>) -> Seq<Seq<char>>
    decreases chunks.len(),
{
    if chunks.len() == 0 {
        Seq::empty()
    } else {
        let before = joined(chunks.drop_last());
        let after = before + chunks.last();
        fed(chunks.drop_last()) + emitted(after).skip(emitted(before).len() as int)
    }
}

/// The objects read from a text are a prefix of those read from any longer text.
pub proof fn lemma_emitted_prefix(a: Seq<char>, b: Seq<char>)
    ensures
        emitted(a).len() <= emitted(a + b).len(),
        emitted(a + b).take(emitted(a).len() as int) == emitted(a),
    decreases b.len(),
{
    if b.len() == 0 {
        assert(a + b =~= a);
        assert(emitted(a).take(emitted(a).len() as int) =~= emitted(a));
    } else {
        let c = b.drop_last();
        lemma_emitted_prefix(a, c);
        let ab = a + b;
        assert(ab.drop_last() =~= a + c);
        let e1 = emitted(a + c);
        let e2 = emitted(ab);
        assert(e2.take(emitted(a).len() as int) =~= e1.take(emitted(a).len() as int));
    }
}

proof fn lemma_fed_all(chunks: Seq<Seq<char>>)
    ensures
        fed(chunks) == emitted(joined(chunks)),
    decreases chunks.len(),
{
    if chunks.len() == 0 {
        reveal_with_fuel(emitted, 1);
    } else {
        let prev = chunks.drop_last();
        lemma_fed_all(prev);
        let before = joined(prev);
        lemma_emitted_prefix(before, chunks.last());
        let all = emitted(before + chunks.last());
        let k = emitted(before).len() as int;
        assert(all =~= all.take(k) + all.skip(k));
    }
}

/// Two ways of cutting the same text into chunks hand out the same objects,
/// in the same order: exactly the objects of the whole text.
pub proof fn lemma_chunking_invariance(cuts_a: Seq<Seq<char>>, cuts_b: Seq<Seq<char>>)
    requires
        joined(cuts_a) == joined(cuts_b),
    ensures
        fed(cuts_a) == fed(cuts_b),
        fed(cuts_a) == emitted(joined(cuts_a)),
{
    lemma_fed_all(cuts_a);
    lemma_fed_all(cuts_b);
}

// ---------------------------------------------------------------------------
// Byte chunk boundaries do not matter either
// ---------------------------------------------------------------------------

/// The bytes of all chunks, in order.
pub open spec fn bytes_joined(chunks: Seq<Seq<u8>>) -> Seq<u8>
    decreases chunks.len(),
{
    if chunks.len() == 0 {
        Seq::empty()
    } else {
        bytes_joined(chunks.drop_last()) + chunks.last()
    }
}

/// What a `JsonStream` holds after `feed` on each of `chunks` in turn: the
/// text handed to its parser, and the bytes still waiting.
pub open spec fn fed_bytes(chunks: Seq<Seq<u8>>) -> (Seq<char>, Seq<u8>)
    decreases chunks.len(),
{
    if chunks.len() == 0 {
        (Seq::empty(), Seq::empty())
    } else {
        let prev = fed_bytes(chunks.drop_last());
        let all = prev.1 + chunks.last();
        if valid_utf8(all) {
            (prev.0 + decode_utf8(all), Seq::empty())
        } else {
            (prev.0, all)
        }
    }
}

/// Two valid encodings side by side decode to the two texts side by side.
proof fn lemma_decode_concat(a: Seq<u8>, b: Seq<u8>)
    requires
        valid_utf8(a),
        valid_utf8(b),
    ensures
        valid_utf8(a + b),
        decode_utf8(a + b) == decode_utf8(a) + decode_utf8(b),
    decreases a.len(),
{
    vstd::utf8::valid_utf8_concat(a, b);
    if a.len() == 0 {
        assert(a + b =~= b);
        assert(decode_utf8(a) =~= Seq::<char>::empty());
        assert(decode_utf8(a) + decode_utf8(b) =~= decode_utf8(b));
    } else {
        let rest = pop_first_scalar(a);
        assert(rest.len() < a.len());
        lemma_decode_concat(rest, b);
        assert(length_of_first_scalar(a + b) == length_of_first_scalar(a));
        assert(decode_first_scalar(a + b) == decode_first_scalar(a));
        assert(pop_first_scalar(a + b) =~= rest + b);
        assert(decode_utf8(a + b) =~= seq![decode_first_scalar(a) as char] + decode_utf8(rest + b));
        assert(decode_utf8(a) =~= seq![decode_first_scalar(a) as char] + decode_utf8(rest));
    }
}

/// What follows a valid prefix of a valid encoding is valid too.
proof fn lemma_valid_suffix(a: Seq<u8>, b: Seq<u8>)
    requires
        valid_utf8(a),
        valid_utf8(a + b),
    ensures
        valid_utf8(b),
    decreases a.len(),
{
    if a.len() == 0 {
        assert(a + b =~= b);
    } else {
        let rest = pop_first_scalar(a);
        assert(rest.len() < a.len());
        assert(length_of_first_scalar(a + b) == length_of_first_scalar(a));
        assert(pop_first_scalar(a + b) =~= rest + b);
        lemma_valid_suffix(rest, b);
    }
}

/// The text handed over so far is the decoding of a valid prefix of all bytes,
/// and the waiting bytes are the rest.
proof fn lemma_fed_bytes(chunks: Seq<Seq<u8>>)
    ensures
        exists|consumed: Seq<u8>|
            #![trigger decode_utf8(consumed)]
            valid_utf8(consumed) && bytes_joined(chunks) == consumed + fed_bytes(chunks).1
                && fed_bytes(chunks).0 == decode_utf8(consumed),
    decreases chunks.len(),
{
    if chunks.len() == 0 {
        let e = Seq::<u8>::empty();
        assert(bytes_joined(chunks) =~= e + e);
        assert(decode_utf8(e) =~= Seq::<char>::empty());
    } else {
        let prev = chunks.drop_last();
        lemma_fed_bytes(prev);
        let c = choose|consumed: Seq<u8>|
            #![trigger decode_utf8(consumed)]
            valid_utf8(consumed) && bytes_joined(prev) == consumed + fed_bytes(prev).1
                && fed_bytes(prev).0 == decode_utf8(consumed);
        let all = fed_bytes(prev).1 + chunks.last();
        assert(bytes_joined(chunks) =~= c + all);
        if valid_utf8(all) {
            lemma_decode_concat(c, all);
            assert(bytes_joined(chunks) =~= (c + all) + Seq::<u8>::empty());
        }
    }
}

/// Fed in any cut into byte chunks, a valid UTF-8 body hands its parser the
/// same text once the stream is finished: the decoding of the whole body.
/// So every cut yields the same objects, those of the whole text.
pub proof fn lemma_byte_chunking_invariance(cuts_a: Seq<Seq<u8>>, cuts_b: Seq<Seq<u8>>)
    requires
        bytes_joined(cuts_a) == bytes_joined(cuts_b),
        valid_utf8(bytes_joined(cuts_a)),
    ensures
        valid_utf8(fed_bytes(cuts_a).1),
        valid_utf8(fed_bytes(cuts_b).1),
        fed_bytes(cuts_a).0 + decode_utf8(fed_bytes(cuts_a).1) == decode_utf8(bytes_joined(cuts_a)),
        fed_bytes(cuts_a).0 + decode_utf8(fed_bytes(cuts_a).1) == fed_bytes(cuts_b).0 + decode_utf8(
            fed_bytes(cuts_b).1,
        ),
        emitted(fed_bytes(cuts_a).0 + decode_utf8(fed_bytes(cuts_a).1)) == emitted(
            fed_bytes(cuts_b).0 + decode_utf8(fed_bytes(cuts_b).1),
        ),
{
    lemma_fed_bytes(cuts_a);
    lemma_fed_bytes(cuts_b);
    let c1 = choose|consumed: Seq<u8>|
        #![trigger decode_utf8(consumed)]
        valid_utf8(consumed) && bytes_joined(cuts_a) == consumed + fed_bytes(cuts_a).1
            && fed_bytes(cuts_a).0 == decode_utf8(consumed);
    let c2 = choose|consumed: Seq<u8>|
        #![trigger decode_utf8(consumed)]
        valid_utf8(consumed) && bytes_joined(cuts_b) == consumed + fed_bytes(cuts_b).1
            && fed_bytes(cuts_b).0 == decode_utf8(consumed);
    lemma_valid_suffix(c1, fed_bytes(cuts_a).1);
    lemma_valid_suffix(c2, fed_bytes(cuts_b).1);
    lemma_decode_concat(c1, fed_bytes(cuts_a).1);
    lemma_decode_concat(c2, fed_bytes(cuts_b).1);
}

} // verus!
