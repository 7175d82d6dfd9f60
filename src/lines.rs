use vstd::prelude::*;

use vstd::utf8::{decode_utf8, valid_utf8};

verus! {

#[verifier::external_type_specification]
#[verifier::external_body]
pub struct ExIoError(std::io::Error);

#[verifier::external_type_specification]
#[verifier::external_body]
pub struct ExUtf8Error(std::str::Utf8Error);

/// Why a line could not be produced.
#[derive(Debug)]
pub enum MyError {
    /// Reading the underlying stream failed.
    Io(std::io::Error),
    /// A line was not valid UTF-8.
    Utf8(std::str::Utf8Error),
}

pub open spec fn is_break(b: u8) -> bool {
    b == 10 || b == 13
}

/// Length of the line that starts `w`: the bytes before the first `\n` or `\r`.
pub open spec fn line_end(w: Seq<u8>) -> nat
    decreases w.len(),
{
    if w.len() == 0 {
        0
    } else if is_break(w[0]) {
        0
    } else {
        1 + line_end(w.drop_first())
    }
}

/// Number of bytes taken by the line that starts `w`: the line, then `\r\n` as one
/// delimiter, or a single `\n` or `\r`, or nothing when `w` ends without one.
pub open spec fn step_len(w: Seq<u8>) -> nat {
    let n = line_end(w);
    if n == w.len() {
        n
    } else if n + 1 < w.len() && w[n as int] == 13 && w[n + 1int] == 10 {
        n + 2
    } else {
        n + 1
    }
}

/// The line that starts `w`, without its delimiter.
pub open spec fn first_line(w: Seq<u8>) -> Seq<u8> {
    w.take(line_end(w) as int)
}

proof fn lemma_line_end(w: Seq<u8>, i: int)
    requires
        0 <= i <= w.len(),
        forall|j: int| 0 <= j < i ==> !is_break(w[j]),
        i < w.len() ==> is_break(w[i]),
    ensures
        line_end(w) == i,
    decreases w.len(),
{
    if w.len() > 0 && !is_break(w[0]) {
        lemma_line_end(w.drop_first(), i - 1);
    }
}

/// Relies on `std::str::from_utf8`: it succeeds exactly on valid UTF-8, and then
/// yields the text that the bytes encode.
#[verifier::external_body]
fn decode(bytes: &[u8]) -> (r: Result<String, std::str::Utf8Error>)
    ensures
        r is Ok <==> valid_utf8(bytes@),
        r matches Ok(s) ==> s@ == decode_utf8(bytes@),
{
    std::str::from_utf8(bytes).map(|s| s.to_string())
}

/// Copies `bytes[start..end]`.
fn copy_range(bytes: &[u8], start: usize, end: usize) -> (r: Vec<u8>)
    requires
        start <= end <= bytes.len(),
    ensures
        r@ == bytes@.subrange(start as int, end as int),
{
    let mut r: Vec<u8> = Vec::new();
    let mut i: usize = start;
    while i < end
        invariant
            start <= i <= end <= bytes.len(),
            r@ == bytes@.subrange(start as int, i as int),
        decreases end - i,
    {
        r.push(bytes[i]);
        i += 1;
        assert(r@ =~= bytes@.subrange(start as int, i as int));
    }
    r
}

/// `x` is what decoding the byte line `line` gives: its text when the bytes are
/// valid UTF-8, a `Utf8` error otherwise.
pub open spec fn decoded_as(x: Result<String, MyError>, line: Seq<u8>) -> bool {
    &&& (x is Ok <==> valid_utf8(line))
    &&& (x matches Ok(s) ==> s@ == decode_utf8(line))
    &&& (x matches Err(e) ==> e is Utf8)
}

/// A line of `w` is known to be complete: a delimiter follows it, and more bytes
/// cannot change it (a `\r` at the very end might still be followed by `\n`).
pub open spec fn line_complete(w: Seq<u8>) -> bool {
    let n = line_end(w);
    n < w.len() && !(w[n as int] == 13 && n + 1 == w.len())
}

/// The lines of a whole byte stream, without their delimiters.
pub open spec fn split_all(w: Seq<u8>) -> Seq<Seq<u8>>
    decreases w.len(),
    via split_all_decreases
{
    if w.len() == 0 {
        seq![]
    } else {
        seq![first_line(w)] + split_all(w.skip(step_len(w) as int))
    }
}

#[via_fn]
proof fn split_all_decreases(w: Seq<u8>) {
    lemma_line_end_bound(w);
}

proof fn lemma_line_end_bound(w: Seq<u8>)
    ensures
        line_end(w) <= w.len(),
        line_end(w) < w.len() ==> is_break(w[line_end(w) as int]),
        forall|j: int| 0 <= j < line_end(w) ==> !is_break(w[j]),
    decreases w.len(),
{
    if w.len() > 0 && !is_break(w[0]) {
        lemma_line_end_bound(w.drop_first());
        assert forall|j: int| 0 <= j < line_end(w) implies !is_break(w[j]) by {
            if j > 0 {
                assert(w[j] == w.drop_first()[j - 1]);
            }
        }
    }
}

/// A complete first line stays the same whatever bytes come after it.
pub proof fn lemma_complete_line(w: Seq<u8>, f: Seq<u8>)
    requires
        line_complete(w),
    ensures
        split_all(w + f) == seq![first_line(w)] + split_all(w.skip(step_len(w) as int) + f),
{
    lemma_line_end_bound(w);
    let n = line_end(w);
    let g = w + f;
    assert forall|j: int| 0 <= j < n implies !is_break(g[j]) by {
        assert(g[j] == w[j]);
    }
    assert(g[n as int] == w[n as int]);
    lemma_line_end(g, n as int);
    if n + 1 < w.len() {
        assert(g[n + 1int] == w[n + 1int]);
    }
    assert(step_len(g) == step_len(w));
    assert(first_line(g) =~= first_line(w));
    assert(g.skip(step_len(w) as int) =~= w.skip(step_len(w) as int) + f);
}

/// Position of the first `\n` or `\r` in `bytes` at or after `start`, or the length.
fn line_end_from(bytes: &[u8], start: usize) -> (r: usize)
    requires
        start <= bytes.len(),
    ensures
        r == start + line_end(bytes@.skip(start as int)),
        r <= bytes.len(),
{
    let ghost w = bytes@.skip(start as int);
    let mut i: usize = start;
    while i < bytes.len() && bytes[i] != 10 && bytes[i] != 13
        invariant
            start <= i <= bytes.len(),
            w == bytes@.skip(start as int),
            forall|j: int| 0 <= j < i - start ==> !is_break(w[j]),
        decreases bytes.len() - i,
    {
        i += 1;
    }
    proof {
        lemma_line_end(w, i - start);
    }
    i
}

/// Splits the line that starts at `bytes[start]`. Returns the decoded line (or the
/// decoding error) and the number of bytes that it takes, delimiter included.
/// A lone `\r` ends a line as `\n` does, and `\r\n` counts as one delimiter.
pub fn take_line(bytes: &[u8], start: usize) -> (r: (Result<String, MyError>, usize))
    requires
        start < bytes.len(),
    ensures
        ({
            let w = bytes@.skip(start as int);
            &&& r.1 == step_len(w)
            &&& 0 < r.1 <= w.len()
            &&& decoded_as(r.0, first_line(w))
        }),
{
    let ghost w = bytes@.skip(start as int);
    let i = line_end_from(bytes, start);
    let total: usize = if i == bytes.len() {
        i - start
    } else if i + 1 < bytes.len() && bytes[i] == 13 && bytes[i + 1] == 10 {
        i - start + 2
    } else {
        i - start + 1
    };
    let line = copy_range(bytes, start, i);
    assert(line@ =~= first_line(w));
    match decode(line.as_slice()) {
        Ok(s) => (Ok(s), total),
        Err(e) => (Err(MyError::Utf8(e)), total),
    }
}

/// Splits a byte stream into lines on `\n`, `\r` or `\r\n` as its bytes arrive.
/// The unfinished tail is kept between chunks, so the lines do not depend on how
/// the stream was cut into chunks.
pub struct CrLfLines {
    buffer: Vec<u8>,
    pos: usize,
    ended: bool,
    seen: Ghost<Seq<u8>>,
    emitted: Ghost<Seq<Seq<u8>>>,
}

impl CrLfLines {
    /// The bytes not yet split into lines.
    pub closed spec fn rest(&self) -> Seq<u8> {
        self.buffer@.skip(self.pos as int)
    }

    /// Every byte handed in so far.
    pub closed spec fn seen(&self) -> Seq<u8> {
        self.seen@
    }

    /// Every line handed out so far, as bytes.
    pub closed spec fn emitted(&self) -> Seq<Seq<u8>> {
        self.emitted@
    }

    /// The stream has ended: no more bytes come.
    pub closed spec fn is_ended(&self) -> bool {
        self.ended
    }

    /// The lines handed out, then those of the bytes kept, are the lines of all
    /// bytes seen, whatever bytes may still follow.
    pub closed spec fn wf(&self) -> bool {
        &&& self.pos <= self.buffer.len()
        &&& if self.ended {
            split_all(self.seen@) == self.emitted@ + split_all(self.rest())
        } else {
            forall|f: Seq<u8>|
                #[trigger] split_all(self.seen@ + f) == self.emitted@ + split_all(self.rest() + f)
        }
    }

    /// A splitter whose stream starts with `buffer`.
    pub fn new(buffer: Vec<u8>) -> (r: Self)
        ensures
            r.wf(),
            r.rest() == buffer@,
            r.seen() == buffer@,
            r.emitted().len() == 0,
            !r.is_ended(),
    {
        let ghost b = buffer@;
        let ghost none: Seq<Seq<u8>> = seq![];
        let r = CrLfLines { buffer, pos: 0, ended: false, seen: Ghost(b), emitted: Ghost(none) };
        assert(r.rest() =~= b);
        assert forall|f: Seq<u8>|
            #[trigger] split_all(r.seen@ + f) == r.emitted@ + split_all(r.rest() + f) by {
            assert(r.emitted@ + split_all(r.rest() + f) =~= split_all(b + f));
        }
        r
    }

    /// Hands in the next bytes of the stream.
    pub fn push(&mut self, chunk: &[u8])
        requires
            old(self).wf(),
            !old(self).is_ended(),
        ensures
            final(self).wf(),
            !final(self).is_ended(),
            final(self).seen() == old(self).seen() + chunk@,
            final(self).rest() == old(self).rest() + chunk@,
            final(self).emitted() == old(self).emitted(),
    {
        let ghost old_rest = self.rest();
        let mut nb = copy_range(self.buffer.as_slice(), self.pos, self.buffer.len());
        let mut i: usize = 0;
        let ghost base = nb@;
        while i < chunk.len()
            invariant
                i <= chunk.len(),
                nb@ == base + chunk@.take(i as int),
            decreases chunk.len() - i,
        {
            nb.push(chunk[i]);
            i += 1;
            assert(nb@ =~= base + chunk@.take(i as int));
        }
        assert(chunk@.take(i as int) =~= chunk@);
        assert(base =~= old_rest);
        let ghost old_seen = self.seen@;
        let ghost em = self.emitted@;
        assert forall|f: Seq<u8>|
            #[trigger] split_all(old_seen + chunk@ + f) == em + split_all(old_rest + chunk@ + f) by {
            assert(split_all(old_seen + (chunk@ + f)) == em + split_all(old_rest + (chunk@ + f)));
            assert(old_seen + chunk@ + f =~= old_seen + (chunk@ + f));
            assert(old_rest + chunk@ + f =~= old_rest + (chunk@ + f));
        }
        self.buffer = nb;
        self.pos = 0;
        self.seen = Ghost(old_seen + chunk@);
        assert(self.rest() =~= old_rest + chunk@);
    }

    /// Marks the end of the stream: the bytes kept then form the last lines.
    pub fn finish(&mut self)
        requires
            old(self).wf(),
        ensures
            final(self).wf(),
            final(self).is_ended(),
            final(self).seen() == old(self).seen(),
            final(self).rest() == old(self).rest(),
            final(self).emitted() == old(self).emitted(),
    {
        if !self.ended {
            assert(split_all(self.seen@ + Seq::<u8>::empty()) == self.emitted@ + split_all(
                self.rest() + Seq::<u8>::empty(),
            ));
            assert(self.seen@ + Seq::<u8>::empty() =~= self.seen@);
            assert(self.rest() + Seq::<u8>::empty() =~= self.rest());
            self.ended = true;
        }
    }

    /// The next line, or `None` when there is none yet: before the end of the
    /// stream a line is handed out once it is complete; after it, whatever is left
    /// forms lines too. A line that is not valid UTF-8 gives `Utf8` and is passed
    /// over. Once the stream has ended and `None` comes, the lines handed out are
    /// exactly the lines of all bytes seen.
    pub fn next(&mut self) -> (r: Option<Result<String, MyError>>)
        requires
            old(self).wf(),
        ensures
            final(self).wf(),
            final(self).is_ended() == old(self).is_ended(),
            final(self).seen() == old(self).seen(),
            r is None <==> (if old(self).is_ended() {
                old(self).rest().len() == 0
            } else {
                !line_complete(old(self).rest())
            }),
            r is None ==> final(self).rest() == old(self).rest() && final(self).emitted()
                == old(self).emitted(),
            r matches Some(x) ==> {
                let w = old(self).rest();
                &&& final(self).rest() == w.skip(step_len(w) as int)
                &&& final(self).emitted() == old(self).emitted().push(first_line(w))
                &&& decoded_as(x, first_line(w))
            },
            final(self).is_ended() && r is None ==> final(self).emitted() == split_all(
                final(self).seen(),
            ),
    {
        let ghost w = self.rest();
        let ghost em = self.emitted@;
        if self.pos >= self.buffer.len() {
            proof {
                if self.ended {
                    assert(split_all(w) == Seq::<Seq<u8>>::empty());
                    assert(em + Seq::<Seq<u8>>::empty() =~= em);
                }
                lemma_line_end_bound(w);
            }
            return None;
        }
        if !self.ended {
            let n = line_end_from(self.buffer.as_slice(), self.pos);
            if n == self.buffer.len() || (self.buffer[n] == 13 && n + 1 == self.buffer.len()) {
                return None;
            }
        }
        let (line, total) = take_line(self.buffer.as_slice(), self.pos);
        let ghost l = first_line(w);
        proof {
            if self.ended {
                assert(split_all(w) == seq![l] + split_all(w.skip(step_len(w) as int)));
                assert(em + split_all(w) =~= em.push(l) + split_all(w.skip(step_len(w) as int)));
            } else {
                let s = self.seen@;
                assert forall|f: Seq<u8>|
                    #[trigger] split_all(s + f) == em.push(l) + split_all(
                        w.skip(step_len(w) as int) + f,
                    ) by {
                    assert(split_all(s + f) == em + split_all(w + f));
                    lemma_complete_line(w, f);
                    assert(em + (seq![l] + split_all(w.skip(step_len(w) as int) + f)) =~= em.push(l)
                        + split_all(w.skip(step_len(w) as int) + f));
                }
            }
        }
        self.pos = self.pos + total;
        self.emitted = Ghost(em.push(l));
        assert(self.rest() =~= w.skip(total as int));
        Some(line)
    }
}

} // verus!
