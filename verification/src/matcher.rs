//! The chunked, boundary-safe scanner: consumes a byte stream one chunk at a
//! time, keeps a bounded trailing window of decoded text, and re-runs the
//! marker search over the whole window on every chunk so a marker split
//! across reads is still seen. After each search the window is cut back to
//! the ceiling, so memory stays bounded; a marker whose start has already
//! been cut away is missed, which is the documented trade-off of the
//! bounded window.
use vstd::prelude::*;

verus! {

use crate::pattern::captures_from;
use crate::pattern::copy_range;
use crate::pattern::find_captures;
use crate::text::chars_of;
use crate::text::utf8_to_string;
use vstd::utf8::decode_utf8;
use vstd::utf8::valid_utf8;

/// The last `c` characters of `s`, or all of `s` when it is no longer.
pub open spec fn keep_last(s: Seq<char>, c: int) -> Seq<char>
    recommends
        c >= 0,
{
    if s.len() > c {
        s.subrange(s.len() - c, s.len() as int)
    } else {
        s
    }
}

/// One chunk's effect on the retained window: a chunk that is not valid
/// UTF-8 is dropped whole (shown, not searched); a valid one is decoded,
/// appended, and the window is then cut back to the ceiling.
pub open spec fn step_window(w: Seq<char>, chunk: Seq<u8>, c: int) -> Seq<char> {
    if valid_utf8(chunk) {
        keep_last(w + decode_utf8(chunk), c)
    } else {
        w
    }
}

/// One chunk's effect on the collected captures: the window with the new
/// chunk appended is searched afresh and everything found is appended, so a
/// capture still inside the window when a later chunk arrives is collected
/// again.
pub open spec fn step_captures(w: Seq<char>, caps: Seq<Seq<char>>, chunk: Seq<u8>) -> Seq<
    Seq<char>,
> {
    if valid_utf8(chunk) {
        caps + captures_from(w + decode_utf8(chunk), 0)
    } else {
        caps
    }
}

/// The window and captures after feeding `chunks` in order, starting from
/// window `w` and captures `caps`.
pub open spec fn run_from(
    w: Seq<char>,
    caps: Seq<Seq<char>>,
    chunks: Seq<Seq<u8>>,
    c: int,
) -> (Seq<char>, Seq<Seq<char>>)
    decreases chunks.len(),
{
    if chunks.len() == 0 {
        (w, caps)
    } else {
        run_from(
            step_window(w, chunks[0], c),
            step_captures(w, caps, chunks[0]),
            chunks.drop_first(),
            c,
        )
    }
}

/// `d` cut into successive chunks of `n` bytes, the last one shorter.
pub open spec fn chunk_split(d: Seq<u8>, n: int) -> Seq<Seq<u8>>
    decreases d.len()
        when n >= 1
{
    if d.len() == 0 {
        seq![]
    } else if d.len() <= n {
        seq![d]
    } else {
        seq![d.take(n)] + chunk_split(d.skip(n), n)
    }
}

/// A scanner for one stream. Not restartable: once the stream ends the
/// collected captures are taken out.
pub struct ChunkedMatcher {
    window: Vec<char>,
    ceiling: usize,
    captures: Vec<Vec<char>>,
}

impl ChunkedMatcher {
    /// The retained trailing window of decoded text.
    pub closed spec fn window_model(self) -> Seq<char> {
        self.window@
    }

    /// Every capture collected so far, in collection order.
    pub closed spec fn captures_model(self) -> Seq<Seq<char>> {
        self.captures.deep_view()
    }

    /// The window ceiling the scanner was created with.
    pub closed spec fn ceiling_model(self) -> int {
        self.ceiling as int
    }

    pub fn new(ceiling: usize) -> (m: ChunkedMatcher)
        ensures
            m.window_model() == Seq::<char>::empty(),
            m.captures_model() == Seq::<Seq<char>>::empty(),
            m.ceiling_model() == ceiling as int,
    {
        let m = ChunkedMatcher { window: Vec::new(), ceiling, captures: Vec::new() };
        proof {
            assert(m.captures.deep_view() =~~= Seq::<Seq<char>>::empty());
        }
        m
    }

    /// Feed the next chunk read from the stream. Returns whether any capture
    /// has been collected so far.
    pub fn push_chunk(&mut self, chunk: &Vec<u8>) -> (found_any: bool)
        ensures
            final(self).ceiling_model() == old(self).ceiling_model(),
            final(self).window_model() == step_window(
                old(self).window_model(),
                chunk@,
                old(self).ceiling_model(),
            ),
            final(self).captures_model() == step_captures(
                old(self).window_model(),
                old(self).captures_model(),
                chunk@,
            ),
            found_any == (final(self).captures_model().len() > 0),
    {
        match utf8_to_string(chunk) {
            Some(t) => {
                let ghost w0 = self.window@;
                let mut tc = chars_of(t.as_str());
                self.window.append(&mut tc);
                assert(self.window@ == w0 + decode_utf8(chunk@));
                let mut found = find_captures(&self.window);
                let ghost caps0 = self.captures.deep_view();
                let ghost found0 = found.deep_view();
                self.captures.append(&mut found);
                assert(self.captures.deep_view() =~~= caps0 + found0);
                if self.window.len() > self.ceiling {
                    let start = self.window.len() - self.ceiling;
                    let tail = copy_range(&self.window, start, self.window.len());
                    self.window = tail;
                }
                assert(self.window@ == step_window(w0, chunk@, self.ceiling as int));
            },
            None => {},
        }
        self.captures.len() > 0
    }

    /// Whether any capture has been collected so far.
    pub fn found(&self) -> (b: bool)
        ensures
            b == (self.captures_model().len() > 0),
    {
        self.captures.len() > 0
    }

    /// End of stream: hand the collected captures out.
    pub fn into_captures(self) -> (caps: Vec<Vec<char>>)
        ensures
            caps.deep_view() == self.captures_model(),
    {
        self.captures
    }
}

/// A copy of `d[from..to]`.
pub fn copy_bytes(d: &Vec<u8>, from: usize, to: usize) -> (r: Vec<u8>)
    requires
        from <= to <= d@.len(),
    ensures
        r@ == d@.subrange(from as int, to as int),
{
    let mut r: Vec<u8> = Vec::new();
    let mut k = from;
    while k < to
        invariant
            from <= k <= to <= d@.len(),
            r@ == d@.subrange(from as int, k as int),
        decreases to - k,
    {
        r.push(d[k]);
        assert(r@ =~= d@.subrange(from as int, (k + 1) as int));
        k += 1;
    }
    r
}

/// Scan a whole in-memory stream, reading it in `chunk_size`-byte chunks
/// with a window cut back to `ceiling` characters, exactly as feeding the
/// chunks one by one would.
pub fn scan_bytes(data: &Vec<u8>, chunk_size: usize, ceiling: usize) -> (caps: Vec<Vec<char>>)
    requires
        chunk_size >= 1,
    ensures
        caps.deep_view() == run_from(
            Seq::<char>::empty(),
            Seq::<Seq<char>>::empty(),
            chunk_split(data@, chunk_size as int),
            ceiling as int,
        ).1,
{
    let mut m = ChunkedMatcher::new(ceiling);
    let mut pos: usize = 0;
    proof {
        assert(data@.skip(0) =~= data@);
    }
    while pos < data.len()
        invariant
            chunk_size >= 1,
            0 <= pos <= data@.len(),
            m.ceiling_model() == ceiling as int,
            run_from(
                Seq::<char>::empty(),
                Seq::<Seq<char>>::empty(),
                chunk_split(data@, chunk_size as int),
                ceiling as int,
            ) == run_from(
                m.window_model(),
                m.captures_model(),
                chunk_split(data@.skip(pos as int), chunk_size as int),
                ceiling as int,
            ),
        decreases data@.len() - pos,
    {
        let end = if data.len() - pos < chunk_size {
            data.len()
        } else {
            pos + chunk_size
        };
        let chunk = copy_bytes(data, pos, end);
        let ghost rest = data@.skip(pos as int);
        let ghost split = chunk_split(rest, chunk_size as int);
        proof {
            assert(rest.len() == data@.len() - pos);
            if rest.len() <= chunk_size {
                assert(chunk@ =~= rest);
                assert(split == seq![rest]);
                assert(split[0] == chunk@);
                assert(split.drop_first() =~~= chunk_split(
                    data@.skip(end as int),
                    chunk_size as int,
                ));
            } else {
                assert(chunk@ =~= rest.take(chunk_size as int));
                assert(split == seq![rest.take(chunk_size as int)] + chunk_split(
                    rest.skip(chunk_size as int),
                    chunk_size as int,
                ));
                assert(split[0] == chunk@);
                assert(rest.skip(chunk_size as int) =~= data@.skip(end as int));
                assert(split.drop_first() =~~= chunk_split(
                    data@.skip(end as int),
                    chunk_size as int,
                ));
            }
        }
        m.push_chunk(&chunk);
        pos = end;
    }
    proof {
        assert(data@.skip(pos as int).len() == 0);
        assert(chunk_split(data@.skip(pos as int), chunk_size as int) =~~= Seq::<Seq<u8>>::empty());
    }
    m.into_captures()
}

} // verus!
