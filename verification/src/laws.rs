//! Laws of the chunked scan: the retained window is a suffix of the stream
//! text of at least the ceiling's length, and a marker split across chunk
//! boundaries is still detected whenever its start is within that suffix
//! when the chunk completing it arrives.
use vstd::prelude::*;

verus! {

use crate::matcher::keep_last;
use crate::matcher::run_from;
use crate::matcher::step_captures;
use crate::matcher::step_window;
use crate::pattern::captures_from;
use crate::pattern::lemma_match_found;
use crate::pattern::lemma_try_match_bounds;
use crate::pattern::lemma_try_match_transfer;
use crate::pattern::try_match_at;
use vstd::utf8::decode_utf8;
use vstd::utf8::valid_utf8;

/// The decoded text of each chunk.
pub open spec fn texts_of(chunks: Seq<Seq<u8>>) -> Seq<Seq<char>> {
    Seq::new(chunks.len(), |i: int| decode_utf8(chunks[i]))
}

/// The whole decoded stream text.
pub open spec fn concat_texts(ts: Seq<Seq<char>>) -> Seq<char>
    decreases ts.len(),
{
    if ts.len() == 0 {
        Seq::empty()
    } else {
        concat_texts(ts.drop_last()) + ts.last()
    }
}

/// The retained window after the given chunk texts have been fed.
pub open spec fn window_after(ts: Seq<Seq<char>>, c: int) -> Seq<char>
    decreases ts.len(),
{
    if ts.len() == 0 {
        Seq::empty()
    } else {
        keep_last(window_after(ts.drop_last(), c) + ts.last(), c)
    }
}

proof fn lemma_run_from_snoc(
    w: Seq<char>,
    caps: Seq<Seq<char>>,
    chunks: Seq<Seq<u8>>,
    ch: Seq<u8>,
    c: int,
)
    ensures
        run_from(w, caps, chunks.push(ch), c) == (
            step_window(run_from(w, caps, chunks, c).0, ch, c),
            step_captures(run_from(w, caps, chunks, c).0, run_from(w, caps, chunks, c).1, ch),
        ),
    decreases chunks.len(),
{
    reveal_with_fuel(run_from, 3);
    if chunks.len() == 0 {
        assert(chunks.push(ch)[0] == ch);
        assert(chunks.push(ch).drop_first() =~~= Seq::<Seq<u8>>::empty());
    } else {
        assert(chunks.push(ch)[0] == chunks[0]);
        assert(chunks.push(ch).drop_first() =~~= chunks.drop_first().push(ch));
        lemma_run_from_snoc(
            step_window(w, chunks[0], c),
            step_captures(w, caps, chunks[0]),
            chunks.drop_first(),
            ch,
            c,
        );
    }
}

/// The scanner's window is exactly a suffix of the stream text: all of it
/// while the text is shorter than the ceiling, and at least the last
/// `c` characters of it afterwards.
pub proof fn lemma_window_suffix(ts: Seq<Seq<char>>, c: int)
    requires
        c >= 0,
    ensures
        window_after(ts, c).len() <= concat_texts(ts).len(),
        concat_texts(ts).len() <= c ==> window_after(ts, c).len() == concat_texts(ts).len(),
        concat_texts(ts).len() > c ==> window_after(ts, c).len() >= c,
        window_after(ts, c) == concat_texts(ts).skip(
            concat_texts(ts).len() - window_after(ts, c).len(),
        ),
    decreases ts.len(),
{
    if ts.len() == 0 {
        assert(concat_texts(ts).skip(0) =~= concat_texts(ts));
    } else {
        lemma_window_suffix(ts.drop_last(), c);
        let p = concat_texts(ts.drop_last());
        let l = ts.last();
        let wp = window_after(ts.drop_last(), c);
        let t = concat_texts(ts);
        let s = wp + l;
        assert(t == p + l);
        assert(s =~= t.skip(p.len() - wp.len()));
        if s.len() > c {
            assert(window_after(ts, c) =~= t.skip(t.len() - c));
        } else {
            assert(window_after(ts, c) == s);
            assert(s =~= t.skip(t.len() - s.len()));
        }
    }
}

proof fn lemma_run_window(chunks: Seq<Seq<u8>>, c: int)
    requires
        forall|i: int| 0 <= i < chunks.len() ==> valid_utf8(#[trigger] chunks[i]),
    ensures
        run_from(Seq::<char>::empty(), Seq::<Seq<char>>::empty(), chunks, c).0 == window_after(
            texts_of(chunks),
            c,
        ),
    decreases chunks.len(),
{
    if chunks.len() == 0 {
        assert(texts_of(chunks).len() == 0);
    } else {
        let pre = chunks.drop_last();
        assert(pre.push(chunks.last()) =~~= chunks);
        lemma_run_from_snoc(
            Seq::<char>::empty(),
            Seq::<Seq<char>>::empty(),
            pre,
            chunks.last(),
            c,
        );
        assert(forall|i: int| 0 <= i < pre.len() ==> valid_utf8(#[trigger] pre[i]));
        lemma_run_window(pre, c);
        assert(texts_of(chunks).drop_last() =~~= texts_of(pre));
        assert(texts_of(chunks).last() == decode_utf8(chunks.last()));
        assert(valid_utf8(chunks.last()));
    }
}

proof fn lemma_found_at_step(chunks: Seq<Seq<u8>>, c: int, k: int)
    requires
        c >= 0,
        0 <= k < chunks.len(),
        forall|i: int| 0 <= i < chunks.len() ==> valid_utf8(#[trigger] chunks[i]),
        captures_from(
            window_after(texts_of(chunks.take(k)), c) + decode_utf8(chunks[k]),
            0,
        ).len() > 0,
    ensures
        run_from(Seq::<char>::empty(), Seq::<Seq<char>>::empty(), chunks, c).1.len() > 0,
    decreases chunks.len(),
{
    let pre = chunks.drop_last();
    assert(pre.push(chunks.last()) =~~= chunks);
    lemma_run_from_snoc(Seq::<char>::empty(), Seq::<Seq<char>>::empty(), pre, chunks.last(), c);
    assert(forall|i: int| 0 <= i < pre.len() ==> valid_utf8(#[trigger] pre[i]));
    if k == chunks.len() - 1 {
        lemma_run_window(pre, c);
        assert(texts_of(chunks.take(k)) =~~= texts_of(pre));
        assert(chunks[k] == chunks.last());
        assert(valid_utf8(chunks.last()));
    } else {
        assert(chunks.take(k) =~~= pre.take(k));
        assert(pre[k] == chunks[k]);
        lemma_found_at_step(pre, c, k);
    }
}

/// Boundary-span law: a marker split across chunk boundaries is still
/// detected. Let chunk `k` be one whose arrival completes the marker (the
/// marker ends within the text fed up to and including chunk `k`); if the
/// marker's start is at most the ceiling before chunk `k`'s text begins, at
/// least one capture is collected. With the ceiling no smaller than the
/// marker's whole span this covers every split, whatever the chunk size.
pub proof fn lemma_boundary_span(chunks: Seq<Seq<u8>>, c: int, k: int, j: int)
    requires
        c >= 0,
        0 <= k < chunks.len(),
        forall|i: int| 0 <= i < chunks.len() ==> valid_utf8(#[trigger] chunks[i]),
        0 <= j,
        try_match_at(concat_texts(texts_of(chunks)), j) is Some,
        match try_match_at(concat_texts(texts_of(chunks)), j) {
            Some(pe) => pe.1 <= concat_texts(texts_of(chunks.take(k + 1))).len(),
            None => false,
        },
        j + c >= concat_texts(texts_of(chunks.take(k))).len(),
    ensures
        run_from(Seq::<char>::empty(), Seq::<Seq<char>>::empty(), chunks, c).1.len() > 0,
{
    let text = concat_texts(texts_of(chunks));
    let tsk = texts_of(chunks.take(k));
    let before = concat_texts(tsk);
    let upto = concat_texts(texts_of(chunks.take(k + 1)));
    let pe = try_match_at(text, j)->Some_0;
    lemma_try_match_bounds(text, j);
    // `upto` is a prefix of the stream text.
    assert(texts_of(chunks).take(k + 1) =~~= texts_of(chunks.take(k + 1)));
    lemma_concat_split(texts_of(chunks), k + 1);
    assert(forall|x: int| 0 <= x < upto.len() ==> text[x] == upto[x]);
    lemma_try_match_transfer(text, upto, 0, j);
    assert(try_match_at(upto, j) == Some((pe.0, pe.1)));
    // The text searched when chunk `k` arrives is a suffix of `upto`.
    let w = window_after(tsk, c);
    lemma_window_suffix(tsk, c);
    let off = before.len() - w.len();
    assert(texts_of(chunks.take(k + 1)).drop_last() =~~= tsk);
    assert(texts_of(chunks.take(k + 1)).last() == decode_utf8(chunks[k]));
    assert(upto == before + decode_utf8(chunks[k]));
    let s_text = w + decode_utf8(chunks[k]);
    assert(s_text =~= upto.skip(off));
    assert(off <= j);
    assert(forall|x: int| j <= x < pe.1 ==> upto[x] == s_text[x + (0 - off)]);
    lemma_try_match_transfer(upto, s_text, 0 - off, j);
    assert(try_match_at(s_text, j - off) is Some);
    assert(j - off < s_text.len());
    lemma_match_found(s_text, 0, j - off);
    lemma_found_at_step(chunks, c, k);
}

/// The start position, within the stream text, of the text that is
/// searched when chunk `k` arrives: everything before it has already been
/// cut out of the retained window.
pub open spec fn search_start(chunks: Seq<Seq<u8>>, k: int, c: int) -> int {
    concat_texts(texts_of(chunks.take(k))).len() - window_after(texts_of(chunks.take(k)), c).len()
}

/// The window's start never moves backwards: text once cut out of the
/// window stays out for every later chunk.
proof fn lemma_search_start_monotone(chunks: Seq<Seq<u8>>, c: int, k1: int, k2: int)
    requires
        c >= 0,
        0 <= k1 <= k2 <= chunks.len(),
    ensures
        search_start(chunks, k1, c) <= search_start(chunks, k2, c),
    decreases k2 - k1,
{
    if k1 < k2 {
        lemma_search_start_monotone(chunks, c, k1, k2 - 1);
        let ts2 = texts_of(chunks.take(k2));
        let ts1 = texts_of(chunks.take(k2 - 1));
        assert(ts2.len() == k2);
        assert(ts2.drop_last() =~~= ts1);
        assert(concat_texts(ts2) == concat_texts(ts1) + ts2.last());
        assert(window_after(ts2, c) == keep_last(window_after(ts1, c) + ts2.last(), c));
    }
}

/// Window-ceiling miss law (the documented trade-off): when the stream's
/// only marker has its start already cut out of the retained window by the
/// time the first chunk completing it arrives, the scan collects no
/// capture at all. The miss is forced by the bounded window, not an
/// accident of the implementation: choosing the ceiling below the marker's
/// span makes this reachable, which is why the ceiling must be chosen
/// conservatively relative to the marker's maximum span.
pub proof fn lemma_ceiling_miss(chunks: Seq<Seq<u8>>, c: int, k: int, j: int)
    requires
        c >= 0,
        0 <= k < chunks.len(),
        forall|i: int| 0 <= i < chunks.len() ==> valid_utf8(#[trigger] chunks[i]),
        0 <= j,
        try_match_at(concat_texts(texts_of(chunks)), j) is Some,
        forall|j2: int|
            0 <= j2 < concat_texts(texts_of(chunks)).len() && j2 != j ==> try_match_at(
                concat_texts(texts_of(chunks)),
                j2,
            ) is None,
        match try_match_at(concat_texts(texts_of(chunks)), j) {
            Some(pe) => concat_texts(texts_of(chunks.take(k))).len() < pe.1 <= concat_texts(
                texts_of(chunks.take(k + 1)),
            ).len(),
            None => false,
        },
        j < search_start(chunks, k, c),
    ensures
        run_from(Seq::<char>::empty(), Seq::<Seq<char>>::empty(), chunks, c).1.len() == 0,
    decreases chunks.len(),
{
    let text = concat_texts(texts_of(chunks));
    let pe = try_match_at(text, j)->Some_0;
    lemma_try_match_bounds(text, j);
    let pre = chunks.drop_last();
    assert(pre.push(chunks.last()) =~~= chunks);
    lemma_run_from_snoc(Seq::<char>::empty(), Seq::<Seq<char>>::empty(), pre, chunks.last(), c);
    assert(forall|i: int| 0 <= i < pre.len() ==> valid_utf8(#[trigger] pre[i]));
    let ptext = concat_texts(texts_of(pre));
    assert(texts_of(chunks).drop_last() =~~= texts_of(pre));
    assert(texts_of(chunks).last() == decode_utf8(chunks.last()));
    assert(text == ptext + decode_utf8(chunks.last()));
    assert(forall|x: int| 0 <= x < ptext.len() ==> ptext[x] == text[x]);
    if k == chunks.len() - 1 {
        // The marker does not complete within the shorter stream, and it is
        // the only occurrence, so the shorter stream holds no marker at all.
        assert(texts_of(chunks.take(k)) =~~= texts_of(pre));
        assert forall|j0: int| 0 <= j0 < ptext.len() implies try_match_at(ptext, j0) is None by {
            if try_match_at(ptext, j0) is Some {
                lemma_try_match_bounds(ptext, j0);
                lemma_try_match_transfer(ptext, text, 0, j0);
            }
        }
        lemma_no_match_stream(pre, c);
    } else {
        // The marker, and only it, stands in the shorter stream too; its
        // completing chunk and the cut-out start are unchanged. Recurse.
        assert(chunks.take(k + 1) =~~= pre.take(k + 1));
        assert(chunks.take(k) =~~= pre.take(k));
        assert(texts_of(pre).take(k + 1) =~~= texts_of(pre.take(k + 1)));
        lemma_concat_split(texts_of(pre), k + 1);
        assert(pe.1 <= ptext.len());
        lemma_try_match_transfer(text, ptext, 0, j);
        assert(try_match_at(ptext, j) == Some((pe.0, pe.1)));
        assert forall|j0: int|
            0 <= j0 < ptext.len() && j0 != j implies try_match_at(ptext, j0) is None by {
            if try_match_at(ptext, j0) is Some {
                lemma_try_match_bounds(ptext, j0);
                lemma_try_match_transfer(ptext, text, 0, j0);
            }
        }
        assert(search_start(pre, k, c) == search_start(chunks, k, c));
        lemma_ceiling_miss(pre, c, k, j);
    }
    // The text searched when the last chunk arrives starts at or after the
    // cut that already excluded the marker's start.
    lemma_run_window(pre, c);
    lemma_window_suffix(texts_of(pre), c);
    let w = window_after(texts_of(pre), c);
    let s_text = w + decode_utf8(chunks.last());
    let off = ptext.len() - w.len();
    assert(s_text =~= text.skip(off));
    assert(chunks.take(chunks.len() - 1) =~~= pre);
    assert(off == search_start(chunks, chunks.len() - 1, c));
    lemma_search_start_monotone(chunks, c, k, chunks.len() - 1);
    assert(j < off);
    assert forall|j2: int| 0 <= j2 < s_text.len() implies try_match_at(s_text, j2) is None by {
        if try_match_at(s_text, j2) is Some {
            lemma_try_match_bounds(s_text, j2);
            let p2 = try_match_at(s_text, j2)->Some_0;
            assert(forall|x: int| j2 <= x < p2.1 ==> s_text[x] == text[x + off]);
            lemma_try_match_transfer(s_text, text, off, j2);
        }
    }
    crate::pattern::lemma_no_match_no_captures(s_text, 0);
    assert(valid_utf8(chunks.last()));
}

/// No-match law: a stream in whose decoded text no marker starts anywhere
/// yields no capture at all, whatever the chunking and the ceiling.
pub proof fn lemma_no_match_stream(chunks: Seq<Seq<u8>>, c: int)
    requires
        c >= 0,
        forall|i: int| 0 <= i < chunks.len() ==> valid_utf8(#[trigger] chunks[i]),
        forall|j: int|
            0 <= j < concat_texts(texts_of(chunks)).len() ==> try_match_at(
                concat_texts(texts_of(chunks)),
                j,
            ) is None,
    ensures
        run_from(Seq::<char>::empty(), Seq::<Seq<char>>::empty(), chunks, c).1.len() == 0,
    decreases chunks.len(),
{
    let text = concat_texts(texts_of(chunks));
    if chunks.len() > 0 {
        let pre = chunks.drop_last();
        assert(pre.push(chunks.last()) =~~= chunks);
        lemma_run_from_snoc(Seq::<char>::empty(), Seq::<Seq<char>>::empty(), pre, chunks.last(), c);
        assert(forall|i: int| 0 <= i < pre.len() ==> valid_utf8(#[trigger] pre[i]));
        let ptext = concat_texts(texts_of(pre));
        assert(texts_of(chunks).drop_last() =~~= texts_of(pre));
        assert(texts_of(chunks).last() == decode_utf8(chunks.last()));
        assert(text == ptext + decode_utf8(chunks.last()));
        assert forall|j: int| 0 <= j < ptext.len() implies try_match_at(ptext, j) is None by {
            if try_match_at(ptext, j) is Some {
                lemma_try_match_bounds(ptext, j);
                let pe = try_match_at(ptext, j)->Some_0;
                assert(forall|x: int| j <= x < pe.1 ==> ptext[x] == text[x]);
                lemma_try_match_transfer(ptext, text, 0, j);
            }
        }
        lemma_no_match_stream(pre, c);
        lemma_run_window(pre, c);
        lemma_window_suffix(texts_of(pre), c);
        let w = window_after(texts_of(pre), c);
        let s_text = w + decode_utf8(chunks.last());
        let off = ptext.len() - w.len();
        assert(s_text =~= text.skip(off));
        assert forall|j: int| 0 <= j < s_text.len() implies try_match_at(s_text, j) is None by {
            if try_match_at(s_text, j) is Some {
                lemma_try_match_bounds(s_text, j);
                let pe = try_match_at(s_text, j)->Some_0;
                assert(forall|x: int| j <= x < pe.1 ==> s_text[x] == text[x + off]);
                lemma_try_match_transfer(s_text, text, off, j);
            }
        }
        crate::pattern::lemma_no_match_no_captures(s_text, 0);
        assert(valid_utf8(chunks.last()));
    }
}

/// Purely ASCII bytes, as the metadata-dump tool emits.
pub open spec fn ascii_bytes(d: Seq<u8>) -> bool {
    forall|i: int| 0 <= i < d.len() ==> d[i] < 0x80
}

/// ASCII bytes read as text, one character per byte.
pub open spec fn ascii_text(d: Seq<u8>) -> Seq<char> {
    Seq::new(d.len(), |i: int| d[i] as char)
}

/// ASCII bytes are valid UTF-8 and decode to themselves.
pub proof fn lemma_ascii_decode(d: Seq<u8>)
    requires
        ascii_bytes(d),
    ensures
        valid_utf8(d),
        decode_utf8(d) == ascii_text(d),
    decreases d.len(),
{
    if d.len() > 0 {
        let b0 = d[0];
        assert(b0 & 0x7f == b0) by (bit_vector)
            requires
                b0 < 0x80,
        ;
        assert(vstd::utf8::length_of_first_scalar(d) == 1);
        assert(vstd::utf8::pop_first_scalar(d) =~= d.drop_first());
        assert(ascii_bytes(d.drop_first()));
        lemma_ascii_decode(d.drop_first());
        assert(vstd::utf8::decode_first_scalar(d) == b0 as u32);
        assert((b0 as u32) as char == b0 as char);
        assert(decode_utf8(d) =~= ascii_text(d));
    } else {
        assert(decode_utf8(d) =~= ascii_text(d));
    }
}

proof fn lemma_concat_cons(t: Seq<char>, ts: Seq<Seq<char>>)
    ensures
        concat_texts(seq![t] + ts) == t + concat_texts(ts),
    decreases ts.len(),
{
    reveal_with_fuel(concat_texts, 3);
    if ts.len() == 0 {
        assert(seq![t] + ts =~~= seq![t]);
        assert(Seq::<char>::empty() + t =~= t);
        assert(t + Seq::<char>::empty() =~= t);
    } else {
        assert((seq![t] + ts).drop_last() =~~= seq![t] + ts.drop_last());
        assert((seq![t] + ts).last() == ts.last());
        lemma_concat_cons(t, ts.drop_last());
        assert((t + concat_texts(ts.drop_last())) + ts.last() =~= t + (concat_texts(ts.drop_last())
            + ts.last()));
    }
}

/// An ASCII stream split into chunks: every chunk is valid UTF-8, and the
/// decoded chunk texts concatenate back to the stream read as text. This
/// lets the boundary-span and no-match laws speak about the chunking that
/// the byte-level scan performs.
pub proof fn lemma_chunk_split_ascii(d: Seq<u8>, n: int)
    requires
        n >= 1,
        ascii_bytes(d),
    ensures
        forall|i: int|
            0 <= i < crate::matcher::chunk_split(d, n).len() ==> valid_utf8(
                #[trigger] crate::matcher::chunk_split(d, n)[i],
            ),
        concat_texts(texts_of(crate::matcher::chunk_split(d, n))) == ascii_text(d),
    decreases d.len(),
{
    let cs = crate::matcher::chunk_split(d, n);
    if d.len() == 0 {
        assert(concat_texts(texts_of(cs)) =~= ascii_text(d));
    } else if d.len() <= n {
        lemma_ascii_decode(d);
        assert(cs == seq![d]);
        assert(texts_of(cs) =~~= seq![decode_utf8(d)] + Seq::<Seq<char>>::empty());
        lemma_concat_cons(decode_utf8(d), Seq::<Seq<char>>::empty());
        assert(concat_texts(Seq::<Seq<char>>::empty()).len() == 0);
        assert(decode_utf8(d) + concat_texts(Seq::<Seq<char>>::empty()) =~= decode_utf8(d));
    } else {
        let head = d.take(n);
        let rest = d.skip(n);
        assert(ascii_bytes(head));
        assert(ascii_bytes(rest));
        lemma_ascii_decode(head);
        lemma_chunk_split_ascii(rest, n);
        let rs = crate::matcher::chunk_split(rest, n);
        assert(cs == seq![head] + rs);
        assert forall|i: int| 0 <= i < cs.len() implies valid_utf8(#[trigger] cs[i]) by {
            if i > 0 {
                assert(cs[i] == rs[i - 1]);
            }
        }
        assert(texts_of(cs) =~~= seq![decode_utf8(head)] + texts_of(rs));
        lemma_concat_cons(decode_utf8(head), texts_of(rs));
        assert(ascii_text(head) + ascii_text(rest) =~= ascii_text(d));
    }
}

proof fn lemma_concat_split(ts: Seq<Seq<char>>, m: int)
    requires
        0 <= m <= ts.len(),
    ensures
        concat_texts(ts) == concat_texts(ts.take(m)) + concat_texts(ts.skip(m)),
    decreases ts.len(),
{
    if m == ts.len() {
        assert(ts.take(m) =~~= ts);
        assert(ts.skip(m).len() == 0);
        assert(concat_texts(ts) + Seq::<char>::empty() =~= concat_texts(ts));
    } else {
        lemma_concat_split(ts.drop_last(), m);
        assert(ts.drop_last().take(m) =~~= ts.take(m));
        assert(ts.skip(m).drop_last() =~~= ts.drop_last().skip(m));
        assert(ts.skip(m).last() == ts.last());
        assert(ts.skip(m).len() > 0);
        assert((concat_texts(ts.take(m)) + concat_texts(ts.drop_last().skip(m))) + ts.last() =~=
            concat_texts(ts.take(m)) + (concat_texts(ts.drop_last().skip(m)) + ts.last()));
    }
}

} // verus!
