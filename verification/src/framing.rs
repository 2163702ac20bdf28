//! Line framing over a byte stream.
//!
//! A peer's bytes arrive in arbitrary chunks with no message boundaries; a
//! frame ends at a newline byte. This module reassembles complete lines from
//! the front of a per-connection buffer and keeps the trailing fragment for
//! the next delivery. The spec function [`split_frames`] is the mathematical
//! model: it maps any byte sequence to its complete lines and its residual
//! tail, and [`lemma_framing_correctness`] shows that feeding a stream chunk
//! by chunk extracts exactly the lines of the whole stream, however the
//! chunks are cut.

use vstd::prelude::*;

verus! {

/// The wire delimiter: one newline byte ends each frame.
pub const NEWLINE: u8 = 10;

/// Holds when no byte of `s` is the line delimiter.
pub open spec fn no_newline(s: Seq<u8>) -> bool {
    forall|i: int| 0 <= i < s.len() ==> s[i] != NEWLINE
}

/// The complete lines of a byte stream, delimiters stripped, paired with the
/// residual bytes that follow the last delimiter.
pub open spec fn split_frames(s: Seq<u8>) -> (Seq<Seq<u8>>, Seq<u8>)
    decreases s.len(),
{
    if s.len() == 0 {
        (Seq::<Seq<u8>>::empty(), Seq::<u8>::empty())
    } else {
        let rest = split_frames(s.skip(1));
        if s[0] == NEWLINE {
            (seq![Seq::<u8>::empty()] + rest.0, rest.1)
        } else if rest.0.len() > 0 {
            (rest.0.update(0, seq![s[0]] + rest.0[0]), rest.1)
        } else {
            (rest.0, seq![s[0]] + rest.1)
        }
    }
}

/// A delimiter-free stream has no complete line: it is all residue.
pub proof fn lemma_split_no_newline(s: Seq<u8>)
    requires
        no_newline(s),
    ensures
        split_frames(s).0 == Seq::<Seq<u8>>::empty(),
        split_frames(s).1 == s,
    decreases s.len(),
{
    if s.len() == 0 {
        assert(split_frames(s).1 =~= s);
    } else {
        assert(forall|i: int| 0 <= i < s.skip(1).len() ==> #[trigger] s.skip(1)[i] == s[i + 1]);
        lemma_split_no_newline(s.skip(1));
        assert(s[0] != NEWLINE);
        assert(split_frames(s).1 =~= s);
    }
}

/// Neither the extracted lines nor the residue of a split contain the
/// delimiter.
pub proof fn lemma_split_parts_clean(s: Seq<u8>)
    ensures
        no_newline(split_frames(s).1),
        forall|k: int| 0 <= k < split_frames(s).0.len() ==> no_newline(#[trigger] split_frames(s).0[k]),
    decreases s.len(),
{
    if s.len() == 0 {
    } else {
        lemma_split_parts_clean(s.skip(1));
        let rest = split_frames(s.skip(1));
        if s[0] == NEWLINE {
            assert(forall|k: int| 0 <= k < split_frames(s).0.len() ==> no_newline(
                #[trigger] split_frames(s).0[k],
            )) by {
                assert(forall|k: int| 1 <= k < split_frames(s).0.len() ==> split_frames(s).0[k]
                    == rest.0[k - 1]);
            }
        } else if rest.0.len() > 0 {
            assert(no_newline(seq![s[0]] + rest.0[0]));
        } else {
            assert(no_newline(seq![s[0]] + rest.1));
        }
    }
}

/// Splitting a stream whose first delimiter stands at `k` yields the bytes
/// before `k` as the first line, and then splits the bytes after `k`.
pub proof fn lemma_split_at_first(s: Seq<u8>, k: int)
    requires
        0 <= k < s.len(),
        s[k] == NEWLINE,
        no_newline(s.take(k)),
    ensures
        split_frames(s).0 == seq![s.take(k)] + split_frames(s.skip(k + 1)).0,
        split_frames(s).1 == split_frames(s.skip(k + 1)).1,
    decreases k,
{
    if k == 0 {
        assert(s.take(0) =~= Seq::<u8>::empty());
        assert(split_frames(s).0 =~~= seq![s.take(0)] + split_frames(s.skip(1)).0);
    } else {
        let t = s.skip(1);
        assert(s.take(k)[0] == s[0]);
        assert(s[0] != NEWLINE);
        assert(t[k - 1] == s[k]);
        assert(forall|i: int| 0 <= i < k - 1 ==> #[trigger] t.take(k - 1)[i] == s.take(k)[i + 1]);
        assert(no_newline(t.take(k - 1)));
        lemma_split_at_first(t, k - 1);
        let after = split_frames(t.skip(k)).0;
        assert(split_frames(t).0 == seq![t.take(k - 1)] + after);
        assert(split_frames(t).0.len() > 0);
        assert(split_frames(t).0[0] == t.take(k - 1));
        assert(seq![s[0]] + t.take(k - 1) =~= s.take(k));
        assert(t.skip(k) =~= s.skip(k + 1));
        assert((seq![t.take(k - 1)] + after).update(0, s.take(k)) =~~= seq![s.take(k)] + after);
        assert(split_frames(s).0 =~~= seq![s.take(k)] + split_frames(s.skip(k + 1)).0);
    }
}

/// Splitting a concatenation equals splitting the first part and then
/// splitting its residue joined with the second part: the split is a
/// streaming process.
pub proof fn lemma_split_append(a: Seq<u8>, b: Seq<u8>)
    ensures
        split_frames(a + b).0 == split_frames(a).0 + split_frames(split_frames(a).1 + b).0,
        split_frames(a + b).1 == split_frames(split_frames(a).1 + b).1,
    decreases a.len(),
{
    if a.len() == 0 {
        assert(a + b =~= b);
        assert(split_frames(a).1 + b =~= b);
        assert(split_frames(a).0 + split_frames(b).0 =~~= split_frames(b).0);
    } else {
        let a2 = a.skip(1);
        assert((a + b).len() > 0);
        assert((a + b)[0] == a[0]);
        assert((a + b).skip(1) =~= a2 + b);
        lemma_split_append(a2, b);
        let ra = split_frames(a2);
        let rab = split_frames(a2 + b);
        let x = split_frames(ra.1 + b);
        if a[0] == NEWLINE {
            assert(split_frames(a).0 =~~= seq![Seq::<u8>::empty()] + ra.0);
            assert(split_frames(a).1 == ra.1);
            assert(split_frames(a + b).0 =~~= seq![Seq::<u8>::empty()] + rab.0);
            assert(seq![Seq::<u8>::empty()] + (ra.0 + x.0) =~~= (seq![Seq::<u8>::empty()] + ra.0)
                + x.0);
        } else if ra.0.len() > 0 {
            assert(split_frames(a).0 == ra.0.update(0, seq![a[0]] + ra.0[0]));
            assert(split_frames(a).1 == ra.1);
            assert(rab.0.len() > 0);
            assert(rab.0[0] == ra.0[0]);
            assert(split_frames(a + b).0 == rab.0.update(0, seq![a[0]] + rab.0[0]));
            assert(rab.0.update(0, seq![a[0]] + rab.0[0]) =~~= ra.0.update(
                0,
                seq![a[0]] + ra.0[0],
            ) + x.0);
        } else {
            // No complete line in `a2`: the first byte of `a` moves into the
            // residue, and the claim unfolds one step of the split of
            // `residue + b`.
            assert(split_frames(a).0 =~~= Seq::<Seq<u8>>::empty());
            assert(split_frames(a).1 == seq![a[0]] + ra.1);
            assert(rab.0 =~~= x.0);
            assert(rab.1 == x.1);
            let y = split_frames(a).1 + b;
            assert(y.len() > 0);
            assert(y[0] == a[0]);
            assert(y.skip(1) =~= ra.1 + b);
            if x.0.len() > 0 {
                assert(split_frames(y).0 == x.0.update(0, seq![a[0]] + x.0[0]));
                assert(split_frames(a + b).0 == rab.0.update(0, seq![a[0]] + rab.0[0]));
                assert(rab.0.update(0, seq![a[0]] + rab.0[0]) =~~= split_frames(a).0
                    + split_frames(y).0);
            } else {
                assert(split_frames(y).0 =~~= x.0);
                assert(split_frames(y).1 == seq![a[0]] + x.1);
                assert(split_frames(a + b).0 =~~= split_frames(a).0 + split_frames(y).0);
                assert(split_frames(a + b).1 == seq![a[0]] + rab.1);
            }
        }
    }
}

/// The streaming reassembly process: starting from a residual buffer, each
/// chunk is appended and the complete lines are taken off the front; the
/// lines of all steps are collected in order.
pub open spec fn feed_chunks(buffer: Seq<u8>, chunks: Seq<Seq<u8>>) -> (Seq<Seq<u8>>, Seq<u8>)
    decreases chunks.len(),
{
    if chunks.len() == 0 {
        (Seq::<Seq<u8>>::empty(), buffer)
    } else {
        let first = split_frames(buffer + chunks[0]);
        let rest = feed_chunks(first.1, chunks.skip(1));
        (first.0 + rest.0, rest.1)
    }
}

/// The concatenation of a sequence of chunks.
pub open spec fn concat_chunks(chunks: Seq<Seq<u8>>) -> Seq<u8>
    decreases chunks.len(),
{
    if chunks.len() == 0 {
        Seq::<u8>::empty()
    } else {
        chunks[0] + concat_chunks(chunks.skip(1))
    }
}

/// Feeding a stream chunk by chunk extracts exactly the lines of the whole
/// stream: how the bytes are cut into deliveries does not matter.
pub proof fn lemma_feed_is_split(buffer: Seq<u8>, chunks: Seq<Seq<u8>>)
    requires
        no_newline(buffer),
    ensures
        feed_chunks(buffer, chunks).0 == split_frames(buffer + concat_chunks(chunks)).0,
        feed_chunks(buffer, chunks).1 == split_frames(buffer + concat_chunks(chunks)).1,
    decreases chunks.len(),
{
    if chunks.len() == 0 {
        assert(buffer + concat_chunks(chunks) =~= buffer);
        lemma_split_no_newline(buffer);
        assert(feed_chunks(buffer, chunks).0 =~~= split_frames(buffer).0);
    } else {
        let first = split_frames(buffer + chunks[0]);
        lemma_split_parts_clean(buffer + chunks[0]);
        lemma_feed_is_split(first.1, chunks.skip(1));
        lemma_split_append(buffer + chunks[0], concat_chunks(chunks.skip(1)));
        assert((buffer + chunks[0]) + concat_chunks(chunks.skip(1)) =~= buffer + concat_chunks(
            chunks,
        ));
        assert(feed_chunks(buffer, chunks).0 =~~= split_frames(buffer + concat_chunks(chunks)).0);
    }
}

/// A delimiter-free text followed by one delimiter splits into exactly that
/// text as the single line, with nothing left over.
pub proof fn lemma_single_frame(text: Seq<u8>)
    requires
        no_newline(text),
    ensures
        split_frames(text + seq![NEWLINE]).0 == seq![text],
        split_frames(text + seq![NEWLINE]).1 == Seq::<u8>::empty(),
{
    let s = text + seq![NEWLINE];
    let n = text.len() as int;
    assert(s[n] == NEWLINE);
    assert(s.take(n) =~= text);
    lemma_split_at_first(s, n);
    assert(s.skip(n + 1) =~= Seq::<u8>::empty());
    assert(seq![s.take(n)] + split_frames(Seq::<u8>::empty()).0 =~~= seq![text]);
}

/// Framing correctness: however a message's bytes, followed by one
/// delimiter, are cut across separate deliveries, reassembly yields exactly
/// one line equal to the message — never truncated, merged, or duplicated —
/// and an empty residue.
pub proof fn lemma_framing_correctness(chunks: Seq<Seq<u8>>, text: Seq<u8>)
    requires
        concat_chunks(chunks) == text + seq![NEWLINE],
        no_newline(text),
    ensures
        feed_chunks(Seq::<u8>::empty(), chunks).0 == seq![text],
        feed_chunks(Seq::<u8>::empty(), chunks).1 == Seq::<u8>::empty(),
{
    lemma_feed_is_split(Seq::<u8>::empty(), chunks);
    assert(Seq::<u8>::empty() + concat_chunks(chunks) =~= text + seq![NEWLINE]);
    lemma_single_frame(text);
}

/// Scans for the first delimiter byte of the buffer.
fn find_newline(buffer: &Vec<u8>) -> (r: Option<usize>)
    ensures
        match r {
            Some(k) => k < buffer@.len() && buffer@[k as int] == NEWLINE && no_newline(
                buffer@.take(k as int),
            ),
            None => no_newline(buffer@),
        },
{
    let mut i: usize = 0;
    while i < buffer.len()
        invariant
            i <= buffer@.len(),
            no_newline(buffer@.take(i as int)),
        decreases buffer@.len() - i,
    {
        if buffer[i] == NEWLINE {
            return Some(i);
        }
        proof {
            assert(forall|j: int|
                0 <= j < i + 1 ==> #[trigger] buffer@.take(i + 1)[j] == buffer@[j]);
        }
        i += 1;
    }
    proof {
        assert(buffer@.take(i as int) =~= buffer@);
    }
    None
}

/// Appends a delivery to the buffer, then removes every complete line from
/// the front, returning the lines in arrival order; the bytes after the last
/// delimiter stay buffered for the next delivery.
pub fn drain_frames(buffer: &mut Vec<u8>, data: &[u8]) -> (lines: Vec<Vec<u8>>)
    ensures
        lines.deep_view() == split_frames(old(buffer)@ + data@).0,
        final(buffer)@ == split_frames(old(buffer)@ + data@).1,
        no_newline(final(buffer)@),
{
    buffer.extend_from_slice(data);
    proof {
        assert(buffer@ =~= old(buffer)@ + data@);
    }
    let ghost s0 = buffer@;
    let mut lines: Vec<Vec<u8>> = Vec::new();
    proof {
        assert(lines.deep_view() + split_frames(buffer@).0 =~~= split_frames(s0).0);
    }
    loop
        invariant
            s0 == old(buffer)@ + data@,
            split_frames(s0).0 == lines.deep_view() + split_frames(buffer@).0,
            split_frames(s0).1 == split_frames(buffer@).1,
        decreases buffer@.len(),
    {
        let k_opt = find_newline(buffer);
        match k_opt {
            None => {
                proof {
                    lemma_split_no_newline(buffer@);
                    assert(lines.deep_view() + split_frames(buffer@).0 =~~= lines.deep_view());
                    lemma_split_parts_clean(s0);
                }
                return lines;
            },
            Some(k) => {
                let ghost b0 = buffer@;
                let ghost lines0 = lines.deep_view();
                let blen = buffer.len();
                assert(k < blen);
                let mut tail = buffer.split_off(k + 1);
                let _ = buffer.pop();
                let line = buffer.clone();
                proof {
                    assert(buffer@ =~= b0.take(k as int));
                    assert(line@ =~= buffer@);
                }
                buffer.clear();
                buffer.append(&mut tail);
                lines.push(line);
                proof {
                    assert(buffer@ =~= b0.skip(k + 1));
                    lemma_split_at_first(b0, k as int);
                    assert(lines.deep_view() =~~= lines0.push(b0.take(k as int)));
                    assert(lines.deep_view() + split_frames(buffer@).0 =~~= lines0 + (seq![
                        b0.take(k as int),
                    ] + split_frames(b0.skip(k + 1)).0));
                }
            },
        }
    }
}

} // verus!
