//! The line and field structure of the California Housing CSV text; the
//! numeric fields themselves are parsed by the application.

use vstd::prelude::*;

verus! {

/// The spans `[start, end)` of the fields of `s[pos..to)` separated by
/// `sep`, the current field having started at `start`.
pub open spec fn field_spans(s: Seq<u8>, sep: u8, pos: int, to: int, start: int) -> Seq<(int, int)>
    decreases to - pos,
{
    if pos >= to {
        seq![(start, to)]
    } else if s[pos] == sep {
        seq![(start, pos)] + field_spans(s, sep, pos + 1, to, pos + 1)
    } else {
        field_spans(s, sep, pos + 1, to, start)
    }
}

/// The spans `[start, end)` of the lines of `s` from `pos` on, the current
/// line having started at `start`: lines end at `\n`, which is dropped
/// with a `\r` just before it; a last line without `\n` is kept unless it
/// is empty.
pub open spec fn line_spans(s: Seq<u8>, pos: int, start: int) -> Seq<(int, int)>
    decreases s.len() - pos,
{
    if pos >= s.len() {
        if start >= s.len() {
            Seq::empty()
        } else {
            seq![(start, s.len() as int)]
        }
    } else if s[pos] == 10 {
        let end = if pos > start && s[pos - 1] == 13 { pos - 1 } else { pos };
        seq![(start, end)] + line_spans(s, pos + 1, pos + 1)
    } else {
        line_spans(s, pos + 1, start)
    }
}

/// `spans` cut `s[from..to)` at every `sep` and nowhere else: they start
/// at `from` and end at `to`, consecutive spans are separated by exactly
/// one byte, which is `sep`, and no span contains `sep`.
pub open spec fn splits_at(s: Seq<u8>, sep: u8, spans: Seq<(int, int)>, from: int, to: int) -> bool {
    &&& spans.len() >= 1
    &&& spans[0].0 == from
    &&& spans.last().1 == to
    &&& forall|k: int| 0 <= k < spans.len() ==> #[trigger] spans[k].0 <= spans[k].1
    &&& forall|k: int|
        0 <= k < spans.len() - 1 ==> s[#[trigger] spans[k].1] == sep && spans[k + 1].0 == spans[k].1 + 1
    &&& forall|k: int, p: int| 0 <= k < spans.len() && #[trigger] spans[k].0 <= p < spans[k].1 ==> #[trigger] s[p] != sep
}

proof fn lemma_field_spans_split(s: Seq<u8>, sep: u8, pos: int, to: int, cur: int)
    requires
        0 <= cur <= pos <= to <= s.len(),
        forall|p: int| cur <= p < pos ==> s[p] != sep,
    ensures
        splits_at(s, sep, field_spans(s, sep, pos, to, cur), cur, to),
    decreases to - pos,
{
    let f = field_spans(s, sep, pos, to, cur);
    if pos >= to {
        assert(f == seq![(cur, to)]);
    } else if s[pos] == sep {
        let g = field_spans(s, sep, pos + 1, to, pos + 1);
        lemma_field_spans_split(s, sep, pos + 1, to, pos + 1);
        assert(f == seq![(cur, pos)] + g);
        assert forall|k: int| 0 <= k < f.len() - 1 implies s[#[trigger] f[k].1] == sep && f[k + 1].0 == f[k].1
            + 1 by {
            if k > 0 {
                assert(f[k] == g[k - 1]);
                assert(f[k + 1] == g[k]);
            }
        }
        assert forall|k: int, p: int| 0 <= k < f.len() && #[trigger] f[k].0 <= p < f[k].1 implies #[trigger] s[p]
            != sep by {
            if k > 0 {
                assert(f[k] == g[k - 1]);
            }
        }
        assert forall|k: int| 0 <= k < f.len() implies #[trigger] f[k].0 <= f[k].1 by {
            if k > 0 {
                assert(f[k] == g[k - 1]);
            }
        }
    } else {
        lemma_field_spans_split(s, sep, pos + 1, to, cur);
    }
}

/// The fields of `s[start..end)` cut it at every `sep` and nowhere else.
pub proof fn lemma_fields_split_at_separators(s: Seq<u8>, sep: u8, start: int, end: int)
    requires
        0 <= start <= end <= s.len(),
    ensures
        splits_at(s, sep, field_spans(s, sep, start, end, start), start, end),
{
    lemma_field_spans_split(s, sep, start, end, start);
}

/// The line `s[a..e)` is ended by a line feed: either at `e`, with no
/// carriage return just before it inside the line, or at `e + 1` after a
/// carriage return at `e`.
pub open spec fn ends_line(s: Seq<u8>, a: int, e: int) -> bool {
    ||| e < s.len() && s[e] == 10 && !(e > a && s[e - 1] == 13)
    ||| e + 1 < s.len() && s[e] == 13 && s[e + 1] == 10
}

/// Where the line after a line ending at `e` starts.
pub open spec fn next_line_start(s: Seq<u8>, e: int) -> int {
    if s[e] == 10 {
        e + 1
    } else {
        e + 2
    }
}

/// `spans` are the lines of `s`: none for an empty text; otherwise they
/// start at 0, hold no line feed, each but the last is ended by a line
/// feed (with a carriage return before it left out) and followed by the
/// next, and the last either reaches the end of the text or is ended by a
/// line feed that is the text's last byte.
pub open spec fn splits_lines(s: Seq<u8>, spans: Seq<(int, int)>) -> bool {
    &&& (s.len() == 0) == (spans.len() == 0)
    &&& spans.len() > 0 ==> spans[0].0 == 0
    &&& forall|k: int| 0 <= k < spans.len() ==> 0 <= #[trigger] spans[k].0 <= spans[k].1 <= s.len()
    &&& forall|k: int, p: int| 0 <= k < spans.len() && #[trigger] spans[k].0 <= p < spans[k].1 ==> #[trigger] s[p] != 10
    &&& forall|k: int|
        0 <= k < spans.len() - 1 ==> ends_line(s, #[trigger] spans[k].0, spans[k].1) && spans[k + 1].0
            == next_line_start(s, spans[k].1)
    &&& spans.len() > 0 ==> (spans.last().1 == s.len() || (ends_line(s, spans.last().0, spans.last().1)
        && next_line_start(s, spans.last().1) == s.len()))
}

proof fn lemma_line_spans_split(s: Seq<u8>, pos: int, start: int)
    requires
        0 <= start <= pos <= s.len(),
        forall|p: int| start <= p < pos ==> s[p] != 10,
    ensures
        ({
            let l = line_spans(s, pos, start);
            &&& (start == s.len()) == (l.len() == 0)
            &&& l.len() > 0 ==> l[0].0 == start
            &&& forall|k: int| 0 <= k < l.len() ==> start <= #[trigger] l[k].0 <= l[k].1 <= s.len()
            &&& forall|k: int, p: int| 0 <= k < l.len() && #[trigger] l[k].0 <= p < l[k].1 ==> #[trigger] s[p] != 10
            &&& forall|k: int|
                0 <= k < l.len() - 1 ==> ends_line(s, #[trigger] l[k].0, l[k].1) && l[k + 1].0
                    == next_line_start(s, l[k].1)
            &&& l.len() > 0 ==> (l.last().1 == s.len() || (ends_line(s, l.last().0, l.last().1)
                && next_line_start(s, l.last().1) == s.len()))
        }),
    decreases s.len() - pos,
{
    let l = line_spans(s, pos, start);
    if pos >= s.len() {
    } else if s[pos] == 10 {
        let e = if pos > start && s[pos - 1] == 13 { pos - 1 } else { pos };
        let g = line_spans(s, pos + 1, pos + 1);
        lemma_line_spans_split(s, pos + 1, pos + 1);
        assert(l == seq![(start, e)] + g);
        assert(ends_line(s, start, e));
        assert(next_line_start(s, e) == pos + 1);
        assert forall|k: int| 0 <= k < l.len() implies start <= #[trigger] l[k].0 <= l[k].1 <= s.len() by {
            if k > 0 {
                assert(l[k] == g[k - 1]);
            }
        }
        assert forall|k: int, p: int| 0 <= k < l.len() && #[trigger] l[k].0 <= p < l[k].1 implies #[trigger] s[p]
            != 10 by {
            if k > 0 {
                assert(l[k] == g[k - 1]);
            }
        }
        assert forall|k: int| 0 <= k < l.len() - 1 implies ends_line(s, #[trigger] l[k].0, l[k].1) && l[k + 1].0
            == next_line_start(s, l[k].1) by {
            if k > 0 {
                assert(l[k] == g[k - 1]);
                assert(l[k + 1] == g[k]);
            }
        }
        if g.len() > 0 {
            assert(l.last() == g.last());
        }
    } else {
        lemma_line_spans_split(s, pos + 1, start);
    }
}

/// The lines found from the start of a text are its lines.
pub proof fn lemma_lines_split_at_line_feeds(s: Seq<u8>)
    ensures
        splits_lines(s, line_spans(s, 0, 0)),
{
    lemma_line_spans_split(s, 0, 0);
}

/// `v` holds the spans `spans`.
pub open spec fn spans_are(v: Seq<(usize, usize)>, spans: Seq<(int, int)>) -> bool {
    &&& v.len() == spans.len()
    &&& forall|i: int| 0 <= i < v.len() ==> (#[trigger] v[i].0 as int, v[i].1 as int) == spans[i]
}

proof fn lemma_spans_push(v: Seq<(usize, usize)>, spans: Seq<(int, int)>, x: (usize, usize), rest: Seq<(int, int)>)
    requires
        spans_are(v, spans),
    ensures
        spans_are(v.push(x), spans.push((x.0 as int, x.1 as int))),
        spans.push((x.0 as int, x.1 as int)) + rest == spans + (seq![(x.0 as int, x.1 as int)] + rest),
{
    assert(spans.push((x.0 as int, x.1 as int)) + rest =~= spans + (seq![(x.0 as int, x.1 as int)] + rest));
    assert forall|i: int| 0 <= i < v.push(x).len() implies (#[trigger] v.push(x)[i].0 as int, v.push(x)[i].1 as int)
        == spans.push((x.0 as int, x.1 as int))[i] by {
        if i < v.len() {
            assert(v.push(x)[i] == v[i]);
        }
    }
}

/// The spans of the fields of `bytes[start..end)` separated by `sep`, as
/// `str::split` gives them: as many fields as separators plus one, empty
/// fields included.
pub fn split_fields(bytes: &[u8], start: usize, end: usize, sep: u8) -> (fields: Vec<(usize, usize)>)
    requires
        start <= end <= bytes@.len(),
    ensures
        spans_are(fields@, field_spans(bytes@, sep, start as int, end as int, start as int)),
        splits_at(bytes@, sep, field_spans(bytes@, sep, start as int, end as int, start as int), start as int, end as int),
{
    proof {
        lemma_fields_split_at_separators(bytes@, sep, start as int, end as int);
    }
    let mut fields: Vec<(usize, usize)> = Vec::new();
    let mut pos = start;
    let mut cur = start;
    let ghost done: Seq<(int, int)> = Seq::empty();
    while pos < end
        invariant
            start <= cur <= pos <= end <= bytes@.len(),
            spans_are(fields@, done),
            done + field_spans(bytes@, sep, pos as int, end as int, cur as int) == field_spans(
                bytes@,
                sep,
                start as int,
                end as int,
                start as int,
            ),
        decreases end - pos,
    {
        if bytes[pos] == sep {
            proof {
                lemma_spans_push(
                    fields@,
                    done,
                    (cur, pos),
                    field_spans(bytes@, sep, pos + 1, end as int, pos + 1),
                );
                done = done.push((cur as int, pos as int));
            }
            fields.push((cur, pos));
            cur = pos + 1;
        }
        pos = pos + 1;
    }
    proof {
        lemma_spans_push(fields@, done, (cur, end), Seq::empty());
        assert(done.push((cur as int, end as int)) =~= done + seq![(cur as int, end as int)]);
    }
    fields.push((cur, end));
    fields
}

/// The spans of the lines of `bytes`, as `str::lines` gives them.
pub fn split_lines(bytes: &[u8]) -> (lines: Vec<(usize, usize)>)
    ensures
        spans_are(lines@, line_spans(bytes@, 0, 0)),
        splits_lines(bytes@, line_spans(bytes@, 0, 0)),
{
    proof {
        lemma_lines_split_at_line_feeds(bytes@);
    }
    let len = bytes.len();
    let mut lines: Vec<(usize, usize)> = Vec::new();
    let mut pos: usize = 0;
    let mut cur: usize = 0;
    let ghost done: Seq<(int, int)> = Seq::empty();
    while pos < len
        invariant
            len == bytes@.len(),
            cur <= pos <= len,
            spans_are(lines@, done),
            done + line_spans(bytes@, pos as int, cur as int) == line_spans(bytes@, 0, 0),
        decreases len - pos,
    {
        if bytes[pos] == 10 {
            let end = if pos > cur && bytes[pos - 1] == 13 {
                pos - 1
            } else {
                pos
            };
            proof {
                lemma_spans_push(lines@, done, (cur, end), line_spans(bytes@, pos + 1, pos + 1));
                done = done.push((cur as int, end as int));
            }
            lines.push((cur, end));
            cur = pos + 1;
        }
        pos = pos + 1;
    }
    if cur < len {
        proof {
            lemma_spans_push(lines@, done, (cur, len), Seq::empty());
            assert(done.push((cur as int, len as int)) =~= done + seq![(cur as int, len as int)]);
        }
        lines.push((cur, len));
    } else {
        assert(done + Seq::<(int, int)>::empty() =~= done);
    }
    lines
}

} // verus!
