//! The versioned binary snapshot: a deterministic word-based encoding of
//! the whole history, and a bounds-checked decoder that rejects foreign
//! versions and oversized structures rather than trusting them.

use vstd::prelude::*;
use std::collections::VecDeque;

use crate::history::{History, HistoryV, Tip, TipV};
use crate::keys::{Key, KeyView};
use crate::ring::{Buffer, BufferV, SeriesRing, SeriesRingV};
use crate::tstamp::Marker;
use crate::values::{Value, ValueKind, ValueV};

verus! {

/// The snapshot format tag this engine writes and accepts.
pub const VERSION_TAG: u64 = 1;

/// Decode-side bound on any list length.
pub const MAX_ARRAY: u64 = 100000;

/// Decode-side bound on a text length, in characters.
pub const MAX_TEXT: u64 = 0x500000;

/// The version tag written first in every persisted snapshot; a snapshot
/// carrying any other tag is rejected whole.
#[derive(Clone, Copy, Debug, PartialEq, Eq, Structural)]
pub struct VersionInfo(pub u64);

impl VersionInfo {
    /// The tag of the running engine.
    pub fn current() -> (r: VersionInfo)
        ensures
            r == VersionInfo(VERSION_TAG),
    {
        VersionInfo(VERSION_TAG)
    }
}

/// The eight little-endian bytes of one word.
pub open spec fn word_bytes(x: u64) -> Seq<u8> {
    seq![
        (x & 0xff) as u8,
        ((x >> 8) & 0xff) as u8,
        ((x >> 16) & 0xff) as u8,
        ((x >> 24) & 0xff) as u8,
        ((x >> 32) & 0xff) as u8,
        ((x >> 40) & 0xff) as u8,
        ((x >> 48) & 0xff) as u8,
        ((x >> 56) & 0xff) as u8,
    ]
}

/// The word read back from eight little-endian bytes.
pub open spec fn word_of_bytes(b: Seq<u8>, pos: int) -> u64 {
    (b[pos] as u64) | ((b[pos + 1] as u64) << 8) | ((b[pos + 2] as u64) << 16) | ((b[pos
        + 3] as u64) << 24) | ((b[pos + 4] as u64) << 32) | ((b[pos + 5] as u64) << 40) | ((b[pos
        + 6] as u64) << 48) | ((b[pos + 7] as u64) << 56)
}

proof fn lemma_word_roundtrip(x: u64)
    ensures
        word_of_bytes(word_bytes(x), 0) == x,
{
    let b = word_bytes(x);
    assert(b[0] == (x & 0xff) as u8);
    assert(b[1] == ((x >> 8) & 0xff) as u8);
    assert(b[2] == ((x >> 16) & 0xff) as u8);
    assert(b[3] == ((x >> 24) & 0xff) as u8);
    assert(b[4] == ((x >> 32) & 0xff) as u8);
    assert(b[5] == ((x >> 40) & 0xff) as u8);
    assert(b[6] == ((x >> 48) & 0xff) as u8);
    assert(b[7] == ((x >> 56) & 0xff) as u8);
    assert((((x & 0xff) as u8) as u64) | ((((x >> 8) & 0xff) as u8 as u64) << 8) | ((((x >> 16)
        & 0xff) as u8 as u64) << 16) | ((((x >> 24) & 0xff) as u8 as u64) << 24) | ((((x >> 32)
        & 0xff) as u8 as u64) << 32) | ((((x >> 40) & 0xff) as u8 as u64) << 40) | ((((x >> 48)
        & 0xff) as u8 as u64) << 48) | ((((x >> 56) & 0xff) as u8 as u64) << 56) == x)
        by (bit_vector);
}

/// The little-endian bytes of a word sequence, in order.
pub open spec fn words_bytes(ws: Seq<u64>) -> Seq<u8>
    decreases ws.len(),
{
    if ws.len() == 0 {
        Seq::empty()
    } else {
        word_bytes(ws[0]) + words_bytes(ws.drop_first())
    }
}

/// The word sequence read back from a byte buffer; `None` when the buffer
/// is not a whole number of words.
pub open spec fn bytes_to_words(b: Seq<u8>) -> Option<Seq<u64>> {
    if b.len() % 8 == 0 {
        Some(Seq::new(b.len() / 8, |i: int| word_of_bytes(b, 8 * i)))
    } else {
        None
    }
}

proof fn lemma_words_bytes_len(ws: Seq<u64>)
    ensures
        words_bytes(ws).len() == 8 * ws.len(),
    decreases ws.len(),
{
    if ws.len() > 0 {
        lemma_words_bytes_len(ws.drop_first());
    }
}

proof fn lemma_words_bytes_index(ws: Seq<u64>, i: int, k: int)
    requires
        0 <= i < ws.len(),
        0 <= k < 8,
    ensures
        words_bytes(ws)[8 * i + k] == word_bytes(ws[i])[k],
    decreases i,
{
    lemma_words_bytes_len(ws);
    lemma_words_bytes_len(ws.drop_first());
    if i == 0 {
        assert(words_bytes(ws)[k] == word_bytes(ws[0])[k]);
    } else {
        lemma_words_bytes_index(ws.drop_first(), i - 1, k);
        assert(ws.drop_first()[i - 1] == ws[i]);
        assert(words_bytes(ws)[8 * i + k] == words_bytes(ws.drop_first())[8 * (i - 1) + k]);
    }
}

proof fn lemma_word_of_bytes_congruent(b1: Seq<u8>, p1: int, b2: Seq<u8>, p2: int)
    requires
        forall|k: int| 0 <= k < 8 ==> #[trigger] b1[p1 + k] == b2[p2 + k],
    ensures
        word_of_bytes(b1, p1) == word_of_bytes(b2, p2),
{
    assert(b1[p1 + 0] == b2[p2 + 0]);
    assert(b1[p1 + 1] == b2[p2 + 1]);
    assert(b1[p1 + 2] == b2[p2 + 2]);
    assert(b1[p1 + 3] == b2[p2 + 3]);
    assert(b1[p1 + 4] == b2[p2 + 4]);
    assert(b1[p1 + 5] == b2[p2 + 5]);
    assert(b1[p1 + 6] == b2[p2 + 6]);
    assert(b1[p1 + 7] == b2[p2 + 7]);
}

/// The byte serialization inverts exactly to the words written.
proof fn lemma_bytes_words_roundtrip(ws: Seq<u64>)
    ensures
        bytes_to_words(words_bytes(ws)) == Some(ws),
{
    let b = words_bytes(ws);
    lemma_words_bytes_len(ws);
    let r = Seq::new(b.len() / 8, |i: int| word_of_bytes(b, 8 * i));
    assert forall|i: int| 0 <= i < ws.len() implies #[trigger] r[i] == ws[i] by {
        assert forall|k: int| 0 <= k < 8 implies b[8 * i + k] == word_bytes(ws[i])[k] by {
            lemma_words_bytes_index(ws, i, k);
        }
        lemma_word_of_bytes_congruent(b, 8 * i, word_bytes(ws[i]), 0);
        lemma_word_roundtrip(ws[i]);
    }
    assert(r =~= ws);
}

proof fn lemma_words_bytes_snoc(ws: Seq<u64>, x: u64)
    ensures
        words_bytes(ws.push(x)) == words_bytes(ws) + word_bytes(x),
    decreases ws.len(),
{
    let p = ws.push(x);
    if ws.len() == 0 {
        assert(p[0] == x);
        assert(p.drop_first() =~= Seq::<u64>::empty());
        assert(words_bytes(p.drop_first()) =~= Seq::<u8>::empty());
        assert(words_bytes(p) == word_bytes(x) + words_bytes(p.drop_first()));
        assert(word_bytes(x) + words_bytes(p.drop_first()) =~= word_bytes(x));
        assert(words_bytes(ws) =~= Seq::<u8>::empty());
        assert(words_bytes(ws) + word_bytes(x) =~= word_bytes(x));
    } else {
        assert(p[0] == ws[0]);
        assert(p.drop_first() =~= ws.drop_first().push(x));
        lemma_words_bytes_snoc(ws.drop_first(), x);
        assert(words_bytes(p) == word_bytes(ws[0]) + (words_bytes(ws.drop_first()) + word_bytes(
            x,
        )));
        assert(words_bytes(ws) == word_bytes(ws[0]) + words_bytes(ws.drop_first()));
        assert(word_bytes(ws[0]) + (words_bytes(ws.drop_first()) + word_bytes(x)) =~= (word_bytes(
            ws[0],
        ) + words_bytes(ws.drop_first())) + word_bytes(x));
    }
}

/// Appends the eight little-endian bytes of `x`.
fn push_word(out: &mut Vec<u8>, x: u64)
    ensures
        final(out)@ == old(out)@ + word_bytes(x),
{
    out.push((x & 0xff) as u8);
    out.push(((x >> 8) & 0xff) as u8);
    out.push(((x >> 16) & 0xff) as u8);
    out.push(((x >> 24) & 0xff) as u8);
    out.push(((x >> 32) & 0xff) as u8);
    out.push(((x >> 40) & 0xff) as u8);
    out.push(((x >> 48) & 0xff) as u8);
    out.push(((x >> 56) & 0xff) as u8);
    proof {
        assert(out@ =~= old(out)@ + word_bytes(x));
    }
}

/// Serializes a word sequence, little-endian, in order.
fn words_to_bytes(ws: &Vec<u64>) -> (r: Vec<u8>)
    ensures
        r@ == words_bytes(ws@),
{
    let mut out: Vec<u8> = Vec::new();
    let n = ws.len();
    let mut i: usize = 0;
    proof {
        assert(words_bytes(ws@.take(0)) =~= Seq::<u8>::empty());
        assert(out@ =~= words_bytes(ws@.take(0)));
    }
    while i < n
        invariant
            n == ws@.len(),
            0 <= i <= n,
            out@ == words_bytes(ws@.take(i as int)),
        decreases n - i,
    {
        push_word(&mut out, ws[i]);
        proof {
            assert(ws@.take(i + 1) =~= ws@.take(i as int).push(ws@[i as int]));
            lemma_words_bytes_snoc(ws@.take(i as int), ws@[i as int]);
        }
        i = i + 1;
    }
    proof {
        assert(ws@.take(n as int) =~= ws@);
    }
    out
}

/// Reads the word at byte offset `pos`.
fn read_word(buf: &Vec<u8>, pos: usize) -> (r: u64)
    requires
        pos + 8 <= buf@.len(),
    ensures
        r == word_of_bytes(buf@, pos as int),
{
    let n = buf.len();
    proof {
        assert(pos + 8 <= n);
    }
    (buf[pos] as u64) | ((buf[pos + 1] as u64) << 8u64) | ((buf[pos + 2] as u64) << 16u64) | ((
    buf[pos + 3] as u64) << 24u64) | ((buf[pos + 4] as u64) << 32u64) | ((buf[pos
        + 5] as u64) << 40u64) | ((buf[pos + 6] as u64) << 48u64) | ((buf[pos + 7] as u64) << 56u64)
}

/// Deserializes a byte buffer into its words; `None` when the buffer is not
/// a whole number of words.
fn bytes_into_words(buf: &Vec<u8>) -> (r: Option<Vec<u64>>)
    ensures
        match r {
            Some(ws) => bytes_to_words(buf@) == Some(ws@),
            None => bytes_to_words(buf@) is None,
        },
{
    let len = buf.len();
    if len % 8 != 0 {
        return None;
    }
    let n = len / 8;
    let mut out: Vec<u64> = Vec::new();
    let mut i: usize = 0;
    while i < n
        invariant
            n == buf@.len() / 8,
            buf@.len() % 8 == 0,
            buf@.len() <= usize::MAX,
            8 * n <= buf@.len(),
            0 <= i <= n,
            out@.len() == i,
            forall|k: int| 0 <= k < i ==> #[trigger] out@[k] == word_of_bytes(buf@, 8 * k),
        decreases n - i,
    {
        let w = read_word(buf, 8 * i);
        out.push(w);
        i = i + 1;
    }
    proof {
        let want = Seq::new(buf@.len() / 8, |k: int| word_of_bytes(buf@, 8 * k));
        assert(out@ =~= want);
    }
    Some(out)
}

} // verus!

verus! {

proof fn lemma_char_code_injective(a: char, b: char)
    requires
        a as u32 == b as u32,
    ensures
        a == b,
{
}

/// The code point of a character, as one word.
pub open spec fn char_code(c: char) -> u64 {
    (c as u32) as u64
}

/// A decoded character: the one whose code point was written, if any code
/// point was.
pub open spec fn char_of_word(w: u64) -> Option<char> {
    if exists|c: char| #[trigger] char_code(c) == w {
        Some(choose|c: char| #[trigger] char_code(c) == w)
    } else {
        None
    }
}

// ----- encoders: the words each model value serializes to -----

/// The code points of a text, one word each.
pub open spec fn enc_chars(s: Seq<char>) -> Seq<u64>
    decreases s.len(),
{
    if s.len() == 0 {
        Seq::empty()
    } else {
        seq![char_code(s[0])] + enc_chars(s.drop_first())
    }
}

/// A text: its length, then its code points.
pub open spec fn enc_string(s: Seq<char>) -> Seq<u64> {
    seq![s.len() as u64] + enc_chars(s)
}

/// A key's label pairs, name before value.
pub open spec fn enc_pairs(ps: KeyView) -> Seq<u64>
    decreases ps.len(),
{
    if ps.len() == 0 {
        Seq::empty()
    } else {
        enc_string(ps[0].0) + enc_string(ps[0].1) + enc_pairs(ps.drop_first())
    }
}

/// A key: its pair count, then its pairs.
pub open spec fn enc_key(k: KeyView) -> Seq<u64> {
    seq![k.len() as u64] + enc_pairs(k)
}

/// One value: a variant tag, then its payload.
pub open spec fn enc_value(v: ValueV) -> Seq<u64> {
    match v {
        ValueV::Counter(x) => seq![1u64, x],
        ValueV::Integer(x) => seq![2u64, x as u64],
        ValueV::Float(b) => seq![3u64, b],
        ValueV::State(t, s) => seq![4u64, t] + enc_string(s),
    }
}

/// A possibly-absent value.
pub open spec fn enc_opt_value(o: Option<ValueV>) -> Seq<u64> {
    match o {
        None => seq![0u64],
        Some(v) => seq![1u64] + enc_value(v),
    }
}

/// A value ring's entries, newest first.
pub open spec fn enc_entries(vs: Seq<Option<ValueV>>) -> Seq<u64>
    decreases vs.len(),
{
    if vs.len() == 0 {
        Seq::empty()
    } else {
        enc_opt_value(vs[0]) + enc_entries(vs.drop_first())
    }
}

/// The tag of a series' kind.
pub open spec fn kind_tag(k: ValueKind) -> u64 {
    match k {
        ValueKind::Empty => 0,
        ValueKind::Counter => 1,
        ValueKind::Integer => 2,
        ValueKind::Float => 3,
    }
}

/// One series: its key, its kind, its ring length, then its entries.
pub open spec fn enc_series_one(p: (KeyView, SeriesRingV)) -> Seq<u64> {
    enc_key(p.0) + seq![kind_tag(p.1.kind), p.1.values.len() as u64] + enc_entries(p.1.values)
}

/// A tier's series, in tier order.
pub open spec fn enc_series(ss: Seq<(KeyView, SeriesRingV)>) -> Seq<u64>
    decreases ss.len(),
{
    if ss.len() == 0 {
        Seq::empty()
    } else {
        enc_series_one(ss[0]) + enc_series(ss.drop_first())
    }
}

/// One sample marker: timestamp, then duration.
pub open spec fn enc_marker(m: Marker) -> Seq<u64> {
    seq![m.0, m.1 as u64]
}

/// A marker ring, newest first.
pub open spec fn enc_markers(ts: Seq<Marker>) -> Seq<u64>
    decreases ts.len(),
{
    if ts.len() == 0 {
        Seq::empty()
    } else {
        enc_marker(ts[0]) + enc_markers(ts.drop_first())
    }
}

/// The tip's most recent values, key before value.
pub open spec fn enc_tip_values(vs: Seq<(KeyView, ValueV)>) -> Seq<u64>
    decreases vs.len(),
{
    if vs.len() == 0 {
        Seq::empty()
    } else {
        enc_key(vs[0].0) + enc_value(vs[0].1) + enc_tip_values(vs.drop_first())
    }
}

/// The tip: its latest marker (if any), its value count, then its values.
pub open spec fn enc_tip(t: TipV) -> Seq<u64> {
    (match t.latest {
        None => seq![0u64],
        Some(m) => seq![1u64] + enc_marker(m),
    }) + seq![t.values.len() as u64] + enc_tip_values(t.values)
}

/// One ring tier: its cap, its marker ring, then its series.
pub open spec fn enc_buffer(b: BufferV) -> Seq<u64> {
    seq![b.max_len as u64, b.timestamps.len() as u64] + enc_markers(b.timestamps) + seq![
        b.series.len() as u64,
    ] + enc_series(b.series)
}

/// The whole history: tip, fine tier, coarse tier.
pub open spec fn enc_history(h: HistoryV) -> Seq<u64> {
    enc_tip(h.tip) + enc_buffer(h.fine) + enc_buffer(h.coarse)
}

/// A persisted snapshot: the version tag first, then the history.
pub open spec fn enc_snapshot(h: HistoryV) -> Seq<u64> {
    seq![VERSION_TAG] + enc_history(h)
}

// ----- bounds the encoder enforces -----

pub open spec fn string_within(s: Seq<char>) -> bool {
    s.len() <= MAX_TEXT
}

pub open spec fn key_within(k: KeyView) -> bool {
    &&& k.len() <= MAX_ARRAY
    &&& forall|i: int|
        0 <= i < k.len() ==> string_within((#[trigger] k[i]).0) && string_within(k[i].1)
}

pub open spec fn value_within(v: ValueV) -> bool {
    match v {
        ValueV::State(_, s) => string_within(s),
        _ => true,
    }
}

pub open spec fn entry_within(o: Option<ValueV>) -> bool {
    match o {
        Some(v) => value_within(v),
        None => true,
    }
}

pub open spec fn tip_within(t: TipV) -> bool {
    &&& t.values.len() <= MAX_ARRAY
    &&& forall|i: int|
        0 <= i < t.values.len() ==> key_within((#[trigger] t.values[i]).0) && value_within(
            t.values[i].1,
        )
}

pub open spec fn buffer_within(b: BufferV) -> bool {
    &&& 0 <= b.max_len <= usize::MAX as int
    &&& b.timestamps.len() <= MAX_ARRAY
    &&& b.series.len() <= MAX_ARRAY
    &&& forall|i: int|
        0 <= i < b.series.len() ==> key_within((#[trigger] b.series[i]).0) && b.series[i].1.values.len()
            <= MAX_ARRAY && (forall|j: int|
            0 <= j < b.series[i].1.values.len() ==> entry_within(
                #[trigger] b.series[i].1.values[j],
            ))
}

/// The configured size bounds a snapshot must respect to be encoded, and
/// which the decoder enforces again.
pub open spec fn snapshot_within(h: HistoryV) -> bool {
    tip_within(h.tip) && buffer_within(h.fine) && buffer_within(h.coarse)
}

// ----- decoders: word-level, bounds-checked, position-passing -----

/// One word, or nothing past the end.
pub open spec fn dw(ws: Seq<u64>, pos: int) -> Option<(u64, int)> {
    if 0 <= pos < ws.len() {
        Some((ws[pos], pos + 1))
    } else {
        None
    }
}

pub open spec fn dec_chars(ws: Seq<u64>, pos: int, n: int, acc: Seq<char>) -> Option<
    (Seq<char>, int),
>
    decreases n,
{
    if n <= 0 {
        Some((acc, pos))
    } else {
        match dw(ws, pos) {
            None => None,
            Some((w, p)) => match char_of_word(w) {
                None => None,
                Some(c) => dec_chars(ws, p, n - 1, acc.push(c)),
            },
        }
    }
}

pub open spec fn dec_string(ws: Seq<u64>, pos: int) -> Option<(Seq<char>, int)> {
    match dw(ws, pos) {
        None => None,
        Some((len, p)) => if len <= MAX_TEXT {
            dec_chars(ws, p, len as int, Seq::empty())
        } else {
            None
        },
    }
}

pub open spec fn dec_pairs(ws: Seq<u64>, pos: int, n: int, acc: KeyView) -> Option<(KeyView, int)>
    decreases n,
{
    if n <= 0 {
        Some((acc, pos))
    } else {
        match dec_string(ws, pos) {
            None => None,
            Some((name, p1)) => match dec_string(ws, p1) {
                None => None,
                Some((value, p2)) => dec_pairs(ws, p2, n - 1, acc.push((name, value))),
            },
        }
    }
}

pub open spec fn dec_key(ws: Seq<u64>, pos: int) -> Option<(KeyView, int)> {
    match dw(ws, pos) {
        None => None,
        Some((len, p)) => if len <= MAX_ARRAY {
            dec_pairs(ws, p, len as int, Seq::empty())
        } else {
            None
        },
    }
}

pub open spec fn dec_value(ws: Seq<u64>, pos: int) -> Option<(ValueV, int)> {
    match dw(ws, pos) {
        None => None,
        Some((tag, p)) => if tag == 1 {
            match dw(ws, p) {
                None => None,
                Some((x, p2)) => Some((ValueV::Counter(x), p2)),
            }
        } else if tag == 2 {
            match dw(ws, p) {
                None => None,
                Some((x, p2)) => Some((ValueV::Integer(x as i64), p2)),
            }
        } else if tag == 3 {
            match dw(ws, p) {
                None => None,
                Some((x, p2)) => Some((ValueV::Float(x), p2)),
            }
        } else if tag == 4 {
            match dw(ws, p) {
                None => None,
                Some((t, p2)) => match dec_string(ws, p2) {
                    None => None,
                    Some((s, p3)) => Some((ValueV::State(t, s), p3)),
                },
            }
        } else {
            None
        },
    }
}

pub open spec fn dec_opt_value(ws: Seq<u64>, pos: int) -> Option<(Option<ValueV>, int)> {
    match dw(ws, pos) {
        None => None,
        Some((tag, p)) => if tag == 0 {
            Some((None, p))
        } else if tag == 1 {
            match dec_value(ws, p) {
                None => None,
                Some((v, p2)) => Some((Some(v), p2)),
            }
        } else {
            None
        },
    }
}

pub open spec fn dec_entries(ws: Seq<u64>, pos: int, n: int, acc: Seq<Option<ValueV>>) -> Option<
    (Seq<Option<ValueV>>, int),
>
    decreases n,
{
    if n <= 0 {
        Some((acc, pos))
    } else {
        match dec_opt_value(ws, pos) {
            None => None,
            Some((v, p)) => dec_entries(ws, p, n - 1, acc.push(v)),
        }
    }
}

pub open spec fn dec_kind(ws: Seq<u64>, pos: int) -> Option<(ValueKind, int)> {
    match dw(ws, pos) {
        None => None,
        Some((tag, p)) => if tag == 0 {
            Some((ValueKind::Empty, p))
        } else if tag == 1 {
            Some((ValueKind::Counter, p))
        } else if tag == 2 {
            Some((ValueKind::Integer, p))
        } else if tag == 3 {
            Some((ValueKind::Float, p))
        } else {
            None
        },
    }
}

pub open spec fn dec_series_one(ws: Seq<u64>, pos: int) -> Option<((KeyView, SeriesRingV), int)> {
    match dec_key(ws, pos) {
        None => None,
        Some((k, p1)) => match dec_kind(ws, p1) {
            None => None,
            Some((kind, p2)) => match dw(ws, p2) {
                None => None,
                Some((len, p3)) => if len <= MAX_ARRAY {
                    match dec_entries(ws, p3, len as int, Seq::empty()) {
                        None => None,
                        Some((vals, p4)) => Some(
                            ((k, SeriesRingV { kind, values: vals }), p4),
                        ),
                    }
                } else {
                    None
                },
            },
        },
    }
}

pub open spec fn dec_series(
    ws: Seq<u64>,
    pos: int,
    n: int,
    acc: Seq<(KeyView, SeriesRingV)>,
) -> Option<(Seq<(KeyView, SeriesRingV)>, int)>
    decreases n,
{
    if n <= 0 {
        Some((acc, pos))
    } else {
        match dec_series_one(ws, pos) {
            None => None,
            Some((s, p)) => dec_series(ws, p, n - 1, acc.push(s)),
        }
    }
}

pub open spec fn dec_marker(ws: Seq<u64>, pos: int) -> Option<(Marker, int)> {
    match dw(ws, pos) {
        None => None,
        Some((ts, p)) => match dw(ws, p) {
            None => None,
            Some((dur, p2)) => if dur <= u32::MAX {
                Some(((ts, dur as u32), p2))
            } else {
                None
            },
        },
    }
}

pub open spec fn dec_markers(ws: Seq<u64>, pos: int, n: int, acc: Seq<Marker>) -> Option<
    (Seq<Marker>, int),
>
    decreases n,
{
    if n <= 0 {
        Some((acc, pos))
    } else {
        match dec_marker(ws, pos) {
            None => None,
            Some((m, p)) => dec_markers(ws, p, n - 1, acc.push(m)),
        }
    }
}

pub open spec fn dec_tip_values(
    ws: Seq<u64>,
    pos: int,
    n: int,
    acc: Seq<(KeyView, ValueV)>,
) -> Option<(Seq<(KeyView, ValueV)>, int)>
    decreases n,
{
    if n <= 0 {
        Some((acc, pos))
    } else {
        match dec_key(ws, pos) {
            None => None,
            Some((k, p1)) => match dec_value(ws, p1) {
                None => None,
                Some((v, p2)) => dec_tip_values(ws, p2, n - 1, acc.push((k, v))),
            },
        }
    }
}

pub open spec fn dec_tip(ws: Seq<u64>, pos: int) -> Option<(TipV, int)> {
    match dw(ws, pos) {
        None => None,
        Some((tag, p)) => {
            let latest: Option<(Option<Marker>, int)> = if tag == 0 {
                Some((None, p))
            } else if tag == 1 {
                match dec_marker(ws, p) {
                    None => None,
                    Some((m, p2)) => Some((Some(m), p2)),
                }
            } else {
                None
            };
            match latest {
                None => None,
                Some((lm, p2)) => match dw(ws, p2) {
                    None => None,
                    Some((len, p3)) => if len <= MAX_ARRAY {
                        match dec_tip_values(ws, p3, len as int, Seq::empty()) {
                            None => None,
                            Some((vals, p4)) => Some(
                                (TipV { latest: lm, values: vals }, p4),
                            ),
                        }
                    } else {
                        None
                    },
                },
            }
        },
    }
}

pub open spec fn dec_buffer(ws: Seq<u64>, pos: int) -> Option<(BufferV, int)> {
    match dw(ws, pos) {
        None => None,
        Some((cap, p)) => if cap <= usize::MAX as u64 {
            match dw(ws, p) {
                None => None,
                Some((tn, p1)) => if tn <= MAX_ARRAY {
                    match dec_markers(ws, p1, tn as int, Seq::empty()) {
                        None => None,
                        Some((ts, p2)) => match dw(ws, p2) {
                            None => None,
                            Some((sn, p3)) => if sn <= MAX_ARRAY {
                                match dec_series(ws, p3, sn as int, Seq::empty()) {
                                    None => None,
                                    Some((ss, p4)) => Some(
                                        (
                                            BufferV {
                                                timestamps: ts,
                                                series: ss,
                                                max_len: cap as int,
                                            },
                                            p4,
                                        ),
                                    ),
                                }
                            } else {
                                None
                            },
                        },
                    }
                } else {
                    None
                },
            }
        } else {
            None
        },
    }
}

pub open spec fn dec_history(ws: Seq<u64>, pos: int) -> Option<(HistoryV, int)> {
    match dec_tip(ws, pos) {
        None => None,
        Some((t, p1)) => match dec_buffer(ws, p1) {
            None => None,
            Some((f, p2)) => match dec_buffer(ws, p2) {
                None => None,
                Some((co, p3)) => Some((HistoryV { tip: t, fine: f, coarse: co }, p3)),
            },
        },
    }
}

pub open spec fn dec_snapshot(ws: Seq<u64>, pos: int) -> Option<(HistoryV, int)> {
    match dw(ws, pos) {
        None => None,
        Some((tag, p)) => if tag == VERSION_TAG {
            dec_history(ws, p)
        } else {
            None
        },
    }
}

/// What a byte buffer decodes to, end to end: words, version tag, history,
/// with nothing left over.
pub open spec fn decodes_to(b: Seq<u8>) -> Option<HistoryV> {
    match bytes_to_words(b) {
        None => None,
        Some(ws) => match dec_snapshot(ws, 0) {
            None => None,
            Some((h, p)) => if p == ws.len() {
                Some(h)
            } else {
                None
            },
        },
    }
}

} // verus!

verus! {

// ----- the encoding decodes back to what was written -----

/// Words `part` stand in `ws` at `pos`.
pub open spec fn ws_at(ws: Seq<u64>, pos: int, part: Seq<u64>) -> bool {
    &&& 0 <= pos
    &&& pos + part.len() <= ws.len()
    &&& forall|k: int| 0 <= k < part.len() ==> ws[pos + k] == #[trigger] part[k]
}

proof fn lemma_ws_at_split(ws: Seq<u64>, pos: int, a: Seq<u64>, b: Seq<u64>)
    requires
        ws_at(ws, pos, a + b),
    ensures
        ws_at(ws, pos, a),
        ws_at(ws, pos + a.len(), b),
{
    assert forall|k: int| 0 <= k < a.len() implies ws[pos + k] == #[trigger] a[k] by {
        assert((a + b)[k] == a[k]);
        assert(ws[pos + k] == (a + b)[k]);
    }
    assert forall|k: int| 0 <= k < b.len() implies ws[pos + a.len() + k] == #[trigger] b[k] by {
        assert((a + b)[a.len() + k] == b[k]);
        assert(ws[pos + (a.len() + k)] == (a + b)[a.len() + k]);
    }
}

proof fn lemma_dw_at(ws: Seq<u64>, pos: int, w: u64)
    requires
        ws_at(ws, pos, seq![w]),
    ensures
        dw(ws, pos) == Some((w, pos + 1)),
{
    assert(seq![w][0] == w);
    assert(ws[pos + 0] == w);
}

proof fn lemma_dec_chars_rt(ws: Seq<u64>, pos: int, s: Seq<char>, acc: Seq<char>)
    requires
        ws_at(ws, pos, enc_chars(s)),
    ensures
        dec_chars(ws, pos, s.len() as int, acc) == Some((acc + s, pos + enc_chars(s).len())),
    decreases s.len(),
{
    if s.len() == 0 {
        assert(acc + s =~= acc);
    } else {
        let w = char_code(s[0]);
        assert(enc_chars(s) == seq![w] + enc_chars(s.drop_first()));
        lemma_ws_at_split(ws, pos, seq![w], enc_chars(s.drop_first()));
        lemma_dw_at(ws, pos, w);
        assert(char_of_word(w) == Some(s[0])) by {
            assert(char_code(s[0]) == w);
            assert(exists|c: char| #[trigger] char_code(c) == w);
            let c = choose|c: char| #[trigger] char_code(c) == w;
            assert(char_code(c) == w);
            assert(c as u32 == s[0] as u32);
            lemma_char_code_injective(c, s[0]);
        }
        lemma_dec_chars_rt(ws, pos + 1, s.drop_first(), acc.push(s[0]));
        assert(acc.push(s[0]) + s.drop_first() =~= acc + s);
    }
}

proof fn lemma_dec_string_rt(ws: Seq<u64>, pos: int, s: Seq<char>)
    requires
        ws_at(ws, pos, enc_string(s)),
        string_within(s),
    ensures
        dec_string(ws, pos) == Some((s, pos + enc_string(s).len())),
{
    let lw = s.len() as u64;
    assert(enc_string(s) == seq![lw] + enc_chars(s));
    lemma_ws_at_split(ws, pos, seq![lw], enc_chars(s));
    lemma_dw_at(ws, pos, lw);
    lemma_dec_chars_rt(ws, pos + 1, s, Seq::empty());
    assert(Seq::<char>::empty() + s =~= s);
}

proof fn lemma_dec_pairs_rt(ws: Seq<u64>, pos: int, ps: KeyView, acc: KeyView)
    requires
        ws_at(ws, pos, enc_pairs(ps)),
        forall|i: int|
            0 <= i < ps.len() ==> string_within((#[trigger] ps[i]).0) && string_within(ps[i].1),
    ensures
        dec_pairs(ws, pos, ps.len() as int, acc) == Some((acc + ps, pos + enc_pairs(ps).len())),
    decreases ps.len(),
{
    if ps.len() == 0 {
        assert(acc + ps =~= acc);
    } else {
        let rest = ps.drop_first();
        assert(enc_pairs(ps) == enc_string(ps[0].0) + enc_string(ps[0].1) + enc_pairs(rest));
        assert(enc_string(ps[0].0) + enc_string(ps[0].1) + enc_pairs(rest) =~= enc_string(ps[0].0)
            + (enc_string(ps[0].1) + enc_pairs(rest)));
        lemma_ws_at_split(ws, pos, enc_string(ps[0].0), enc_string(ps[0].1) + enc_pairs(rest));
        lemma_dec_string_rt(ws, pos, ps[0].0);
        let p1 = pos + enc_string(ps[0].0).len();
        lemma_ws_at_split(ws, p1, enc_string(ps[0].1), enc_pairs(rest));
        lemma_dec_string_rt(ws, p1, ps[0].1);
        let p2 = p1 + enc_string(ps[0].1).len();
        assert forall|i: int| 0 <= i < rest.len() implies string_within((#[trigger] rest[i]).0)
            && string_within(rest[i].1) by {
            assert(rest[i] == ps[i + 1]);
        }
        lemma_dec_pairs_rt(ws, p2, rest, acc.push((ps[0].0, ps[0].1)));
        assert(acc.push((ps[0].0, ps[0].1)) + rest =~= acc + ps) by {
            assert(ps[0] == (ps[0].0, ps[0].1));
        }
    }
}

proof fn lemma_dec_key_rt(ws: Seq<u64>, pos: int, k: KeyView)
    requires
        ws_at(ws, pos, enc_key(k)),
        key_within(k),
    ensures
        dec_key(ws, pos) == Some((k, pos + enc_key(k).len())),
{
    let lw = k.len() as u64;
    assert(enc_key(k) == seq![lw] + enc_pairs(k));
    lemma_ws_at_split(ws, pos, seq![lw], enc_pairs(k));
    lemma_dw_at(ws, pos, lw);
    lemma_dec_pairs_rt(ws, pos + 1, k, Seq::empty());
    assert(Seq::<(Seq<char>, Seq<char>)>::empty() + k =~= k);
}

proof fn lemma_i64_cast_rt(x: i64)
    ensures
        (x as u64) as i64 == x,
{
    assert((x as u64) as i64 == x) by (bit_vector);
}

proof fn lemma_dec_value_rt(ws: Seq<u64>, pos: int, v: ValueV)
    requires
        ws_at(ws, pos, enc_value(v)),
        value_within(v),
    ensures
        dec_value(ws, pos) == Some((v, pos + enc_value(v).len())),
{
    match v {
        ValueV::Counter(x) => {
            assert(enc_value(v) =~= seq![1u64] + seq![x]);
            lemma_ws_at_split(ws, pos, seq![1u64], seq![x]);
            lemma_dw_at(ws, pos, 1u64);
            lemma_dw_at(ws, pos + 1, x);
        },
        ValueV::Integer(x) => {
            assert(enc_value(v) =~= seq![2u64] + seq![x as u64]);
            lemma_ws_at_split(ws, pos, seq![2u64], seq![x as u64]);
            lemma_dw_at(ws, pos, 2u64);
            lemma_dw_at(ws, pos + 1, x as u64);
            lemma_i64_cast_rt(x);
        },
        ValueV::Float(b) => {
            assert(enc_value(v) =~= seq![3u64] + seq![b]);
            lemma_ws_at_split(ws, pos, seq![3u64], seq![b]);
            lemma_dw_at(ws, pos, 3u64);
            lemma_dw_at(ws, pos + 1, b);
        },
        ValueV::State(t, s) => {
            assert(enc_value(v) == seq![4u64, t] + enc_string(s));
            assert(seq![4u64, t] + enc_string(s) =~= seq![4u64] + (seq![t] + enc_string(s)));
            lemma_ws_at_split(ws, pos, seq![4u64], seq![t] + enc_string(s));
            lemma_dw_at(ws, pos, 4u64);
            lemma_ws_at_split(ws, pos + 1, seq![t], enc_string(s));
            lemma_dw_at(ws, pos + 1, t);
            lemma_dec_string_rt(ws, pos + 2, s);
        },
    }
}

proof fn lemma_dec_opt_value_rt(ws: Seq<u64>, pos: int, o: Option<ValueV>)
    requires
        ws_at(ws, pos, enc_opt_value(o)),
        entry_within(o),
    ensures
        dec_opt_value(ws, pos) == Some((o, pos + enc_opt_value(o).len())),
{
    match o {
        None => {
            lemma_dw_at(ws, pos, 0u64);
            assert(enc_opt_value(o) =~= seq![0u64]);
        },
        Some(v) => {
            assert(enc_opt_value(o) == seq![1u64] + enc_value(v));
            lemma_ws_at_split(ws, pos, seq![1u64], enc_value(v));
            lemma_dw_at(ws, pos, 1u64);
            lemma_dec_value_rt(ws, pos + 1, v);
        },
    }
}

proof fn lemma_dec_entries_rt(
    ws: Seq<u64>,
    pos: int,
    vs: Seq<Option<ValueV>>,
    acc: Seq<Option<ValueV>>,
)
    requires
        ws_at(ws, pos, enc_entries(vs)),
        forall|i: int| 0 <= i < vs.len() ==> entry_within(#[trigger] vs[i]),
    ensures
        dec_entries(ws, pos, vs.len() as int, acc) == Some((acc + vs, pos + enc_entries(vs).len())),
    decreases vs.len(),
{
    if vs.len() == 0 {
        assert(acc + vs =~= acc);
    } else {
        let rest = vs.drop_first();
        assert(enc_entries(vs) == enc_opt_value(vs[0]) + enc_entries(rest));
        lemma_ws_at_split(ws, pos, enc_opt_value(vs[0]), enc_entries(rest));
        lemma_dec_opt_value_rt(ws, pos, vs[0]);
        assert forall|i: int| 0 <= i < rest.len() implies entry_within(#[trigger] rest[i]) by {
            assert(rest[i] == vs[i + 1]);
        }
        lemma_dec_entries_rt(ws, pos + enc_opt_value(vs[0]).len(), rest, acc.push(vs[0]));
        assert(acc.push(vs[0]) + rest =~= acc + vs);
    }
}

proof fn lemma_dec_kind_rt(ws: Seq<u64>, pos: int, k: ValueKind)
    requires
        ws_at(ws, pos, seq![kind_tag(k)]),
    ensures
        dec_kind(ws, pos) == Some((k, pos + 1)),
{
    lemma_dw_at(ws, pos, kind_tag(k));
}

} // verus!

verus! {

proof fn lemma_dec_series_one_rt(ws: Seq<u64>, pos: int, p: (KeyView, SeriesRingV))
    requires
        ws_at(ws, pos, enc_series_one(p)),
        key_within(p.0),
        p.1.values.len() <= MAX_ARRAY,
        forall|j: int| 0 <= j < p.1.values.len() ==> entry_within(#[trigger] p.1.values[j]),
    ensures
        dec_series_one(ws, pos) == Some((p, pos + enc_series_one(p).len())),
{
    let mid = seq![kind_tag(p.1.kind), p.1.values.len() as u64];
    assert(enc_series_one(p) == enc_key(p.0) + mid + enc_entries(p.1.values));
    assert(enc_key(p.0) + mid + enc_entries(p.1.values) =~= enc_key(p.0) + (mid + enc_entries(
        p.1.values,
    )));
    lemma_ws_at_split(ws, pos, enc_key(p.0), mid + enc_entries(p.1.values));
    lemma_dec_key_rt(ws, pos, p.0);
    let p1 = pos + enc_key(p.0).len();
    assert(mid + enc_entries(p.1.values) =~= seq![kind_tag(p.1.kind)] + (seq![
        p.1.values.len() as u64,
    ] + enc_entries(p.1.values)));
    lemma_ws_at_split(
        ws,
        p1,
        seq![kind_tag(p.1.kind)],
        seq![p.1.values.len() as u64] + enc_entries(p.1.values),
    );
    lemma_dec_kind_rt(ws, p1, p.1.kind);
    lemma_ws_at_split(ws, p1 + 1, seq![p.1.values.len() as u64], enc_entries(p.1.values));
    lemma_dw_at(ws, p1 + 1, p.1.values.len() as u64);
    lemma_dec_entries_rt(ws, p1 + 2, p.1.values, Seq::empty());
    assert(Seq::<Option<ValueV>>::empty() + p.1.values =~= p.1.values);
    assert(SeriesRingV { kind: p.1.kind, values: p.1.values } == p.1);
    assert((p.0, p.1) == p);
}

proof fn lemma_dec_series_rt(
    ws: Seq<u64>,
    pos: int,
    ss: Seq<(KeyView, SeriesRingV)>,
    acc: Seq<(KeyView, SeriesRingV)>,
)
    requires
        ws_at(ws, pos, enc_series(ss)),
        forall|i: int|
            0 <= i < ss.len() ==> key_within((#[trigger] ss[i]).0) && ss[i].1.values.len()
                <= MAX_ARRAY && (forall|j: int|
                0 <= j < ss[i].1.values.len() ==> entry_within(#[trigger] ss[i].1.values[j])),
    ensures
        dec_series(ws, pos, ss.len() as int, acc) == Some((acc + ss, pos + enc_series(ss).len())),
    decreases ss.len(),
{
    if ss.len() == 0 {
        assert(acc + ss =~= acc);
    } else {
        let rest = ss.drop_first();
        assert(enc_series(ss) == enc_series_one(ss[0]) + enc_series(rest));
        lemma_ws_at_split(ws, pos, enc_series_one(ss[0]), enc_series(rest));
        lemma_dec_series_one_rt(ws, pos, ss[0]);
        assert(forall|i: int| 0 <= i < rest.len() ==> #[trigger] rest[i] == ss[i + 1]);
        lemma_dec_series_rt(ws, pos + enc_series_one(ss[0]).len(), rest, acc.push(ss[0]));
        assert(acc.push(ss[0]) + rest =~= acc + ss);
    }
}

proof fn lemma_dec_marker_rt(ws: Seq<u64>, pos: int, m: Marker)
    requires
        ws_at(ws, pos, enc_marker(m)),
    ensures
        dec_marker(ws, pos) == Some((m, pos + 2)),
{
    assert(enc_marker(m) =~= seq![m.0] + seq![m.1 as u64]);
    lemma_ws_at_split(ws, pos, seq![m.0], seq![m.1 as u64]);
    lemma_dw_at(ws, pos, m.0);
    lemma_dw_at(ws, pos + 1, m.1 as u64);
    assert((m.0, (m.1 as u64) as u32) == m);
}

proof fn lemma_dec_markers_rt(ws: Seq<u64>, pos: int, ts: Seq<Marker>, acc: Seq<Marker>)
    requires
        ws_at(ws, pos, enc_markers(ts)),
    ensures
        dec_markers(ws, pos, ts.len() as int, acc) == Some((acc + ts, pos + enc_markers(ts).len())),
    decreases ts.len(),
{
    if ts.len() == 0 {
        assert(acc + ts =~= acc);
    } else {
        let rest = ts.drop_first();
        assert(enc_markers(ts) == enc_marker(ts[0]) + enc_markers(rest));
        lemma_ws_at_split(ws, pos, enc_marker(ts[0]), enc_markers(rest));
        lemma_dec_marker_rt(ws, pos, ts[0]);
        lemma_dec_markers_rt(ws, pos + 2, rest, acc.push(ts[0]));
        assert(acc.push(ts[0]) + rest =~= acc + ts);
    }
}

proof fn lemma_dec_tip_values_rt(
    ws: Seq<u64>,
    pos: int,
    vs: Seq<(KeyView, ValueV)>,
    acc: Seq<(KeyView, ValueV)>,
)
    requires
        ws_at(ws, pos, enc_tip_values(vs)),
        forall|i: int|
            0 <= i < vs.len() ==> key_within((#[trigger] vs[i]).0) && value_within(vs[i].1),
    ensures
        dec_tip_values(ws, pos, vs.len() as int, acc) == Some(
            (acc + vs, pos + enc_tip_values(vs).len()),
        ),
    decreases vs.len(),
{
    if vs.len() == 0 {
        assert(acc + vs =~= acc);
    } else {
        let rest = vs.drop_first();
        assert(enc_tip_values(vs) == enc_key(vs[0].0) + enc_value(vs[0].1) + enc_tip_values(rest));
        assert(enc_key(vs[0].0) + enc_value(vs[0].1) + enc_tip_values(rest) =~= enc_key(vs[0].0) + (
        enc_value(vs[0].1) + enc_tip_values(rest)));
        lemma_ws_at_split(ws, pos, enc_key(vs[0].0), enc_value(vs[0].1) + enc_tip_values(rest));
        lemma_dec_key_rt(ws, pos, vs[0].0);
        let p1 = pos + enc_key(vs[0].0).len();
        lemma_ws_at_split(ws, p1, enc_value(vs[0].1), enc_tip_values(rest));
        lemma_dec_value_rt(ws, p1, vs[0].1);
        assert(forall|i: int| 0 <= i < rest.len() ==> #[trigger] rest[i] == vs[i + 1]);
        lemma_dec_tip_values_rt(
            ws,
            p1 + enc_value(vs[0].1).len(),
            rest,
            acc.push((vs[0].0, vs[0].1)),
        );
        assert(acc.push((vs[0].0, vs[0].1)) + rest =~= acc + vs) by {
            assert(vs[0] == (vs[0].0, vs[0].1));
        }
    }
}

proof fn lemma_dec_tip_rt(ws: Seq<u64>, pos: int, t: TipV)
    requires
        ws_at(ws, pos, enc_tip(t)),
        tip_within(t),
    ensures
        dec_tip(ws, pos) == Some((t, pos + enc_tip(t).len())),
{
    let head = match t.latest {
        None => seq![0u64],
        Some(m) => seq![1u64] + enc_marker(m),
    };
    let tail = seq![t.values.len() as u64] + enc_tip_values(t.values);
    assert(enc_tip(t) == head + tail);
    lemma_ws_at_split(ws, pos, head, tail);
    let p2 = pos + head.len();
    match t.latest {
        None => {
            lemma_dw_at(ws, pos, 0u64);
            assert(head =~= seq![0u64]);
        },
        Some(m) => {
            assert(head =~= seq![1u64] + enc_marker(m));
            lemma_ws_at_split(ws, pos, seq![1u64], enc_marker(m));
            lemma_dw_at(ws, pos, 1u64);
            lemma_dec_marker_rt(ws, pos + 1, m);
        },
    }
    lemma_ws_at_split(ws, p2, seq![t.values.len() as u64], enc_tip_values(t.values));
    lemma_dw_at(ws, p2, t.values.len() as u64);
    lemma_dec_tip_values_rt(ws, p2 + 1, t.values, Seq::empty());
    assert(Seq::<(KeyView, ValueV)>::empty() + t.values =~= t.values);
    assert(TipV { latest: t.latest, values: t.values } == t);
}

proof fn lemma_dec_buffer_rt(ws: Seq<u64>, pos: int, b: BufferV)
    requires
        ws_at(ws, pos, enc_buffer(b)),
        buffer_within(b),
    ensures
        dec_buffer(ws, pos) == Some((b, pos + enc_buffer(b).len())),
{
    let h2 = seq![b.max_len as u64, b.timestamps.len() as u64];
    assert(enc_buffer(b) == h2 + enc_markers(b.timestamps) + seq![b.series.len() as u64]
        + enc_series(b.series));
    assert(enc_buffer(b) =~= seq![b.max_len as u64] + (seq![b.timestamps.len() as u64]
        + (enc_markers(b.timestamps) + (seq![b.series.len() as u64] + enc_series(b.series)))));
    lemma_ws_at_split(
        ws,
        pos,
        seq![b.max_len as u64],
        seq![b.timestamps.len() as u64] + (enc_markers(b.timestamps) + (seq![
            b.series.len() as u64,
        ] + enc_series(b.series))),
    );
    lemma_dw_at(ws, pos, b.max_len as u64);
    lemma_ws_at_split(
        ws,
        pos + 1,
        seq![b.timestamps.len() as u64],
        enc_markers(b.timestamps) + (seq![b.series.len() as u64] + enc_series(b.series)),
    );
    lemma_dw_at(ws, pos + 1, b.timestamps.len() as u64);
    lemma_ws_at_split(
        ws,
        pos + 2,
        enc_markers(b.timestamps),
        seq![b.series.len() as u64] + enc_series(b.series),
    );
    lemma_dec_markers_rt(ws, pos + 2, b.timestamps, Seq::empty());
    assert(Seq::<Marker>::empty() + b.timestamps =~= b.timestamps);
    let p3 = pos + 2 + enc_markers(b.timestamps).len();
    lemma_ws_at_split(ws, p3, seq![b.series.len() as u64], enc_series(b.series));
    lemma_dw_at(ws, p3, b.series.len() as u64);
    lemma_dec_series_rt(ws, p3 + 1, b.series, Seq::empty());
    assert(Seq::<(KeyView, SeriesRingV)>::empty() + b.series =~= b.series);
    assert(BufferV { timestamps: b.timestamps, series: b.series, max_len: b.max_len } == b);
}

/// Law: the snapshot round-trips. A history within the configured bounds
/// decodes, from its own encoding, back to exactly itself, consuming the
/// whole buffer; and a buffer carrying any other version tag decodes to
/// nothing, never to a type-confused history.
#[verifier::rlimit(80)]
proof fn lemma_dec_history_rt(ws: Seq<u64>, pos: int, h: HistoryV)
    requires
        ws_at(ws, pos, enc_history(h)),
        snapshot_within(h),
    ensures
        dec_history(ws, pos) == Some((h, pos + enc_history(h).len())),
{
    assert(enc_history(h) =~= enc_tip(h.tip) + (enc_buffer(h.fine) + enc_buffer(h.coarse)));
    lemma_ws_at_split(ws, pos, enc_tip(h.tip), enc_buffer(h.fine) + enc_buffer(h.coarse));
    lemma_dec_tip_rt(ws, pos, h.tip);
    let p1: int = pos + enc_tip(h.tip).len() as int;
    lemma_ws_at_split(ws, p1, enc_buffer(h.fine), enc_buffer(h.coarse));
    lemma_dec_buffer_rt(ws, p1, h.fine);
    let p2: int = p1 + enc_buffer(h.fine).len() as int;
    lemma_dec_buffer_rt(ws, p2, h.coarse);
    assert(HistoryV { tip: h.tip, fine: h.fine, coarse: h.coarse } == h);
}

#[verifier::rlimit(80)]
pub proof fn lemma_snapshot_roundtrip(h: HistoryV)
    requires
        snapshot_within(h),
    ensures
        decodes_to(words_bytes(enc_snapshot(h))) == Some(h),
{
    let ws = enc_snapshot(h);
    lemma_bytes_words_roundtrip(ws);
    assert(ws_at(ws, 0, ws));
    assert(ws == seq![VERSION_TAG] + enc_history(h));
    lemma_ws_at_split(ws, 0, seq![VERSION_TAG], enc_history(h));
    lemma_dw_at(ws, 0, VERSION_TAG);
    lemma_dec_history_rt(ws, 1, h);
    assert(1 + enc_history(h).len() == ws.len());
}

/// Law: a foreign version tag is rejected outright.
pub proof fn lemma_version_mismatch(rest: Seq<u64>, v: u64)
    requires
        v != VERSION_TAG,
    ensures
        dec_snapshot(seq![v] + rest, 0) is None,
{
    let ws = seq![v] + rest;
    assert(ws[0] == v);
}

} // verus!

verus! {

// ----- executable encoder -----

/// The tag of a series' kind.
fn kind_tag_of(k: ValueKind) -> (r: u64)
    ensures
        r == kind_tag(k),
{
    match k {
        ValueKind::Empty => 0,
        ValueKind::Counter => 1,
        ValueKind::Integer => 2,
        ValueKind::Float => 3,
    }
}

/// Emits a text as its length and code points; refused over the text bound.
fn emit_string(out: &mut Vec<u64>, s: &String) -> (ok: bool)
    ensures
        ok ==> string_within(s@) && final(out)@ == old(out)@ + enc_string(s@),
        !ok ==> !string_within(s@) && final(out)@ == old(out)@,
{
    let n = s.as_str().unicode_len();
    if n as u64 > MAX_TEXT {
        return false;
    }
    let ghost base = out@;
    out.push(n as u64);
    let mut i: usize = 0;
    proof {
        assert(out@ + enc_chars(s@.skip(0)) =~= base + enc_string(s@)) by {
            assert(s@.skip(0) =~= s@);
            assert(out@ =~= base + seq![s@.len() as u64]);
            assert(base + seq![s@.len() as u64] + enc_chars(s@) =~= base + enc_string(s@));
        }
    }
    while i < n
        invariant
            n == s@.len(),
            0 <= i <= n,
            out@ + enc_chars(s@.skip(i as int)) == base + enc_string(s@),
        decreases n - i,
    {
        let c = s.as_str().get_char(i);
        let ghost pre = out@;
        out.push((c as u32) as u64);
        proof {
            let sk = s@.skip(i as int);
            assert(sk[0] == s@[i as int]);
            assert(sk.drop_first() =~= s@.skip(i as int + 1));
            assert(enc_chars(sk) == seq![char_code(sk[0])] + enc_chars(sk.drop_first()));
            assert(out@ =~= pre + seq![char_code(s@[i as int])]);
            assert(out@ + enc_chars(s@.skip(i as int + 1)) =~= pre + enc_chars(sk));
        }
        i = i + 1;
    }
    proof {
        assert(s@.skip(n as int) =~= Seq::<char>::empty());
        assert(out@ + enc_chars(s@.skip(n as int)) =~= out@);
    }
    true
}

/// Emits a key as its pair count and pairs; refused over the array bound.
fn emit_key(out: &mut Vec<u64>, key: &Key) -> (ok: bool)
    ensures
        ok ==> key_within(key@) && final(out)@ == old(out)@ + enc_key(key@),
        !ok ==> !key_within(key@),
{
    let pairs = key.get_map();
    let ghost kv = key@;
    proof {
        assert(forall|i: int|
            0 <= i < pairs@.len() ==> #[trigger] kv[i] == (pairs@[i].0@, pairs@[i].1@));
    }
    let n = pairs.len();
    if n as u64 > MAX_ARRAY {
        return false;
    }
    let ghost base = out@;
    out.push(n as u64);
    let mut i: usize = 0;
    proof {
        assert(out@ + enc_pairs(kv.skip(0)) =~= base + enc_key(kv)) by {
            assert(kv.skip(0) =~= kv);
            assert(out@ =~= base + seq![kv.len() as u64]);
            assert(base + seq![kv.len() as u64] + enc_pairs(kv) =~= base + enc_key(kv));
        }
    }
    while i < n
        invariant
            n == pairs@.len(),
            n == kv.len(),
            kv == key@,
            forall|t: int| 0 <= t < n ==> #[trigger] kv[t] == (pairs@[t].0@, pairs@[t].1@),
            0 <= i <= n,
            out@ + enc_pairs(kv.skip(i as int)) == base + enc_key(kv),
            forall|t: int|
                0 <= t < i ==> string_within((#[trigger] kv[t]).0) && string_within(kv[t].1),
        decreases n - i,
    {
        let ghost pre = out@;
        if !emit_string(out, &pairs[i].0) {
            return false;
        }
        if !emit_string(out, &pairs[i].1) {
            return false;
        }
        proof {
            let sk = kv.skip(i as int);
            assert(sk[0] == kv[i as int]);
            assert(sk.drop_first() =~= kv.skip(i as int + 1));
            assert(enc_pairs(sk) == enc_string(sk[0].0) + enc_string(sk[0].1) + enc_pairs(
                sk.drop_first(),
            ));
            assert(out@ =~= pre + enc_string(kv[i as int].0) + enc_string(kv[i as int].1));
            assert(out@ + enc_pairs(kv.skip(i as int + 1)) =~= pre + enc_pairs(sk));
        }
        i = i + 1;
    }
    proof {
        assert(kv.skip(n as int) =~= KeyView::empty());
        assert(out@ + enc_pairs(kv.skip(n as int)) =~= out@);
        assert(key_within(kv));
    }
    true
}

/// Emits one value, tagged; refused over the text bound of a state value.
fn emit_value(out: &mut Vec<u64>, v: &Value) -> (ok: bool)
    ensures
        ok ==> value_within(v@) && final(out)@ == old(out)@ + enc_value(v@),
        !ok ==> !value_within(v@),
{
    match v {
        Value::Counter(x) => {
            out.push(1);
            out.push(*x);
            proof {
                assert(out@ =~= old(out)@ + enc_value(v@));
            }
            true
        },
        Value::Integer(x) => {
            out.push(2);
            out.push(*x as u64);
            proof {
                assert(out@ =~= old(out)@ + enc_value(v@));
            }
            true
        },
        Value::Float(b) => {
            out.push(3);
            out.push(*b);
            proof {
                assert(out@ =~= old(out)@ + enc_value(v@));
            }
            true
        },
        Value::State(t, s) => {
            out.push(4);
            out.push(*t);
            if !emit_string(out, s) {
                return false;
            }
            proof {
                assert(out@ =~= old(out)@ + enc_value(v@));
            }
            true
        },
    }
}

/// Emits one ring entry.
fn emit_opt_value(out: &mut Vec<u64>, o: &Option<Value>) -> (ok: bool)
    ensures
        ok ==> entry_within(match o {
            Some(v) => Some(v@),
            None => None,
        }) && final(out)@ == old(out)@ + enc_opt_value(
            match o {
                Some(v) => Some(v@),
                None => None,
            },
        ),
        !ok ==> !entry_within(
            match o {
                Some(v) => Some(v@),
                None => None,
            },
        ),
{
    match o {
        None => {
            out.push(0);
            proof {
                assert(out@ =~= old(out)@ + seq![0u64]);
            }
            true
        },
        Some(v) => {
            out.push(1);
            if !emit_value(out, v) {
                return false;
            }
            proof {
                assert(out@ =~= old(out)@ + (seq![1u64] + enc_value(v@)));
            }
            true
        },
    }
}

/// Emits one series: key, kind, ring length, entries.
fn emit_series_one(out: &mut Vec<u64>, key: &Key, sr: &SeriesRing) -> (ok: bool)
    ensures
        ok ==> key_within(key@) && sr@.values.len() <= MAX_ARRAY && (forall|j: int|
            0 <= j < sr@.values.len() ==> entry_within(#[trigger] sr@.values[j])) && final(out)@
            == old(out)@ + enc_series_one((key@, sr@)),
        !ok ==> !(key_within(key@) && sr@.values.len() <= MAX_ARRAY && (forall|j: int|
            0 <= j < sr@.values.len() ==> entry_within(#[trigger] sr@.values[j]))),
{
    let ghost base = out@;
    if !emit_key(out, key) {
        return false;
    }
    let n = sr.values.len();
    if n as u64 > MAX_ARRAY {
        return false;
    }
    out.push(kind_tag_of(sr.kind));
    out.push(n as u64);
    let mut i: usize = 0;
    let ghost vals = sr@.values;
    proof {
        assert(vals.len() == n);
        assert(out@ + enc_entries(vals.skip(0)) =~= base + enc_series_one((key@, sr@))) by {
            assert(vals.skip(0) =~= vals);
            assert(out@ =~= base + enc_key(key@) + seq![kind_tag(sr@.kind), vals.len() as u64]);
            assert(base + enc_key(key@) + seq![kind_tag(sr@.kind), vals.len() as u64] + enc_entries(
                vals,
            ) =~= base + enc_series_one((key@, sr@)));
        }
    }
    while i < n
        invariant
            n == sr.values@.len(),
            vals == sr@.values,
            vals.len() == n,
            0 <= i <= n,
            out@ + enc_entries(vals.skip(i as int)) == base + enc_series_one((key@, sr@)),
            forall|j: int|
                0 <= j < i ==> entry_within(#[trigger] vals[j]),
        decreases n - i,
    {
        let ghost pre = out@;
        if !emit_opt_value(out, &sr.values[i]) {
            proof {
                assert(vals[i as int] == (match sr.values@[i as int] {
                    Some(v) => Some(v@),
                    None => None::<ValueV>,
                }));
            }
            return false;
        }
        proof {
            assert(vals[i as int] == (match sr.values@[i as int] {
                Some(v) => Some(v@),
                None => None::<ValueV>,
            }));
            let sk = vals.skip(i as int);
            assert(sk[0] == vals[i as int]);
            assert(sk.drop_first() =~= vals.skip(i as int + 1));
            assert(enc_entries(sk) == enc_opt_value(sk[0]) + enc_entries(sk.drop_first()));
            assert(out@ =~= pre + enc_opt_value(vals[i as int]));
            assert(out@ + enc_entries(vals.skip(i as int + 1)) =~= pre + enc_entries(sk));
        }
        i = i + 1;
    }
    proof {
        assert(vals.skip(n as int) =~= Seq::<Option<ValueV>>::empty());
        assert(out@ + enc_entries(vals.skip(n as int)) =~= out@);
    }
    true
}

} // verus!

verus! {

/// Emits the tip tier.
fn emit_tip(out: &mut Vec<u64>, t: &Tip) -> (ok: bool)
    ensures
        ok ==> tip_within(t@) && final(out)@ == old(out)@ + enc_tip(t@),
        !ok ==> !tip_within(t@),
{
    let ghost base = out@;
    match t.latest {
        None => {
            out.push(0);
        },
        Some(m) => {
            out.push(1);
            out.push(m.0);
            out.push(m.1 as u64);
        },
    }
    let n = t.values.len();
    if n as u64 > MAX_ARRAY {
        return false;
    }
    out.push(n as u64);
    let ghost tv = t@.values;
    let mut i: usize = 0;
    proof {
        assert(tv.len() == n);
        assert(forall|k: int|
            0 <= k < n ==> #[trigger] tv[k] == (t.values@[k].0@, t.values@[k].1@));
        let head = match t@.latest {
            None => seq![0u64],
            Some(m) => seq![1u64] + enc_marker(m),
        };
        assert(out@ + enc_tip_values(tv.skip(0)) =~= base + enc_tip(t@)) by {
            assert(tv.skip(0) =~= tv);
            assert(out@ =~= base + head + seq![tv.len() as u64]);
            assert(base + head + seq![tv.len() as u64] + enc_tip_values(tv) =~= base + enc_tip(t@));
        }
    }
    while i < n
        invariant
            n == t.values@.len(),
            tv == t@.values,
            tv.len() == n,
            forall|k: int| 0 <= k < n ==> #[trigger] tv[k] == (t.values@[k].0@, t.values@[k].1@),
            0 <= i <= n,
            out@ + enc_tip_values(tv.skip(i as int)) == base + enc_tip(t@),
            forall|k: int|
                0 <= k < i ==> key_within((#[trigger] tv[k]).0) && value_within(tv[k].1),
        decreases n - i,
    {
        let ghost pre = out@;
        if !emit_key(out, &t.values[i].0) {
            return false;
        }
        if !emit_value(out, &t.values[i].1) {
            return false;
        }
        proof {
            let sk = tv.skip(i as int);
            assert(sk[0] == tv[i as int]);
            assert(sk.drop_first() =~= tv.skip(i as int + 1));
            assert(enc_tip_values(sk) == enc_key(sk[0].0) + enc_value(sk[0].1) + enc_tip_values(
                sk.drop_first(),
            ));
            assert(out@ =~= pre + enc_key(tv[i as int].0) + enc_value(tv[i as int].1));
            assert(out@ + enc_tip_values(tv.skip(i as int + 1)) =~= pre + enc_tip_values(sk));
        }
        i = i + 1;
    }
    proof {
        assert(tv.skip(n as int) =~= Seq::<(KeyView, ValueV)>::empty());
        assert(out@ + enc_tip_values(tv.skip(n as int)) =~= out@);
    }
    true
}

/// Emits one ring tier.
fn emit_buffer(out: &mut Vec<u64>, b: &Buffer) -> (ok: bool)
    ensures
        ok ==> buffer_within(b@) && final(out)@ == old(out)@ + enc_buffer(b@),
        !ok ==> !buffer_within(b@),
{
    let ghost base = out@;
    out.push(b.max_len as u64);
    let tn = b.timestamps.len();
    if tn as u64 > MAX_ARRAY {
        return false;
    }
    out.push(tn as u64);
    let ghost ts = b@.timestamps;
    let mut i: usize = 0;
    proof {
        assert(out@ + enc_markers(ts.skip(0)) =~= base + seq![b@.max_len as u64, ts.len() as u64]
            + enc_markers(ts)) by {
            assert(ts.skip(0) =~= ts);
            assert(out@ =~= base + seq![b@.max_len as u64, ts.len() as u64]);
        }
    }
    while i < tn
        invariant
            tn == b.timestamps@.len(),
            ts == b@.timestamps,
            0 <= i <= tn,
            out@ + enc_markers(ts.skip(i as int)) == base + seq![
                b@.max_len as u64,
                ts.len() as u64,
            ] + enc_markers(ts),
        decreases tn - i,
    {
        let ghost pre = out@;
        let m = b.timestamps[i];
        out.push(m.0);
        out.push(m.1 as u64);
        proof {
            let sk = ts.skip(i as int);
            assert(sk[0] == ts[i as int]);
            assert(sk.drop_first() =~= ts.skip(i as int + 1));
            assert(enc_markers(sk) == enc_marker(sk[0]) + enc_markers(sk.drop_first()));
            assert(out@ =~= pre + enc_marker(ts[i as int]));
            assert(out@ + enc_markers(ts.skip(i as int + 1)) =~= pre + enc_markers(sk));
        }
        i = i + 1;
    }
    proof {
        assert(ts.skip(tn as int) =~= Seq::<Marker>::empty());
        assert(out@ + enc_markers(ts.skip(tn as int)) =~= out@);
    }
    let sn = b.series.len();
    if sn as u64 > MAX_ARRAY {
        return false;
    }
    out.push(sn as u64);
    let ghost ss = b@.series;
    let ghost mid = base + seq![b@.max_len as u64, ts.len() as u64] + enc_markers(ts) + seq![
        ss.len() as u64,
    ];
    let mut j: usize = 0;
    proof {
        assert(ss.len() == sn);
        assert(forall|k: int|
            0 <= k < sn ==> #[trigger] ss[k] == (b.series@[k].0@, b.series@[k].1@));
        assert(out@ + enc_series(ss.skip(0)) =~= mid + enc_series(ss)) by {
            assert(ss.skip(0) =~= ss);
            assert(out@ =~= mid);
        }
    }
    while j < sn
        invariant
            sn == b.series@.len(),
            ss == b@.series,
            ss.len() == sn,
            forall|k: int| 0 <= k < sn ==> #[trigger] ss[k] == (b.series@[k].0@, b.series@[k].1@),
            0 <= j <= sn,
            out@ + enc_series(ss.skip(j as int)) == mid + enc_series(ss),
            forall|k: int|
                0 <= k < j ==> key_within((#[trigger] ss[k]).0) && ss[k].1.values.len()
                    <= MAX_ARRAY && (forall|t: int|
                    0 <= t < ss[k].1.values.len() ==> entry_within(#[trigger] ss[k].1.values[t])),
        decreases sn - j,
    {
        let ghost pre = out@;
        if !emit_series_one(out, &b.series[j].0, &b.series[j].1) {
            return false;
        }
        proof {
            let sk = ss.skip(j as int);
            assert(sk[0] == ss[j as int]);
            assert(sk.drop_first() =~= ss.skip(j as int + 1));
            assert(enc_series(sk) == enc_series_one(sk[0]) + enc_series(sk.drop_first()));
            assert(out@ =~= pre + enc_series_one(ss[j as int]));
            assert(out@ + enc_series(ss.skip(j as int + 1)) =~= pre + enc_series(sk));
        }
        j = j + 1;
    }
    proof {
        assert(ss.skip(sn as int) =~= Seq::<(KeyView, SeriesRingV)>::empty());
        assert(out@ + enc_series(ss.skip(sn as int)) =~= out@);
        assert(out@ =~= base + enc_buffer(b@)) by {
            assert(enc_buffer(b@) == seq![b@.max_len as u64, ts.len() as u64] + enc_markers(ts)
                + seq![ss.len() as u64] + enc_series(ss));
        }
    }
    true
}

/// Why a snapshot failed to encode: something exceeded the configured size
/// bounds.
#[derive(Debug, PartialEq, Eq, Structural)]
pub enum EncodeError {
    TooLarge,
}

/// Encodes the version tag and the whole history into one deterministic
/// buffer; a history beyond the configured size bounds is refused, never
/// truncated.
pub fn encode_snapshot(h: &History) -> (r: Result<Vec<u8>, EncodeError>)
    ensures
        match r {
            Ok(buf) => snapshot_within(h@) && buf@ == words_bytes(enc_snapshot(h@)),
            Err(_) => !snapshot_within(h@),
        },
{
    let mut ws: Vec<u64> = Vec::new();
    ws.push(VERSION_TAG);
    if !emit_tip(&mut ws, &h.tip) {
        return Err(EncodeError::TooLarge);
    }
    if !emit_buffer(&mut ws, &h.fine) {
        return Err(EncodeError::TooLarge);
    }
    if !emit_buffer(&mut ws, &h.coarse) {
        return Err(EncodeError::TooLarge);
    }
    proof {
        assert(ws@ =~= seq![VERSION_TAG] + enc_tip(h@.tip) + enc_buffer(h@.fine) + enc_buffer(
            h@.coarse,
        ));
        assert(ws@ =~= enc_snapshot(h@));
    }
    let buf = words_to_bytes(&ws);
    Ok(buf)
}

} // verus!

verus! {

// ----- executable decoder -----

/// Why a snapshot failed to decode; in every case the snapshot is discarded
/// whole and the caller proceeds with an empty history.
#[derive(Debug, PartialEq, Eq, Structural)]
pub enum DecodeError {
    Truncated,
    VersionMismatch,
    LimitExceeded,
    Malformed,
}

/// Relies on char::from_u32 of std: yields the character with the given
/// code point exactly when the value is a Unicode scalar value, and nothing
/// otherwise.
#[verifier::external_body]
fn char_from_u32(v: u32) -> (r: Option<char>)
    ensures
        r matches Some(c) ==> char_code(c) == v as u64,
        (exists|c: char| #[trigger] char_code(c) == v as u64) ==> r is Some,
{
    char::from_u32(v)
}

/// Relies on String::push of std: appends exactly the one character.
#[verifier::external_body]
fn push_char(s: &mut String, c: char)
    ensures
        final(s)@ == old(s)@.push(c),
{
    s.push(c);
}

/// Reads one word.
fn rd(ws: &Vec<u64>, pos: usize) -> (r: Result<(u64, usize), DecodeError>)
    ensures
        match r {
            Ok((w, p)) => dw(ws@, pos as int) == Some((w, p as int)) && p == pos + 1,
            Err(_) => dw(ws@, pos as int) is None,
        },
{
    if pos < ws.len() {
        Ok((ws[pos], pos + 1))
    } else {
        Err(DecodeError::Truncated)
    }
}

/// Reads a text.
fn read_string(ws: &Vec<u64>, pos: usize) -> (r: Result<(String, usize), DecodeError>)
    ensures
        match r {
            Ok((s, p)) => dec_string(ws@, pos as int) == Some((s@, p as int)),
            Err(_) => dec_string(ws@, pos as int) is None,
        },
{
    let (len, p0) = rd(ws, pos)?;
    if len > MAX_TEXT {
        return Err(DecodeError::LimitExceeded);
    }
    let n = len as usize;
    let mut s = String::new();
    let mut p = p0;
    let mut i: usize = 0;
    proof {
        assert(dec_chars(ws@, p0 as int, len as int, Seq::empty()) == dec_chars(
            ws@,
            p as int,
            (n - i) as int,
            s@,
        ));
    }
    while i < n
        invariant
            n == len as int,
            0 <= i <= n,
            dec_string(ws@, pos as int) == dec_chars(ws@, p as int, (n - i) as int, s@),
        decreases n - i,
    {
        let w = match rd(ws, p) {
            Ok((w, p2)) => {
                p = p2;
                w
            },
            Err(e) => {
                return Err(e);
            },
        };
        if w > u32::MAX as u64 {
            proof {
                assert(char_of_word(w) is None) by {
                    if exists|c: char| #[trigger] char_code(c) == w {
                        let c = choose|c: char| #[trigger] char_code(c) == w;
                        assert(char_code(c) <= u32::MAX as u64);
                    }
                }
            }
            return Err(DecodeError::Malformed);
        }
        match char_from_u32(w as u32) {
            Some(c) => {
                proof {
                    assert(char_code(c) == w);
                    assert(exists|cc: char| #[trigger] char_code(cc) == w);
                    let cc = choose|cc: char| #[trigger] char_code(cc) == w;
                    assert(char_code(cc) == w);
                    assert(cc as u32 == c as u32);
                    lemma_char_code_injective(cc, c);
                    assert(char_of_word(w) == Some(c));
                }
                push_char(&mut s, c);
            },
            None => {
                proof {
                    assert(char_of_word(w) is None) by {
                        if exists|cc: char| #[trigger] char_code(cc) == w {
                            let cc = choose|cc: char| #[trigger] char_code(cc) == w;
                            assert(char_code(cc) == (w as u32) as u64);
                        }
                    }
                }
                return Err(DecodeError::Malformed);
            },
        }
        i = i + 1;
    }
    Ok((s, p))
}

/// Reads a key.
fn read_key(ws: &Vec<u64>, pos: usize) -> (r: Result<(Key, usize), DecodeError>)
    ensures
        match r {
            Ok((k, p)) => dec_key(ws@, pos as int) == Some((k@, p as int)),
            Err(_) => dec_key(ws@, pos as int) is None,
        },
{
    let (len, p0) = rd(ws, pos)?;
    if len > MAX_ARRAY {
        return Err(DecodeError::LimitExceeded);
    }
    let n = len as usize;
    let mut pairs: Vec<(String, String)> = Vec::new();
    let mut p = p0;
    let mut i: usize = 0;
    proof {
        assert(pairs@.map_values(|q: (String, String)| (q.0@, q.1@)) =~= KeyView::empty());
    }
    while i < n
        invariant
            n == len as int,
            0 <= i <= n,
            dec_key(ws@, pos as int) == dec_pairs(
                ws@,
                p as int,
                (n - i) as int,
                pairs@.map_values(|q: (String, String)| (q.0@, q.1@)),
            ),
        decreases n - i,
    {
        let ghost acc = pairs@.map_values(|q: (String, String)| (q.0@, q.1@));
        let (name, p1) = match read_string(ws, p) {
            Ok(x) => x,
            Err(e) => {
                return Err(e);
            },
        };
        let (value, p2) = match read_string(ws, p1) {
            Ok(x) => x,
            Err(e) => {
                return Err(e);
            },
        };
        proof {
            assert(acc.push((name@, value@)) =~= pairs@.push((name, value)).map_values(
                |q: (String, String)| (q.0@, q.1@),
            ));
        }
        pairs.push((name, value));
        p = p2;
        i = i + 1;
    }
    let k = Key::from_pairs_raw(pairs);
    Ok((k, p))
}

/// Reads one value.
fn read_value(ws: &Vec<u64>, pos: usize) -> (r: Result<(Value, usize), DecodeError>)
    ensures
        match r {
            Ok((v, p)) => dec_value(ws@, pos as int) == Some((v@, p as int)),
            Err(_) => dec_value(ws@, pos as int) is None,
        },
{
    let (tag, p0) = rd(ws, pos)?;
    if tag == 1 {
        let (x, p1) = rd(ws, p0)?;
        Ok((Value::Counter(x), p1))
    } else if tag == 2 {
        let (x, p1) = rd(ws, p0)?;
        Ok((Value::Integer(x as i64), p1))
    } else if tag == 3 {
        let (x, p1) = rd(ws, p0)?;
        Ok((Value::Float(x), p1))
    } else if tag == 4 {
        let (t, p1) = rd(ws, p0)?;
        let (s, p2) = read_string(ws, p1)?;
        Ok((Value::State(t, s), p2))
    } else {
        Err(DecodeError::Malformed)
    }
}

/// Reads one ring entry.
fn read_opt_value(ws: &Vec<u64>, pos: usize) -> (r: Result<(Option<Value>, usize), DecodeError>)
    ensures
        match r {
            Ok((v, p)) => dec_opt_value(ws@, pos as int) == Some(
                (
                    match v {
                        Some(x) => Some(x@),
                        None => None::<ValueV>,
                    },
                    p as int,
                ),
            ),
            Err(_) => dec_opt_value(ws@, pos as int) is None,
        },
{
    let (tag, p0) = rd(ws, pos)?;
    if tag == 0 {
        Ok((None, p0))
    } else if tag == 1 {
        let (v, p1) = read_value(ws, p0)?;
        Ok((Some(v), p1))
    } else {
        Err(DecodeError::Malformed)
    }
}

/// Reads a series' kind.
fn read_kind(ws: &Vec<u64>, pos: usize) -> (r: Result<(ValueKind, usize), DecodeError>)
    ensures
        match r {
            Ok((k, p)) => dec_kind(ws@, pos as int) == Some((k, p as int)),
            Err(_) => dec_kind(ws@, pos as int) is None,
        },
{
    let (tag, p0) = rd(ws, pos)?;
    if tag == 0 {
        Ok((ValueKind::Empty, p0))
    } else if tag == 1 {
        Ok((ValueKind::Counter, p0))
    } else if tag == 2 {
        Ok((ValueKind::Integer, p0))
    } else if tag == 3 {
        Ok((ValueKind::Float, p0))
    } else {
        Err(DecodeError::Malformed)
    }
}

} // verus!

verus! {

/// Reads a value ring.
fn read_entries(ws: &Vec<u64>, pos: usize, n: usize) -> (r: Result<
    (VecDeque<Option<Value>>, usize),
    DecodeError,
>)
    ensures
        match r {
            Ok((vs, p)) => dec_entries(ws@, pos as int, n as int, Seq::empty()) == Some(
                (
                    vs@.map_values(
                        |ov: Option<Value>|
                            match ov {
                                Some(v) => Some(v@),
                                None => None::<ValueV>,
                            },
                    ),
                    p as int,
                ),
            ),
            Err(_) => dec_entries(ws@, pos as int, n as int, Seq::empty()) is None,
        },
{
    let mut vs: VecDeque<Option<Value>> = VecDeque::new();
    let mut p = pos;
    let mut i: usize = 0;
    proof {
        assert(vs@.map_values(
            |ov: Option<Value>|
                match ov {
                    Some(v) => Some(v@),
                    None => None::<ValueV>,
                },
        ) =~= Seq::<Option<ValueV>>::empty());
    }
    while i < n
        invariant
            0 <= i <= n,
            dec_entries(ws@, pos as int, n as int, Seq::empty()) == dec_entries(
                ws@,
                p as int,
                (n - i) as int,
                vs@.map_values(
                    |ov: Option<Value>|
                        match ov {
                            Some(v) => Some(v@),
                            None => None::<ValueV>,
                        },
                ),
            ),
        decreases n - i,
    {
        let ghost acc = vs@.map_values(
            |ov: Option<Value>|
                match ov {
                    Some(v) => Some(v@),
                    None => None::<ValueV>,
                },
        );
        let (v, p1) = match read_opt_value(ws, p) {
            Ok(x) => x,
            Err(e) => {
                return Err(e);
            },
        };
        proof {
            assert(acc.push(
                match v {
                    Some(x) => Some(x@),
                    None => None::<ValueV>,
                },
            ) =~= vs@.push(v).map_values(
                |ov: Option<Value>|
                    match ov {
                        Some(vv) => Some(vv@),
                        None => None::<ValueV>,
                    },
            ));
        }
        vs.push_back(v);
        p = p1;
        i = i + 1;
    }
    Ok((vs, p))
}

/// Reads one series.
fn read_series_one(ws: &Vec<u64>, pos: usize) -> (r: Result<((Key, SeriesRing), usize), DecodeError>)
    ensures
        match r {
            Ok(((k, sr), p)) => dec_series_one(ws@, pos as int) == Some(((k@, sr@), p as int)),
            Err(_) => dec_series_one(ws@, pos as int) is None,
        },
{
    let (k, p1) = read_key(ws, pos)?;
    let (kind, p2) = read_kind(ws, p1)?;
    let (len, p3) = rd(ws, p2)?;
    if len > MAX_ARRAY {
        return Err(DecodeError::LimitExceeded);
    }
    let (values, p4) = read_entries(ws, p3, len as usize)?;
    let sr = SeriesRing { kind, values };
    Ok(((k, sr), p4))
}

/// Reads a tier's series list.
fn read_series(ws: &Vec<u64>, pos: usize, n: usize) -> (r: Result<
    (Vec<(Key, SeriesRing)>, usize),
    DecodeError,
>)
    ensures
        match r {
            Ok((ss, p)) => dec_series(ws@, pos as int, n as int, Seq::empty()) == Some(
                (ss@.map_values(|q: (Key, SeriesRing)| (q.0@, q.1@)), p as int),
            ),
            Err(_) => dec_series(ws@, pos as int, n as int, Seq::empty()) is None,
        },
{
    let mut ss: Vec<(Key, SeriesRing)> = Vec::new();
    let mut p = pos;
    let mut i: usize = 0;
    proof {
        assert(ss@.map_values(|q: (Key, SeriesRing)| (q.0@, q.1@)) =~= Seq::<
            (KeyView, SeriesRingV),
        >::empty());
    }
    while i < n
        invariant
            0 <= i <= n,
            dec_series(ws@, pos as int, n as int, Seq::empty()) == dec_series(
                ws@,
                p as int,
                (n - i) as int,
                ss@.map_values(|q: (Key, SeriesRing)| (q.0@, q.1@)),
            ),
        decreases n - i,
    {
        let ghost acc = ss@.map_values(|q: (Key, SeriesRing)| (q.0@, q.1@));
        let (one, p1) = match read_series_one(ws, p) {
            Ok(x) => x,
            Err(e) => {
                return Err(e);
            },
        };
        proof {
            assert(acc.push((one.0@, one.1@)) =~= ss@.push(one).map_values(
                |q: (Key, SeriesRing)| (q.0@, q.1@),
            ));
        }
        ss.push(one);
        p = p1;
        i = i + 1;
    }
    Ok((ss, p))
}

/// Reads one sample marker.
fn read_marker(ws: &Vec<u64>, pos: usize) -> (r: Result<(Marker, usize), DecodeError>)
    ensures
        match r {
            Ok((m, p)) => dec_marker(ws@, pos as int) == Some((m, p as int)),
            Err(_) => dec_marker(ws@, pos as int) is None,
        },
{
    let (ts, p1) = rd(ws, pos)?;
    let (dur, p2) = rd(ws, p1)?;
    if dur > u32::MAX as u64 {
        return Err(DecodeError::Malformed);
    }
    Ok(((ts, dur as u32), p2))
}

/// Reads a marker ring.
fn read_markers(ws: &Vec<u64>, pos: usize, n: usize) -> (r: Result<
    (VecDeque<Marker>, usize),
    DecodeError,
>)
    ensures
        match r {
            Ok((ts, p)) => dec_markers(ws@, pos as int, n as int, Seq::empty()) == Some(
                (ts@, p as int),
            ),
            Err(_) => dec_markers(ws@, pos as int, n as int, Seq::empty()) is None,
        },
{
    let mut ts: VecDeque<Marker> = VecDeque::new();
    let mut p = pos;
    let mut i: usize = 0;
    while i < n
        invariant
            0 <= i <= n,
            dec_markers(ws@, pos as int, n as int, Seq::empty()) == dec_markers(
                ws@,
                p as int,
                (n - i) as int,
                ts@,
            ),
        decreases n - i,
    {
        let (m, p1) = match read_marker(ws, p) {
            Ok(x) => x,
            Err(e) => {
                return Err(e);
            },
        };
        ts.push_back(m);
        p = p1;
        i = i + 1;
    }
    Ok((ts, p))
}

/// Reads the tip's values.
fn read_tip_values(ws: &Vec<u64>, pos: usize, n: usize) -> (r: Result<
    (Vec<(Key, Value)>, usize),
    DecodeError,
>)
    ensures
        match r {
            Ok((vs, p)) => dec_tip_values(ws@, pos as int, n as int, Seq::empty()) == Some(
                (crate::ring::batch_views(vs@), p as int),
            ),
            Err(_) => dec_tip_values(ws@, pos as int, n as int, Seq::empty()) is None,
        },
{
    let mut vs: Vec<(Key, Value)> = Vec::new();
    let mut p = pos;
    let mut i: usize = 0;
    proof {
        assert(crate::ring::batch_views(vs@) =~= Seq::<(KeyView, ValueV)>::empty());
    }
    while i < n
        invariant
            0 <= i <= n,
            dec_tip_values(ws@, pos as int, n as int, Seq::empty()) == dec_tip_values(
                ws@,
                p as int,
                (n - i) as int,
                crate::ring::batch_views(vs@),
            ),
        decreases n - i,
    {
        let ghost acc = crate::ring::batch_views(vs@);
        let (k, p1) = match read_key(ws, p) {
            Ok(x) => x,
            Err(e) => {
                return Err(e);
            },
        };
        let (v, p2) = match read_value(ws, p1) {
            Ok(x) => x,
            Err(e) => {
                return Err(e);
            },
        };
        proof {
            assert(acc.push((k@, v@)) =~= crate::ring::batch_views(vs@.push((k, v))));
        }
        vs.push((k, v));
        p = p2;
        i = i + 1;
    }
    Ok((vs, p))
}

/// Reads the tip tier.
fn read_tip(ws: &Vec<u64>, pos: usize) -> (r: Result<(Tip, usize), DecodeError>)
    ensures
        match r {
            Ok((t, p)) => dec_tip(ws@, pos as int) == Some((t@, p as int)),
            Err(_) => dec_tip(ws@, pos as int) is None,
        },
{
    let (tag, p0) = rd(ws, pos)?;
    let (latest, p1): (Option<Marker>, usize) = if tag == 0 {
        (None, p0)
    } else if tag == 1 {
        let (m, pm) = read_marker(ws, p0)?;
        (Some(m), pm)
    } else {
        return Err(DecodeError::Malformed);
    };
    let (len, p2) = rd(ws, p1)?;
    if len > MAX_ARRAY {
        return Err(DecodeError::LimitExceeded);
    }
    let (values, p3) = read_tip_values(ws, p2, len as usize)?;
    Ok((Tip { latest, values }, p3))
}

/// Reads one ring tier.
fn read_buffer(ws: &Vec<u64>, pos: usize) -> (r: Result<(Buffer, usize), DecodeError>)
    ensures
        match r {
            Ok((b, p)) => dec_buffer(ws@, pos as int) == Some((b@, p as int)),
            Err(_) => dec_buffer(ws@, pos as int) is None,
        },
{
    let (cap, p0) = rd(ws, pos)?;
    if cap > usize::MAX as u64 {
        return Err(DecodeError::LimitExceeded);
    }
    let (tn, p1) = rd(ws, p0)?;
    if tn > MAX_ARRAY {
        return Err(DecodeError::LimitExceeded);
    }
    let (timestamps, p2) = read_markers(ws, p1, tn as usize)?;
    let (sn, p3) = rd(ws, p2)?;
    if sn > MAX_ARRAY {
        return Err(DecodeError::LimitExceeded);
    }
    let (series, p4) = read_series(ws, p3, sn as usize)?;
    Ok((Buffer { timestamps, series, max_len: cap as usize }, p4))
}

/// Decodes a persisted snapshot: the version tag must match the running
/// engine's, every size bound is enforced, and nothing may trail the
/// history; any failure discards the snapshot whole.
#[verifier::rlimit(60)]
pub fn decode_snapshot(buf: &Vec<u8>) -> (r: Result<History, DecodeError>)
    ensures
        match r {
            Ok(h) => decodes_to(buf@) == Some(h@),
            Err(_) => decodes_to(buf@) is None,
        },
        r matches Err(DecodeError::VersionMismatch) ==> (bytes_to_words(buf@) matches Some(ws)
            && ws.len() >= 1 && ws[0] != VERSION_TAG),
{
    let ws = match bytes_into_words(buf) {
        Some(ws) => ws,
        None => {
            return Err(DecodeError::Truncated);
        },
    };
    let (tag, p0) = match rd(&ws, 0) {
        Ok(x) => x,
        Err(_) => {
            return Err(DecodeError::Truncated);
        },
    };
    if tag != VersionInfo::current().0 {
        return Err(DecodeError::VersionMismatch);
    }
    let (tip, p1) = match read_tip(&ws, p0) {
        Ok(x) => x,
        Err(e) => {
            return Err(
                match e {
                    DecodeError::VersionMismatch => DecodeError::Malformed,
                    other => other,
                },
            );
        },
    };
    let (fine, p2) = match read_buffer(&ws, p1) {
        Ok(x) => x,
        Err(e) => {
            return Err(
                match e {
                    DecodeError::VersionMismatch => DecodeError::Malformed,
                    other => other,
                },
            );
        },
    };
    let (coarse, p3) = match read_buffer(&ws, p2) {
        Ok(x) => x,
        Err(e) => {
            return Err(
                match e {
                    DecodeError::VersionMismatch => DecodeError::Malformed,
                    other => other,
                },
            );
        },
    };
    if p3 != ws.len() {
        return Err(DecodeError::Malformed);
    }
    Ok(History { tip, fine, coarse })
}

} // verus!
