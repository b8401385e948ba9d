//! Pretokenization: the input is cut into chunks by the GPT-2 pattern, each
//! merged on its own. Bytes that no match covers form chunks of their own,
//! so the chunks always cover the input.
use vstd::prelude::*;

verus! {

/// The pretokenizer pattern: contractions, letter runs, digit runs, other
/// non-space runs, each with one optional leading space, then whitespace.
pub const PRETOKEN_PATTERN: &'static str = "'s|'t|'re|'ve|'m|'ll|'d| ?\\p{L}+| ?\\p{N}+| ?[^\\s\\p{L}\\p{N}]+|\\s+\\S?|\\s+";

/// The start and end offsets of the successive matches of `pattern` in
/// `haystack`; `None` when the pattern does not compile.
pub uninterp spec fn regex_find_all(pattern: Seq<char>, haystack: Seq<u8>) -> Option<Seq<(usize, usize)>>;

/// Relies on `regex::bytes::Regex::new` to compile `pattern` and on
/// `Regex::find_iter` for the offsets of its successive matches; both depend
/// on the pattern and the haystack alone.
#[verifier::external_body]
fn find_matches(pattern: &str, haystack: &[u8]) -> (r: Option<Vec<(usize, usize)>>)
    ensures
        r is Some == regex_find_all(pattern@, haystack@) is Some,
        r matches Some(v) ==> v@ == regex_find_all(pattern@, haystack@).unwrap(),
{
    match regex::bytes::Regex::new(pattern) {
        Ok(re) => Some(re.find_iter(haystack).map(|m| (m.start(), m.end())).collect()),
        Err(_) => None,
    }
}

/// The chunks of `0..n` from position `pos` on: each usable match (inside
/// the rest, not empty) is a chunk, and so is each gap before it and after
/// the last.
pub open spec fn tile_spans(n: int, spans: Seq<(usize, usize)>, pos: int) -> Seq<(int, int)>
    decreases spans.len(),
{
    if spans.len() == 0 {
        if pos < n {
            seq![(pos, n)]
        } else {
            seq![]
        }
    } else {
        let a = spans[0].0 as int;
        let b = spans[0].1 as int;
        let rest = spans.subrange(1, spans.len() as int);
        if pos <= a && a < b && b <= n {
            gap(pos, a) + seq![(a, b)] + tile_spans(n, rest, b)
        } else {
            tile_spans(n, rest, pos)
        }
    }
}

/// The span from `pos` to `a`, unless it is empty.
pub open spec fn gap(pos: int, a: int) -> Seq<(int, int)> {
    if pos < a {
        seq![(pos, a)]
    } else {
        seq![]
    }
}

/// The chunk offsets of `s`.
pub open spec fn pretoken_spans(s: Seq<u8>) -> Seq<(int, int)> {
    match regex_find_all(PRETOKEN_PATTERN@, s) {
        Some(spans) => tile_spans(s.len() as int, spans, 0),
        None => tile_spans(s.len() as int, seq![], 0),
    }
}

/// `t` cuts `from..to` into non-empty spans, in order, each starting where
/// the one before ends.
pub open spec fn tiles(t: Seq<(int, int)>, from: int, to: int) -> bool {
    &&& t.len() == 0 ==> from == to
    &&& t.len() > 0 ==> t[0].0 == from && t.last().1 == to
    &&& forall|i: int| 0 <= i < t.len() ==> #[trigger] t[i].0 < t[i].1
    &&& forall|i: int| 0 <= i < t.len() - 1 ==> #[trigger] t[i].1 == t[i + 1].0
}

/// The bytes of `s` under each span of `t`.
pub open spec fn chunks_of(s: Seq<u8>, t: Seq<(int, int)>) -> Seq<Seq<u8>> {
    t.map_values(|p: (int, int)| s.subrange(p.0, p.1))
}

/// Spans as integers.
pub open spec fn spans_view(r: Seq<(usize, usize)>) -> Seq<(int, int)> {
    r.map_values(|p: (usize, usize)| (p.0 as int, p.1 as int))
}

/// Tilings of two neighbouring ranges join into a tiling of both.
pub proof fn lemma_tiles_join(x: Seq<(int, int)>, y: Seq<(int, int)>, a: int, b: int, c: int)
    requires
        tiles(x, a, b),
        tiles(y, b, c),
    ensures
        tiles(x + y, a, c),
{
    let z = x + y;
    assert forall|i: int| 0 <= i < z.len() implies #[trigger] z[i].0 < z[i].1 by {
        if i < x.len() {
            assert(x[i].0 < x[i].1);
        } else {
            assert(y[i - x.len()].0 < y[i - x.len()].1);
        }
    }
    assert forall|i: int| 0 <= i < z.len() - 1 implies #[trigger] z[i].1 == z[i + 1].0 by {
        if i < x.len() - 1 {
            assert(x[i].1 == x[i + 1].0);
        } else if i == x.len() - 1 {
        } else {
            assert(y[i - x.len()].1 == y[i - x.len() + 1].0);
        }
    }
    if x.len() > 0 && y.len() > 0 {
        assert(z.last() == y.last());
    } else if x.len() == 0 {
        assert(z =~= y);
    } else {
        assert(z =~= x);
    }
}

/// `tile_spans` tiles the rest of the input.
pub proof fn lemma_tile_spans(n: int, spans: Seq<(usize, usize)>, pos: int)
    requires
        0 <= pos <= n,
    ensures
        tiles(tile_spans(n, spans, pos), pos, n),
    decreases spans.len(),
{
    if spans.len() > 0 {
        let a = spans[0].0 as int;
        let b = spans[0].1 as int;
        let rest = spans.subrange(1, spans.len() as int);
        lemma_tile_spans(n, rest, pos);
        if pos <= a && a < b && b <= n {
            lemma_tile_spans(n, rest, b);
            let one: Seq<(int, int)> = seq![(a, b)];
            assert(tiles(one, a, b));
            assert(tiles(gap(pos, a), pos, a));
            lemma_tiles_join(gap(pos, a), one, pos, a, b);
            lemma_tiles_join(gap(pos, a) + one, tile_spans(n, rest, b), pos, b, n);
        }
    } else {
        let t = tile_spans(n, spans, pos);
        assert(tiles(t, pos, n));
    }
}

/// The chunks of a tiling, joined, give back the bytes of its range.
pub proof fn lemma_chunks_flatten(s: Seq<u8>, t: Seq<(int, int)>, from: int, to: int)
    requires
        tiles(t, from, to),
        0 <= from <= to <= s.len(),
    ensures
        chunks_of(s, t).flatten() == s.subrange(from, to),
    decreases t.len(),
{
    if t.len() == 0 {
        assert(s.subrange(from, to) =~= Seq::<u8>::empty());
    } else {
        let rest = t.drop_first();
        assert(t[0].0 < t[0].1);
        assert forall|i: int| 0 <= i < rest.len() implies #[trigger] rest[i].0 < rest[i].1 by {
            assert(t[i + 1].0 < t[i + 1].1);
        }
        assert forall|i: int| 0 <= i < rest.len() - 1 implies #[trigger] rest[i].1 == rest[i + 1].0 by {
            assert(t[i + 1].1 == t[i + 2].0);
        }
        if rest.len() > 0 {
            assert(t[0].1 == t[1].0);
            assert(rest.last() == t.last());
        }
        assert(tiles(rest, t[0].1, to));
        lemma_tile_bounds(rest, t[0].1, to);
        lemma_chunks_flatten(s, rest, t[0].1, to);
        assert(chunks_of(s, t).drop_first() =~= chunks_of(s, rest));
        assert(s.subrange(from, to) =~= s.subrange(from, t[0].1) + s.subrange(t[0].1, to));
    }
}

/// A tiling runs forward.
pub proof fn lemma_tile_bounds(t: Seq<(int, int)>, from: int, to: int)
    requires
        tiles(t, from, to),
    ensures
        from <= to,
        forall|i: int| 0 <= i < t.len() ==> from <= #[trigger] t[i].0 && t[i].1 <= to,
    decreases t.len(),
{
    if t.len() > 0 {
        let rest = t.drop_first();
        assert forall|i: int| 0 <= i < rest.len() implies #[trigger] rest[i].0 < rest[i].1 by {
            assert(t[i + 1].0 < t[i + 1].1);
        }
        assert forall|i: int| 0 <= i < rest.len() - 1 implies #[trigger] rest[i].1 == rest[i + 1].0 by {
            assert(t[i + 1].1 == t[i + 2].0);
        }
        if rest.len() > 0 {
            assert(t[0].1 == t[1].0);
            assert(rest.last() == t.last());
        }
        assert(t[0].0 < t[0].1);
        lemma_tile_bounds(rest, t[0].1, to);
        assert forall|i: int| 0 <= i < t.len() implies from <= #[trigger] t[i].0 && t[i].1 <= to by {
            if i > 0 {
                assert(rest[i - 1] == t[i]);
            }
        }
    }
}

/// Cuts `s` into pretoken chunks and returns their offsets. The chunks are
/// non-empty, in order, and cover `s` without overlap.
pub fn pretokenize(s: &[u8]) -> (r: Vec<(usize, usize)>)
    ensures
        spans_view(r@) == pretoken_spans(s@),
        tiles(spans_view(r@), 0, s@.len() as int),
        forall|i: int| 0 <= i < r@.len() ==> #[trigger] r@[i].0 < r@[i].1 && r@[i].1 <= s@.len(),
{
    let found = find_matches(PRETOKEN_PATTERN, s);
    let spans: Vec<(usize, usize)> = match found {
        Some(v) => v,
        None => Vec::new(),
    };
    let ghost n = s@.len() as int;
    proof {
        if found is None {
            assert(spans@ =~= Seq::<(usize, usize)>::empty());
        }
        assert(pretoken_spans(s@) == tile_spans(n, spans@, 0));
        assert(spans@.subrange(0, spans@.len() as int) =~= spans@);
    }
    let mut out: Vec<(usize, usize)> = Vec::new();
    let mut pos: usize = 0;
    let mut k: usize = 0;
    while k < spans.len()
        invariant
            k <= spans.len(),
            n == s@.len(),
            0 <= pos <= n,
            pretoken_spans(s@) == tile_spans(n, spans@, 0),
            tile_spans(n, spans@, 0) == spans_view(out@) + tile_spans(
                n,
                spans@.subrange(k as int, spans@.len() as int),
                pos as int,
            ),
        decreases spans.len() - k,
    {
        let (a, b) = spans[k];
        let ghost rest = spans@.subrange(k as int, spans@.len() as int);
        proof {
            assert(rest.subrange(1, rest.len() as int) =~= spans@.subrange(k + 1, spans@.len() as int));
        }
        if pos <= a && a < b && b <= s.len() {
            let ghost before = out@;
            if pos < a {
                out.push((pos, a));
            }
            out.push((a, b));
            proof {
                assert(spans_view(out@) =~= spans_view(before) + gap(pos as int, a as int) + seq![(a as int, b as int)]);
            }
            pos = b;
        }
        k += 1;
    }
    if pos < s.len() {
        out.push((pos, s.len()));
    }
    proof {
        assert(spans@.subrange(k as int, spans@.len() as int) =~= Seq::<(usize, usize)>::empty());
        assert(spans_view(out@) == tile_spans(n, spans@, 0));
        lemma_tile_spans(n, spans@, 0);
        lemma_tile_bounds(spans_view(out@), 0, n);
        assert forall|i: int| 0 <= i < out@.len() implies #[trigger] out@[i].0 < out@[i].1 && out@[i].1 <= s@.len() by {
            assert(spans_view(out@)[i] == (out@[i].0 as int, out@[i].1 as int));
        }
    }
    out
}

} // verus!
