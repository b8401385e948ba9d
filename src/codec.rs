//! Encoding text to token ids and decoding token ids back to text.
use vstd::prelude::*;
use vstd::slice::slice_subrange;
use crate::bpe::{bpe, lemma_bpe_flatten, lemma_flatten_cons, symbols_view, BytePairEncoder};
use crate::pretoken::{chunks_of, lemma_chunks_flatten, lemma_tile_spans, pretoken_spans, pretokenize, spans_view};
use crate::table::{find_key, find_value, lemma_find_value_of_key, values_unique, vocabulary_wf, MergeTable, Vocabulary};
use crate::visible::{decode_visible, lemma_decode_visible, to_byte, to_visible, visible_utf8};

verus! {

/// The initial symbols of a chunk: the visible scalar of each byte.
pub open spec fn symbols_of(chunk: Seq<u8>) -> Seq<Seq<u8>> {
    chunk.map_values(|b: u8| visible_utf8(b))
}

/// Every symbol is a key of the vocabulary.
pub open spec fn all_known(v: Seq<(Seq<u8>, u32)>, syms: Seq<Seq<u8>>) -> bool {
    forall|i: int| 0 <= i < syms.len() ==> find_key(v, #[trigger] syms[i]) is Some
}

/// The id of each symbol.
pub open spec fn ids_of(v: Seq<(Seq<u8>, u32)>, syms: Seq<Seq<u8>>) -> Seq<u32> {
    syms.map_values(|x: Seq<u8>| find_key(v, x).unwrap())
}

/// The ids of one chunk: the id of the whole chunk if it is a token, else
/// the ids of its merged symbols, else those of its initial symbols.
pub open spec fn encode_chunk(v: Seq<(Seq<u8>, u32)>, m: Seq<(Seq<u8>, u32)>, c: Seq<u8>) -> Seq<u32> {
    let init = symbols_of(c);
    match find_key(v, init.flatten()) {
        Some(id) => seq![id],
        None => {
            let merged = bpe(m, init);
            if all_known(v, merged) {
                ids_of(v, merged)
            } else {
                ids_of(v, init)
            }
        },
    }
}

/// The ids of a text: those of its pretoken chunks, in order.
pub open spec fn encode_text(v: Seq<(Seq<u8>, u32)>, m: Seq<(Seq<u8>, u32)>, s: Seq<u8>) -> Seq<u32> {
    chunks_of(s, pretoken_spans(s)).map_values(|c: Seq<u8>| encode_chunk(v, m, c)).flatten()
}

/// Text in the visible alphabet back to bytes: each visible scalar gives its
/// byte, any other byte stands for itself.
pub open spec fn unmap(s: Seq<u8>) -> Seq<u8>
    decreases s.len(),
{
    if s.len() == 0 {
        seq![]
    } else if s.len() >= 2 && decode_visible(s.subrange(0, 2)) is Some {
        seq![decode_visible(s.subrange(0, 2)).unwrap()] + unmap(s.subrange(2, s.len() as int))
    } else {
        seq![s[0]] + unmap(s.subrange(1, s.len() as int))
    }
}

/// The spelling of each id; an unknown id spells nothing.
pub open spec fn id_symbols(v: Seq<(Seq<u8>, u32)>, ids: Seq<u32>) -> Seq<Seq<u8>> {
    ids.map_values(
        |id: u32|
            match find_value(v, id) {
                Some(k) => k,
                None => Seq::<u8>::empty(),
            },
    )
}

/// The bytes of a sequence of ids.
pub open spec fn decode_ids(v: Seq<(Seq<u8>, u32)>, ids: Seq<u32>) -> Seq<u8> {
    unmap(id_symbols(v, ids).flatten())
}

/// The initial symbols are at most twice as long as the chunk.
proof fn lemma_symbols_len(c: Seq<u8>)
    ensures
        symbols_of(c).flatten().len() <= 2 * c.len(),
{
    let s = symbols_of(c);
    assert forall|i: int| 0 <= i < s.len() implies (#[trigger] s[i]).len() <= 2 by {}
    s.lemma_flatten_length_le_mul(2);
    s.lemma_flatten_and_flatten_alt_are_equivalent();
}

/// The byte lengths of the extended grapheme clusters of `text`, in order;
/// `None` when `text` is not UTF-8.
pub uninterp spec fn grapheme_lengths(text: Seq<u8>) -> Option<Seq<usize>>;

/// Where cluster `j` starts: the sum of the lengths before it.
pub open spec fn cluster_start(ls: Seq<usize>, j: int) -> int
    decreases j,
{
    if j <= 0 {
        0
    } else {
        cluster_start(ls, j - 1) + ls[j - 1]
    }
}

/// Relies on `UnicodeSegmentation::graphemes` (extended clusters), after
/// `std::str::from_utf8`: the clusters are successive non-empty slices of
/// the text, so they cover it and each starts on a scalar boundary.
#[verifier::external_body]
fn cluster_lengths(text: &[u8]) -> (r: Option<Vec<usize>>)
    ensures
        r is Some == grapheme_lengths(text@) is Some,
        r matches Some(ls) ==> {
            &&& ls@ == grapheme_lengths(text@).unwrap()
            &&& forall|i: int| 0 <= i < ls@.len() ==> #[trigger] ls@[i] > 0
            &&& cluster_start(ls@, ls@.len() as int) == text@.len()
            &&& forall|j: int|
                0 <= j < ls@.len() ==> !crate::visible::is_continuation(
                    #[trigger] text@[cluster_start(ls@, j)],
                )
        },
{
    match std::str::from_utf8(text) {
        Ok(s) => Some(unicode_segmentation::UnicodeSegmentation::graphemes(s, true).map(|g| g.len()).collect()),
        Err(_) => None,
    }
}

/// Cluster starts grow with the index.
proof fn lemma_cluster_start_grows(ls: Seq<usize>, i: int, j: int)
    requires
        0 <= i <= j <= ls.len(),
    ensures
        cluster_start(ls, i) <= cluster_start(ls, j),
    decreases j - i,
{
    if i < j {
        lemma_cluster_start_grows(ls, i, j - 1);
    }
}

/// Where the symbol of byte `k` starts in the visible text.
pub open spec fn symbol_start(slice: Seq<u8>, k: int) -> int {
    symbols_of(slice.subrange(0, k)).flatten().len() as int
}

/// The visible text holds the symbol of byte `k` at its start.
proof fn lemma_symbol_at(slice: Seq<u8>, k: int)
    requires
        0 <= k < slice.len(),
    ensures
        symbol_start(slice, k + 1) == symbol_start(slice, k) + visible_utf8(slice[k]).len(),
        symbols_of(slice).flatten().subrange(symbol_start(slice, k), symbol_start(slice, k + 1))
            == visible_utf8(slice[k]),
        symbol_start(slice, k + 1) <= symbols_of(slice).flatten().len(),
{
    let a = symbols_of(slice.subrange(0, k));
    let v = visible_utf8(slice[k]);
    let b = symbols_of(slice.subrange(k + 1, slice.len() as int));
    assert(symbols_of(slice.subrange(0, k + 1)) =~= a.push(v));
    a.lemma_flatten_push(v);
    assert(symbols_of(slice) =~= a.push(v) + b);
    vstd::seq_lib::lemma_flatten_concat(a.push(v), b);
    let t = symbols_of(slice).flatten();
    assert(t.subrange(symbol_start(slice, k), symbol_start(slice, k + 1)) =~= v);
}

/// The visible text of `slice`: the symbols of its bytes, joined.
fn visible_text(slice: &[u8]) -> (r: Vec<u8>)
    ensures
        r@ == symbols_of(slice@).flatten(),
        r@.len() <= 2 * slice@.len(),
{
    let mut r: Vec<u8> = Vec::new();
    let mut k: usize = 0;
    while k < slice.len()
        invariant
            k <= slice.len(),
            r@ == symbols_of(slice@.subrange(0, k as int)).flatten(),
        decreases slice.len() - k,
    {
        let sym = to_visible(slice[k]);
        let mut j: usize = 0;
        while j < sym.len()
            invariant
                j <= sym.len(),
                k < slice.len(),
                r@ == symbols_of(slice@.subrange(0, k as int)).flatten() + sym@.subrange(0, j as int),
            decreases sym.len() - j,
        {
            r.push(sym[j]);
            assert(sym@.subrange(0, j + 1) =~= sym@.subrange(0, j as int).push(sym@[j as int]));
            j += 1;
        }
        proof {
            assert(sym@.subrange(0, j as int) =~= sym@);
            let a = symbols_of(slice@.subrange(0, k as int));
            assert(symbols_of(slice@.subrange(0, k + 1)) =~= a.push(sym@));
            a.lemma_flatten_push(sym@);
        }
        k += 1;
    }
    assert(slice@.subrange(0, k as int) =~= slice@);
    proof {
        lemma_symbols_len(slice@);
    }
    r
}

/// One symbol per byte, read straight from the bytes.
fn symbols_by_byte(slice: &[u8]) -> (r: Vec<Vec<u8>>)
    ensures
        symbols_view(r@) == symbols_of(slice@),
{
    let mut r: Vec<Vec<u8>> = Vec::new();
    let mut i: usize = 0;
    while i < slice.len()
        invariant
            i <= slice.len(),
            symbols_view(r@) == symbols_of(slice@.subrange(0, i as int)),
        decreases slice.len() - i,
    {
        let sym = to_visible(slice[i]);
        let ghost before = r@;
        r.push(sym);
        assert(symbols_view(r@) =~= symbols_view(before).push(sym@));
        assert(symbols_of(slice@.subrange(0, i + 1)) =~= symbols_of(slice@.subrange(0, i as int)).push(visible_utf8(slice@[i as int])));
        i += 1;
    }
    assert(slice@.subrange(0, i as int) =~= slice@);
    r
}

/// Splits the visible text cluster by cluster into the scalars of each.
fn split_clusters(slice: &[u8], text: &Vec<u8>, ls: &Vec<usize>) -> (r: Vec<Vec<u8>>)
    requires
        text@ == symbols_of(slice@).flatten(),
        forall|i: int| 0 <= i < ls@.len() ==> #[trigger] ls@[i] > 0,
        cluster_start(ls@, ls@.len() as int) == text@.len(),
        forall|j: int|
            0 <= j < ls@.len() ==> !crate::visible::is_continuation(#[trigger] text@[cluster_start(ls@, j)]),
    ensures
        symbols_view(r@) == symbols_of(slice@),
{
    let mut r: Vec<Vec<u8>> = Vec::new();
    let mut p: usize = 0;
    let mut end: usize = 0;
    let mut ci: usize = 0;
    let ghost mut k: int = 0;
    assert(symbols_of(slice@.subrange(0, 0)) =~= Seq::<Seq<u8>>::empty());
    while p < text.len()
        invariant
            text@ == symbols_of(slice@).flatten(),
            forall|i: int| 0 <= i < ls@.len() ==> #[trigger] ls@[i] > 0,
            cluster_start(ls@, ls@.len() as int) == text@.len(),
            forall|j: int|
                0 <= j < ls@.len() ==> !crate::visible::is_continuation(#[trigger] text@[cluster_start(ls@, j)]),
            0 <= k <= slice@.len(),
            p == symbol_start(slice@, k),
            p <= end <= text@.len(),
            ci <= ls@.len(),
            end == cluster_start(ls@, ci as int),
            symbols_view(r@) == symbols_of(slice@.subrange(0, k)),
        decreases (text.len() - p) + (ls.len() - ci),
    {
        if p == end {
            proof {
                lemma_cluster_start_grows(ls@, ci as int + 1, ls@.len() as int);
            }
            end = end + ls[ci];
            ci += 1;
        } else {
            proof {
                if k >= slice@.len() {
                    assert(slice@.subrange(0, k) =~= slice@);
                }
                lemma_symbol_at(slice@, k);
                lemma_cluster_start_grows(ls@, ci as int, ls@.len() as int);
            }
            let width: usize = if 0xc2 <= text[p] && text[p] <= 0xc5 && p + 1 < end {
                2
            } else {
                1
            };
            proof {
                let v = visible_utf8(slice@[k]);
                assert(text@.subrange(p as int, p + v.len()) == v);
                assert(text@[p as int] == v[0]);
                if v.len() == 2 {
                    assert(text@[p + 1] == v[1]);
                    if p + 1 == end {
                        assert(ci < ls@.len());
                    }
                }
                assert(width == v.len());
            }
            let mut sym: Vec<u8> = Vec::new();
            sym.push(text[p]);
            if width == 2 {
                sym.push(text[p + 1]);
            }
            assert(sym@ =~= visible_utf8(slice@[k]));
            let ghost before = r@;
            r.push(sym);
            proof {
                assert(symbols_view(r@) =~= symbols_view(before).push(sym@));
                assert(symbols_of(slice@.subrange(0, k + 1)) =~= symbols_of(slice@.subrange(0, k)).push(visible_utf8(slice@[k])));
                k = k + 1;
            }
            p = p + width;
        }
    }
    proof {
        if k < slice@.len() {
            lemma_symbol_at(slice@, k);
            assert(visible_utf8(slice@[k]).len() >= 1);
        }
        assert(slice@.subrange(0, k) =~= slice@);
    }
    r
}

/// Maps each byte to the UTF-8 bytes of its visible scalar, one symbol per
/// byte: the visible text is cut into grapheme clusters and each cluster
/// into its scalars.
pub fn grapheme(slice: &[u8]) -> (r: Vec<Vec<u8>>)
    ensures
        symbols_view(r@) == symbols_of(slice@),
{
    let text = visible_text(slice);
    match cluster_lengths(text.as_slice()) {
        Some(ls) => split_clusters(slice, &text, &ls),
        None => symbols_by_byte(slice),
    }
}

/// The ids of the symbols, if every one is a token.
fn ids_for(vocab: &Vocabulary, syms: &Vec<Vec<u8>>) -> (r: Option<Vec<u32>>)
    ensures
        r is Some == all_known(vocab@, symbols_view(syms@)),
        r matches Some(v) ==> v@ == ids_of(vocab@, symbols_view(syms@)),
{
    let ghost sv = symbols_view(syms@);
    let mut out: Vec<u32> = Vec::new();
    let mut i: usize = 0;
    while i < syms.len()
        invariant
            i <= syms.len(),
            sv == symbols_view(syms@),
            all_known(vocab@, sv.subrange(0, i as int)),
            out@ == ids_of(vocab@, sv.subrange(0, i as int)),
        decreases syms.len() - i,
    {
        match vocab.token_id(syms[i].as_slice()) {
            Some(id) => {
                out.push(id);
                assert(out@ =~= ids_of(vocab@, sv.subrange(0, i + 1)));
                assert(all_known(vocab@, sv.subrange(0, i + 1))) by {
                    assert forall|k: int| 0 <= k < i + 1 implies find_key(vocab@, #[trigger] sv.subrange(0, i + 1)[k]) is Some by {
                        if k < i {
                            assert(sv.subrange(0, i as int)[k] == sv.subrange(0, i + 1)[k]);
                        }
                    }
                }
            },
            None => {
                assert(find_key(vocab@, sv[i as int]) is None);
                return None;
            },
        }
        i += 1;
    }
    assert(sv.subrange(0, i as int) =~= sv);
    Some(out)
}

/// Appends `ids` to `out`.
fn append_ids(out: &mut Vec<u32>, ids: &Vec<u32>)
    ensures
        final(out)@ == old(out)@ + ids@,
{
    let mut i: usize = 0;
    while i < ids.len()
        invariant
            i <= ids.len(),
            out@ == old(out)@ + ids@.subrange(0, i as int),
        decreases ids.len() - i,
    {
        out.push(ids[i]);
        assert(ids@.subrange(0, i + 1) =~= ids@.subrange(0, i as int).push(ids@[i as int]));
        i += 1;
    }
    assert(ids@ =~= ids@.subrange(0, i as int));
}

/// Appends the ids of one chunk to `out`.
fn encode_chunk_into(vocab: &Vocabulary, merges: &MergeTable, chunk: &[u8], out: &mut Vec<u32>)
    requires
        chunk.len() <= usize::MAX / 2,
    ensures
        final(out)@ == old(out)@ + encode_chunk(vocab@, merges@, chunk@),
{
    let init = grapheme(chunk);
    let ghost iv = symbols_view(init@);
    let mut joined: Vec<u8> = Vec::new();
    let mut i: usize = 0;
    while i < init.len()
        invariant
            i <= init.len(),
            iv == symbols_view(init@),
            joined@ == iv.subrange(0, i as int).flatten(),
        decreases init.len() - i,
    {
        let sym = &init[i];
        let mut j: usize = 0;
        while j < sym.len()
            invariant
                i < init.len(),
                iv == symbols_view(init@),
                sym@ == iv[i as int],
                j <= sym.len(),
                joined@ == iv.subrange(0, i as int).flatten() + sym@.subrange(0, j as int),
            decreases sym.len() - j,
        {
            joined.push(sym[j]);
            assert(sym@.subrange(0, j + 1) =~= sym@.subrange(0, j as int).push(sym@[j as int]));
            j += 1;
        }
        proof {
            assert(sym@.subrange(0, j as int) =~= sym@);
            assert(iv.subrange(0, i + 1) =~= iv.subrange(0, i as int).push(iv[i as int]));
            iv.subrange(0, i as int).lemma_flatten_push(iv[i as int]);
        }
        i += 1;
    }
    assert(iv.subrange(0, i as int) =~= iv);
    match vocab.token_id(joined.as_slice()) {
        Some(id) => {
            out.push(id);
            assert(out@ =~= old(out)@ + encode_chunk(vocab@, merges@, chunk@));
        },
        None => {
            proof {
                lemma_symbols_len(chunk@);
            }
            let enc = BytePairEncoder::new(init);
            let merged = enc.merge_all(merges);
            match ids_for(vocab, &merged) {
                Some(ids) => append_ids(out, &ids),
                None => {
                    let again = grapheme(chunk);
                    proof {
                        assert forall|k: int| 0 <= k < iv.len() implies find_key(vocab@, #[trigger] iv[k]) is Some by {
                            assert(iv[k] == visible_utf8(chunk@[k]));
                        }
                    }
                    match ids_for(vocab, &again) {
                        Some(ids) => append_ids(out, &ids),
                        None => {},
                    }
                },
            }
        },
    }
}

/// Encodes text into token ids: pretokenize, map each chunk to visible
/// symbols, merge, and look the symbols up.
pub fn encode(s: &[u8], vocab: &Vocabulary, merges: &MergeTable) -> (r: Vec<u32>)
    requires
        s.len() <= usize::MAX / 2,
    ensures
        r@ == encode_text(vocab@, merges@, s@),
{
    let spans = pretokenize(s);
    let ghost chunks = chunks_of(s@, spans_view(spans@));
    let ghost enc = |c: Seq<u8>| encode_chunk(vocab@, merges@, c);
    let mut out: Vec<u32> = Vec::new();
    let mut k: usize = 0;
    while k < spans.len()
        invariant
            k <= spans.len(),
            s.len() <= usize::MAX / 2,
            chunks == chunks_of(s@, spans_view(spans@)),
            enc == (|c: Seq<u8>| encode_chunk(vocab@, merges@, c)),
            forall|i: int| 0 <= i < spans@.len() ==> #[trigger] spans@[i].0 < spans@[i].1 && spans@[i].1 <= s@.len(),
            out@ == chunks.subrange(0, k as int).map_values(enc).flatten(),
        decreases spans.len() - k,
    {
        let (a, b) = spans[k];
        assert(spans@[k as int].0 < spans@[k as int].1 && spans@[k as int].1 <= s@.len());
        let chunk = slice_subrange(s, a, b);
        assert(chunk@ == chunks[k as int]);
        encode_chunk_into(vocab, merges, chunk, &mut out);
        proof {
            let p = chunks.subrange(0, k as int).map_values(enc);
            assert(chunks.subrange(0, k + 1).map_values(enc) =~= p.push(enc(chunks[k as int])));
            p.lemma_flatten_push(enc(chunks[k as int]));
        }
        k += 1;
    }
    assert(chunks.subrange(0, k as int) =~= chunks);
    out
}

/// Turns visible text back into bytes.
fn unmap_exec(s: &[u8]) -> (r: Vec<u8>)
    ensures
        r@ == unmap(s@),
{
    let mut r: Vec<u8> = Vec::new();
    let mut i: usize = 0;
    assert(s@.subrange(0, s@.len() as int) =~= s@);
    while i < s.len()
        invariant
            i <= s.len(),
            unmap(s@) == r@ + unmap(s@.subrange(i as int, s@.len() as int)),
        decreases s.len() - i,
    {
        let ghost rest = s@.subrange(i as int, s@.len() as int);
        if i + 1 < s.len() {
            let pair = slice_subrange(s, i, i + 2);
            assert(pair@ =~= rest.subrange(0, 2));
            match to_byte(pair) {
                Some(b) => {
                    r.push(b);
                    assert(rest.subrange(2, rest.len() as int) =~= s@.subrange(i + 2, s@.len() as int));
                    assert(r@ + unmap(s@.subrange(i + 2, s@.len() as int)) =~= r@.drop_last() + (seq![b] + unmap(rest.subrange(2, rest.len() as int))));
                    i += 2;
                    continue;
                },
                None => {},
            }
        }
        r.push(s[i]);
        assert(rest.subrange(1, rest.len() as int) =~= s@.subrange(i + 1, s@.len() as int));
        assert(r@ + unmap(s@.subrange(i + 1, s@.len() as int)) =~= r@.drop_last() + (seq![s@[i as int]] + unmap(rest.subrange(1, rest.len() as int))));
        i += 1;
    }
    assert(s@.subrange(i as int, s@.len() as int) =~= Seq::<u8>::empty());
    assert(r@ + unmap(Seq::<u8>::empty()) =~= r@);
    r
}

/// Decodes token ids into bytes; ids that the vocabulary lacks are skipped.
pub fn decode(ids: &[u32], vocab: &Vocabulary) -> (r: Vec<u8>)
    ensures
        r@ == decode_ids(vocab@, ids@),
{
    let mut text: Vec<u8> = Vec::new();
    let mut k: usize = 0;
    while k < ids.len()
        invariant
            k <= ids.len(),
            text@ == id_symbols(vocab@, ids@.subrange(0, k as int)).flatten(),
        decreases ids.len() - k,
    {
        let ghost before = text@;
        let found = vocab.append_symbol(ids[k], &mut text);
        proof {
            let p = id_symbols(vocab@, ids@.subrange(0, k as int));
            let sym = id_symbols(vocab@, ids@)[k as int];
            assert(id_symbols(vocab@, ids@.subrange(0, k + 1)) =~= p.push(sym));
            p.lemma_flatten_push(sym);
            if !found {
                assert(text@ =~= before + sym);
            }
        }
        k += 1;
    }
    assert(ids@.subrange(0, k as int) =~= ids@);
    unmap_exec(text.as_slice())
}

/// Ids of known symbols spell those symbols again.
proof fn lemma_ids_spell(v: Seq<(Seq<u8>, u32)>, syms: Seq<Seq<u8>>)
    requires
        values_unique(v),
        all_known(v, syms),
    ensures
        id_symbols(v, ids_of(v, syms)) == syms,
{
    assert forall|i: int| 0 <= i < syms.len() implies #[trigger] id_symbols(v, ids_of(v, syms))[i] == syms[i] by {
        assert(find_key(v, syms[i]) is Some);
        lemma_find_value_of_key(v, syms[i], find_key(v, syms[i]).unwrap());
    }
    assert(id_symbols(v, ids_of(v, syms)) =~= syms);
}

/// The ids of a chunk spell its visible symbols.
proof fn lemma_chunk_spelling(v: Seq<(Seq<u8>, u32)>, m: Seq<(Seq<u8>, u32)>, c: Seq<u8>)
    requires
        vocabulary_wf(v),
    ensures
        id_symbols(v, encode_chunk(v, m, c)).flatten() == symbols_of(c).flatten(),
{
    let init = symbols_of(c);
    match find_key(v, init.flatten()) {
        Some(id) => {
            lemma_find_value_of_key(v, init.flatten(), id);
            assert(id_symbols(v, seq![id]) =~= seq![init.flatten()]);
            seq![init.flatten()].lemma_flatten_one_element();
        },
        None => {
            let merged = bpe(m, init);
            if all_known(v, merged) {
                lemma_ids_spell(v, merged);
                lemma_bpe_flatten(m, init);
            } else {
                assert forall|k: int| 0 <= k < init.len() implies find_key(v, #[trigger] init[k]) is Some by {
                    assert(init[k] == visible_utf8(c[k]));
                }
                lemma_ids_spell(v, init);
            }
        },
    }
}

/// The ids of a run of chunks spell the visible symbols of their bytes.
proof fn lemma_chunks_spelling(v: Seq<(Seq<u8>, u32)>, m: Seq<(Seq<u8>, u32)>, cs: Seq<Seq<u8>>)
    requires
        vocabulary_wf(v),
    ensures
        id_symbols(v, cs.map_values(|c: Seq<u8>| encode_chunk(v, m, c)).flatten()).flatten()
            == symbols_of(cs.flatten()).flatten(),
    decreases cs.len(),
{
    let enc = |c: Seq<u8>| encode_chunk(v, m, c);
    if cs.len() == 0 {
        assert(cs.map_values(enc) =~= Seq::<Seq<u32>>::empty());
        assert(id_symbols(v, Seq::<u32>::empty()) =~= Seq::<Seq<u8>>::empty());
        assert(symbols_of(Seq::<u8>::empty()) =~= Seq::<Seq<u8>>::empty());
    } else {
        let p = cs.drop_last();
        let c = cs.last();
        lemma_chunks_spelling(v, m, p);
        lemma_chunk_spelling(v, m, c);
        assert(cs =~= p.push(c));
        assert(cs.map_values(enc) =~= p.map_values(enc).push(enc(c)));
        p.map_values(enc).lemma_flatten_push(enc(c));
        let a = p.map_values(enc).flatten();
        let b = enc(c);
        assert(id_symbols(v, a + b) =~= id_symbols(v, a) + id_symbols(v, b));
        vstd::seq_lib::lemma_flatten_concat(id_symbols(v, a), id_symbols(v, b));
        p.lemma_flatten_push(c);
        assert(symbols_of(p.flatten() + c) =~= symbols_of(p.flatten()) + symbols_of(c));
        vstd::seq_lib::lemma_flatten_concat(symbols_of(p.flatten()), symbols_of(c));
    }
}

/// Unmapping the visible symbols of some bytes gives those bytes.
proof fn lemma_unmap_symbols(s: Seq<u8>)
    ensures
        unmap(symbols_of(s).flatten()) == s,
    decreases s.len(),
{
    if s.len() == 0 {
        assert(symbols_of(s) =~= Seq::<Seq<u8>>::empty());
    } else {
        let rest = s.subrange(1, s.len() as int);
        lemma_unmap_symbols(rest);
        let x = visible_utf8(s[0]);
        assert(symbols_of(s) =~= seq![x] + symbols_of(rest));
        lemma_flatten_cons(x, symbols_of(rest));
        let r = symbols_of(rest).flatten();
        let t = x + r;
        lemma_decode_visible(x, s[0]);
        if x.len() == 2 {
            assert(t.subrange(0, 2) =~= x);
            assert(t.subrange(2, t.len() as int) =~= r);
        } else {
            assert(x.len() == 1);
            assert(t.subrange(1, t.len() as int) =~= r);
            if t.len() >= 2 {
                assert(!crate::visible::is_visible_lead(t[0]));
            }
        }
        assert(s =~= seq![s[0]] + rest);
    }
}

/// The positions of the ids that the vocabulary lacks, in order.
pub open spec fn unknown_positions(v: Seq<(Seq<u8>, u32)>, ids: Seq<u32>) -> Seq<int>
    decreases ids.len(),
{
    if ids.len() == 0 {
        seq![]
    } else {
        let rest = unknown_positions(v, ids.drop_last());
        if find_value(v, ids.last()) is None {
            rest.push(ids.len() - 1)
        } else {
            rest
        }
    }
}

/// The positions of the ids that `decode` skips because the vocabulary
/// lacks them.
pub fn unknown_ids(ids: &[u32], vocab: &Vocabulary) -> (r: Vec<usize>)
    ensures
        r@.map_values(|i: usize| i as int) == unknown_positions(vocab@, ids@),
{
    let mut r: Vec<usize> = Vec::new();
    let mut k: usize = 0;
    let mut scratch: Vec<u8> = Vec::new();
    while k < ids.len()
        invariant
            k <= ids.len(),
            r@.map_values(|i: usize| i as int) == unknown_positions(vocab@, ids@.subrange(0, k as int)),
        decreases ids.len() - k,
    {
        assert(ids@.subrange(0, k + 1).drop_last() =~= ids@.subrange(0, k as int));
        if !vocab.append_symbol(ids[k], &mut scratch) {
            r.push(k);
            assert(r@.map_values(|i: usize| i as int) =~= unknown_positions(vocab@, ids@.subrange(0, k as int)).push(k as int));
        }
        k += 1;
    }
    assert(ids@.subrange(0, k as int) =~= ids@);
    r
}

/// Decoding what `encode` gives returns the input, for every byte string.
pub proof fn lemma_round_trip(v: Seq<(Seq<u8>, u32)>, m: Seq<(Seq<u8>, u32)>, s: Seq<u8>)
    requires
        vocabulary_wf(v),
    ensures
        decode_ids(v, encode_text(v, m, s)) == s,
{
    let t = pretoken_spans(s);
    match crate::pretoken::regex_find_all(crate::pretoken::PRETOKEN_PATTERN@, s) {
        Some(spans) => lemma_tile_spans(s.len() as int, spans, 0),
        None => lemma_tile_spans(s.len() as int, seq![], 0),
    }
    lemma_chunks_flatten(s, t, 0, s.len() as int);
    assert(s.subrange(0, s.len() as int) =~= s);
    lemma_chunks_spelling(v, m, chunks_of(s, t));
    lemma_unmap_symbols(s);
}

} // verus!
