//! The byte-pair merge engine: repeatedly merge the adjacent pair of lowest
//! rank, every non-overlapping occurrence at once, until none has a rank.
use vstd::prelude::*;
use crate::table::{bytes_eq, find_key, MergeTable};

verus! {

/// A symbol sequence as byte strings.
pub open spec fn symbols_view(s: Seq<Vec<u8>>) -> Seq<Seq<u8>> {
    s.map_values(|v: Vec<u8>| v@)
}

/// The rank of merging symbol `i` with symbol `i + 1`.
pub open spec fn pair_rank(m: Seq<(Seq<u8>, u32)>, s: Seq<Seq<u8>>, i: int) -> Option<u32> {
    find_key(m, s[i] + s[i + 1])
}

/// Among the first `n` adjacent pairs, the first one of lowest rank.
pub open spec fn best_pair(m: Seq<(Seq<u8>, u32)>, s: Seq<Seq<u8>>, n: int) -> Option<int>
    decreases n,
{
    if n <= 0 {
        None
    } else {
        let b = best_pair(m, s, n - 1);
        match pair_rank(m, s, n - 1) {
            None => b,
            Some(r) => match b {
                None => Some(n - 1),
                Some(j) => if r < pair_rank(m, s, j).unwrap() {
                    Some(n - 1)
                } else {
                    Some(j)
                },
            },
        }
    }
}

/// Replaces, left to right, each occurrence of `a` followed by `b` with
/// their concatenation; a merged symbol does not merge again in this pass.
pub open spec fn merge_pass(s: Seq<Seq<u8>>, a: Seq<u8>, b: Seq<u8>) -> Seq<Seq<u8>>
    decreases s.len(),
{
    if s.len() < 2 {
        s
    } else if s[0] == a && s[1] == b {
        seq![a + b] + merge_pass(s.subrange(2, s.len() as int), a, b)
    } else {
        seq![s[0]] + merge_pass(s.subrange(1, s.len() as int), a, b)
    }
}

/// The merge loop: while some adjacent pair has a rank, merge every
/// occurrence of the best one.
pub open spec fn bpe(m: Seq<(Seq<u8>, u32)>, s: Seq<Seq<u8>>) -> Seq<Seq<u8>>
    decreases s.len(),
{
    if s.len() < 2 {
        s
    } else {
        match best_pair(m, s, s.len() - 1) {
            None => s,
            Some(i) => {
                let t = merge_pass(s, s[i], s[i + 1]);
                if t.len() < s.len() {
                    bpe(m, t)
                } else {
                    s
                }
            },
        }
    }
}

/// The pair that `best_pair` picks exists and has a rank.
pub proof fn lemma_best_pair(m: Seq<(Seq<u8>, u32)>, s: Seq<Seq<u8>>, n: int)
    ensures
        best_pair(m, s, n) matches Some(i) ==> 0 <= i < n && pair_rank(m, s, i) is Some,
        best_pair(m, s, n) is None ==> forall|k: int| 0 <= k < n ==> pair_rank(m, s, k) is None,
    decreases n,
{
    if n > 0 {
        lemma_best_pair(m, s, n - 1);
    }
}

/// A pass never lengthens the sequence, and shortens it where the pair occurs.
pub proof fn lemma_merge_pass_len(s: Seq<Seq<u8>>, a: Seq<u8>, b: Seq<u8>, i: int)
    ensures
        merge_pass(s, a, b).len() <= s.len(),
        0 <= i < s.len() - 1 && s[i] == a && s[i + 1] == b ==> merge_pass(s, a, b).len() < s.len(),
    decreases s.len(),
{
    if s.len() >= 2 {
        if s[0] == a && s[1] == b {
            lemma_merge_pass_len(s.subrange(2, s.len() as int), a, b, i - 2);
        } else {
            lemma_merge_pass_len(s.subrange(1, s.len() as int), a, b, i - 1);
        }
    }
}

/// A pass keeps the bytes of the sequence.
pub proof fn lemma_merge_pass_flatten(s: Seq<Seq<u8>>, a: Seq<u8>, b: Seq<u8>)
    ensures
        merge_pass(s, a, b).flatten() == s.flatten(),
    decreases s.len(),
{
    if s.len() >= 2 {
        if s[0] == a && s[1] == b {
            let rest = s.subrange(2, s.len() as int);
            lemma_merge_pass_flatten(rest, a, b);
            lemma_flatten_cons(a + b, merge_pass(rest, a, b));
            lemma_flatten_cons(s[1], rest);
            assert(s.drop_first() =~= seq![s[1]] + rest);
            lemma_flatten_cons(s[0], s.drop_first());
            assert(s =~= seq![s[0]] + s.drop_first());
            assert(a + b + rest.flatten() =~= a + (b + rest.flatten()));
        } else {
            let rest = s.subrange(1, s.len() as int);
            lemma_merge_pass_flatten(rest, a, b);
            lemma_flatten_cons(s[0], merge_pass(rest, a, b));
            lemma_flatten_cons(s[0], rest);
            assert(s =~= seq![s[0]] + rest);
        }
    }
}

/// Flattening a sequence with a symbol in front.
pub proof fn lemma_flatten_cons(x: Seq<u8>, rest: Seq<Seq<u8>>)
    ensures
        (seq![x] + rest).flatten() == x + rest.flatten(),
{
    assert((seq![x] + rest).drop_first() =~= rest);
}

/// Every round of the merge loop strictly shortens the symbol sequence.
pub proof fn lemma_merge_round_shrinks(m: Seq<(Seq<u8>, u32)>, s: Seq<Seq<u8>>)
    requires
        s.len() >= 2,
        best_pair(m, s, s.len() - 1) is Some,
    ensures
        ({
            let i = best_pair(m, s, s.len() - 1).unwrap();
            merge_pass(s, s[i], s[i + 1]).len() < s.len()
        }),
{
    let i = best_pair(m, s, s.len() - 1).unwrap();
    lemma_best_pair(m, s, s.len() - 1);
    lemma_merge_pass_len(s, s[i], s[i + 1], i);
}

/// The merge loop keeps the bytes of the sequence.
pub proof fn lemma_bpe_flatten(m: Seq<(Seq<u8>, u32)>, s: Seq<Seq<u8>>)
    ensures
        bpe(m, s).flatten() == s.flatten(),
    decreases s.len(),
{
    if s.len() >= 2 {
        if let Some(i) = best_pair(m, s, s.len() - 1) {
            let t = merge_pass(s, s[i], s[i + 1]);
            if t.len() < s.len() {
                lemma_merge_pass_flatten(s, s[i], s[i + 1]);
                lemma_bpe_flatten(m, t);
            }
        }
    }
}

/// `a` followed by `b`, as a new vector.
fn concat_bytes(a: &[u8], b: &[u8]) -> (r: Vec<u8>)
    requires
        a.len() + b.len() <= usize::MAX,
    ensures
        r@ == a@ + b@,
{
    let mut r: Vec<u8> = Vec::with_capacity(a.len() + b.len());
    let mut i: usize = 0;
    while i < a.len()
        invariant
            i <= a.len(),
            r@ == a@.subrange(0, i as int),
        decreases a.len() - i,
    {
        r.push(a[i]);
        assert(a@.subrange(0, i + 1) =~= a@.subrange(0, i as int).push(a@[i as int]));
        i += 1;
    }
    let mut j: usize = 0;
    while j < b.len()
        invariant
            i == a.len(),
            j <= b.len(),
            r@ == a@ + b@.subrange(0, j as int),
        decreases b.len() - j,
    {
        r.push(b[j]);
        assert(b@.subrange(0, j + 1) =~= b@.subrange(0, j as int).push(b@[j as int]));
        j += 1;
    }
    assert(b@ =~= b@.subrange(0, j as int));
    r
}

/// A copy of `v`.
fn copy_bytes(v: &Vec<u8>) -> (r: Vec<u8>)
    ensures
        r@ == v@,
{
    let r = v.clone();
    assert(r@ =~= v@);
    r
}

/// The index of the first adjacent pair of lowest rank, if any pair has one.
fn find_best_pair(merges: &MergeTable, syms: &Vec<Vec<u8>>) -> (r: Option<usize>)
    requires
        syms.len() >= 1,
    ensures
        r matches Some(i) ==> best_pair(merges@, symbols_view(syms@), syms.len() - 1) == Some(i as int),
        r is None ==> best_pair(merges@, symbols_view(syms@), syms.len() - 1) is None,
{
    let ghost sv = symbols_view(syms@);
    let mut best: Option<usize> = None;
    let mut best_rank: u32 = 0;
    let mut i: usize = 0;
    while i + 1 < syms.len()
        invariant
            syms.len() >= 1,
            i <= syms.len() - 1,
            sv == symbols_view(syms@),
            best matches Some(j) ==> best_pair(merges@, sv, i as int) == Some(j as int)
                && pair_rank(merges@, sv, j as int) == Some(best_rank),
            best is None ==> best_pair(merges@, sv, i as int) is None,
        decreases syms.len() - i,
    {
        let r = merges.rank(syms[i].as_slice(), syms[i + 1].as_slice());
        assert(pair_rank(merges@, sv, i as int) == r);
        match r {
            Some(rank) => {
                match best {
                    None => {
                        best = Some(i);
                        best_rank = rank;
                    },
                    Some(_) => {
                        if rank < best_rank {
                            best = Some(i);
                            best_rank = rank;
                        }
                    },
                }
            },
            None => {},
        }
        i += 1;
    }
    best
}

/// One pass: merges every non-overlapping occurrence of `a` followed by `b`.
fn merge_pass_exec(syms: &Vec<Vec<u8>>, a: &Vec<u8>, b: &Vec<u8>) -> (r: Vec<Vec<u8>>)
    requires
        a.len() + b.len() <= usize::MAX,
    ensures
        symbols_view(r@) == merge_pass(symbols_view(syms@), a@, b@),
{
    let ghost sv = symbols_view(syms@);
    let mut out: Vec<Vec<u8>> = Vec::new();
    let mut i: usize = 0;
    assert(sv.subrange(0, sv.len() as int) =~= sv);
    assert(symbols_view(out@) + merge_pass(sv, a@, b@) =~= merge_pass(sv, a@, b@));
    while i < syms.len()
        invariant
            i <= syms.len(),
            a.len() + b.len() <= usize::MAX,
            sv == symbols_view(syms@),
            merge_pass(sv, a@, b@) == symbols_view(out@) + merge_pass(
                sv.subrange(i as int, sv.len() as int),
                a@,
                b@,
            ),
        decreases syms.len() - i,
    {
        let ghost rest = sv.subrange(i as int, sv.len() as int);
        if i + 1 < syms.len() && bytes_eq(syms[i].as_slice(), a.as_slice()) && bytes_eq(
            syms[i + 1].as_slice(),
            b.as_slice(),
        ) {
            let m = concat_bytes(a.as_slice(), b.as_slice());
            proof {
                assert(rest.subrange(2, rest.len() as int) =~= sv.subrange(i + 2, sv.len() as int));
            }
            out.push(m);
            proof {
                assert(symbols_view(out@) =~= symbols_view(out@.drop_last()) + seq![a@ + b@]);
            }
            i += 2;
        } else {
            let c = copy_bytes(&syms[i]);
            proof {
                if rest.len() >= 2 {
                    assert(rest.subrange(1, rest.len() as int) =~= sv.subrange(i + 1, sv.len() as int));
                } else {
                    assert(rest =~= seq![sv[i as int]]);
                    assert(sv.subrange(i + 1, sv.len() as int) =~= Seq::<Seq<u8>>::empty());
                    assert(seq![sv[i as int]] + Seq::<Seq<u8>>::empty() =~= seq![sv[i as int]]);
                }
            }
            out.push(c);
            proof {
                assert(symbols_view(out@) =~= symbols_view(out@.drop_last()) + seq![sv[i as int]]);
            }
            i += 1;
        }
        assert(symbols_view(out@) + merge_pass(sv.subrange(i as int, sv.len() as int), a@, b@)
            == merge_pass(sv, a@, b@));
    }
    assert(sv.subrange(i as int, sv.len() as int) =~= Seq::<Seq<u8>>::empty());
    out
}

/// Two adjacent symbols together are no longer than the whole sequence.
proof fn lemma_flatten_pair(s: Seq<Seq<u8>>, i: int)
    requires
        0 <= i < s.len() - 1,
    ensures
        s[i].len() + s[i + 1].len() <= s.flatten().len(),
    decreases s.len(),
{
    lemma_flatten_cons(s[0], s.drop_first());
    assert(s =~= seq![s[0]] + s.drop_first());
    if i == 0 {
        lemma_flatten_cons(s[1], s.drop_first().drop_first());
        assert(s.drop_first() =~= seq![s[1]] + s.drop_first().drop_first());
    } else {
        lemma_flatten_pair(s.drop_first(), i - 1);
    }
}

/// The merge state of one pretoken chunk: its current symbols.
pub struct BytePairEncoder {
    symbols: Vec<Vec<u8>>,
}

impl View for BytePairEncoder {
    type V = Seq<Seq<u8>>;

    closed spec fn view(&self) -> Seq<Seq<u8>> {
        symbols_view(self.symbols@)
    }
}

impl BytePairEncoder {
    /// The bytes of all symbols fit in memory addresses.
    pub closed spec fn wf(&self) -> bool {
        self@.flatten().len() <= usize::MAX
    }

    /// Starts from the given symbols, usually one visible scalar each.
    pub fn new(grapheme: Vec<Vec<u8>>) -> (r: BytePairEncoder)
        requires
            symbols_view(grapheme@).flatten().len() <= usize::MAX,
        ensures
            r@ == symbols_view(grapheme@),
            r.wf(),
    {
        BytePairEncoder { symbols: grapheme }
    }

    /// The current symbols.
    pub fn symbols(&self) -> (r: &Vec<Vec<u8>>)
        ensures
            symbols_view(r@) == self@,
    {
        &self.symbols
    }

    /// One round: merges every occurrence of the best-ranked adjacent pair.
    /// Returns whether there was such a pair.
    pub fn step(&mut self, merges: &MergeTable) -> (merged: bool)
        requires
            old(self).wf(),
        ensures
            final(self).wf(),
            final(self)@.flatten() == old(self)@.flatten(),
            bpe(merges@, final(self)@) == bpe(merges@, old(self)@),
            merged ==> final(self)@.len() < old(self)@.len(),
            !merged ==> final(self)@ == old(self)@ && bpe(merges@, old(self)@) == old(self)@,
            merged == (old(self)@.len() >= 2 && best_pair(merges@, old(self)@, old(self)@.len() - 1) is Some),
            merged ==> ({
                let s = old(self)@;
                let i = best_pair(merges@, s, s.len() - 1).unwrap();
                final(self)@ == merge_pass(s, s[i], s[i + 1])
            }),
    {
        if self.symbols.len() < 2 {
            return false;
        }
        let ghost s = self@;
        match find_best_pair(merges, &self.symbols) {
            None => false,
            Some(i) => {
                proof {
                    lemma_best_pair(merges@, s, s.len() - 1);
                    lemma_flatten_pair(s, i as int);
                    lemma_merge_round_shrinks(merges@, s);
                    lemma_merge_pass_flatten(s, s[i as int], s[i + 1]);
                }
                let next = merge_pass_exec(&self.symbols, &self.symbols[i], &self.symbols[i + 1]);
                self.symbols = next;
                true
            },
        }
    }

    /// Runs the merge loop to its end and returns the final symbols.
    pub fn merge_all(self, merges: &MergeTable) -> (r: Vec<Vec<u8>>)
        requires
            self.wf(),
        ensures
            symbols_view(r@) == bpe(merges@, self@),
    {
        let mut enc = self;
        let mut going = true;
        while going
            invariant
                enc.wf(),
                bpe(merges@, enc@) == bpe(merges@, self@),
                !going ==> bpe(merges@, enc@) == enc@,
            decreases enc@.len() + if going { 1int } else { 0int },
        {
            going = enc.step(merges);
        }
        enc.symbols
    }
}

} // verus!
