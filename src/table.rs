//! Vocabulary and merge tables: byte strings keyed to numbers.
use vstd::prelude::*;
use crate::visible::visible_utf8;

verus! {

/// The value of the first entry whose key is `k`.
pub open spec fn find_key(e: Seq<(Seq<u8>, u32)>, k: Seq<u8>) -> Option<u32>
    decreases e.len(),
{
    if e.len() == 0 {
        None
    } else {
        match find_key(e.drop_last(), k) {
            Some(v) => Some(v),
            None => if e.last().0 == k {
                Some(e.last().1)
            } else {
                None
            },
        }
    }
}

/// The key of the first entry whose value is `v`.
pub open spec fn find_value(e: Seq<(Seq<u8>, u32)>, v: u32) -> Option<Seq<u8>>
    decreases e.len(),
{
    if e.len() == 0 {
        None
    } else {
        match find_value(e.drop_last(), v) {
            Some(k) => Some(k),
            None => if e.last().1 == v {
                Some(e.last().0)
            } else {
                None
            },
        }
    }
}

/// No two entries share a value.
pub open spec fn values_unique(e: Seq<(Seq<u8>, u32)>) -> bool {
    forall|i: int, j: int| 0 <= i < j < e.len() ==> #[trigger] e[i].1 != #[trigger] e[j].1
}

/// Whether `a == b`, byte for byte.
pub fn bytes_eq(a: &[u8], b: &[u8]) -> (r: bool)
    ensures
        r == (a@ == b@),
{
    if a.len() != b.len() {
        return false;
    }
    let mut i: usize = 0;
    while i < a.len()
        invariant
            a.len() == b.len(),
            i <= a.len(),
            a@.subrange(0, i as int) == b@.subrange(0, i as int),
        decreases a.len() - i,
    {
        if a[i] != b[i] {
            assert(a@[i as int] != b@[i as int]);
            return false;
        }
        assert(a@.subrange(0, i + 1) =~= a@.subrange(0, i as int).push(a@[i as int]));
        assert(b@.subrange(0, i + 1) =~= b@.subrange(0, i as int).push(b@[i as int]));
        i += 1;
    }
    assert(a@ =~= a@.subrange(0, i as int));
    assert(b@ =~= b@.subrange(0, i as int));
    true
}

/// Whether `k` is `left` followed by `right`.
pub fn is_concat(k: &[u8], left: &[u8], right: &[u8]) -> (r: bool)
    ensures
        r == (k@ == left@ + right@),
{
    if k.len() < left.len() || k.len() - left.len() != right.len() {
        assert(k@.len() != (left@ + right@).len());
        return false;
    }
    let mut i: usize = 0;
    while i < k.len()
        invariant
            k.len() == left.len() + right.len(),
            i <= k.len(),
            k@.subrange(0, i as int) == (left@ + right@).subrange(0, i as int),
        decreases k.len() - i,
    {
        let c = if i < left.len() {
            left[i]
        } else {
            right[i - left.len()]
        };
        assert(c == (left@ + right@)[i as int]);
        if k[i] != c {
            assert(k@[i as int] != (left@ + right@)[i as int]);
            return false;
        }
        assert(k@.subrange(0, i + 1) =~= k@.subrange(0, i as int).push(k@[i as int]));
        assert((left@ + right@).subrange(0, i + 1) =~= (left@ + right@).subrange(0, i as int).push(c));
        i += 1;
    }
    assert(k@ =~= k@.subrange(0, i as int));
    assert(left@ + right@ =~= (left@ + right@).subrange(0, i as int));
    true
}

/// Entries as byte strings and their numbers, in the order given.
pub open spec fn entries_view(e: Seq<(Vec<u8>, u32)>) -> Seq<(Seq<u8>, u32)> {
    e.map_values(|p: (Vec<u8>, u32)| (p.0@, p.1))
}

proof fn lemma_view_prefix(e: Seq<(Vec<u8>, u32)>, i: int)
    requires
        0 <= i < e.len(),
    ensures
        entries_view(e.subrange(0, i + 1)).drop_last() == entries_view(e.subrange(0, i)),
        entries_view(e.subrange(0, i + 1)).last() == (e[i].0@, e[i].1),
{
    assert(entries_view(e.subrange(0, i + 1)).drop_last() =~= entries_view(e.subrange(0, i)));
}

/// Index of the first entry keyed `k` and its value.
fn search_key(e: &Vec<(Vec<u8>, u32)>, k: &[u8]) -> (r: Option<u32>)
    ensures
        r == find_key(entries_view(e@), k@),
{
    let mut i: usize = 0;
    while i < e.len()
        invariant
            i <= e.len(),
            find_key(entries_view(e@.subrange(0, i as int)), k@) is None,
        decreases e.len() - i,
    {
        proof {
            lemma_view_prefix(e@, i as int);
        }
        if bytes_eq(e[i].0.as_slice(), k) {
            proof {
                lemma_find_key_prefix(entries_view(e@), k@, i as int + 1);
                assert(entries_view(e@).subrange(0, i + 1) =~= entries_view(e@.subrange(0, i + 1)));
            }
            return Some(e[i].1);
        }
        i += 1;
    }
    proof {
        assert(e@.subrange(0, i as int) =~= e@);
    }
    None
}

/// Looking a key up in a prefix that holds it gives the same as in the whole.
pub proof fn lemma_find_key_prefix(e: Seq<(Seq<u8>, u32)>, k: Seq<u8>, n: int)
    requires
        0 <= n <= e.len(),
        find_key(e.subrange(0, n), k) is Some,
    ensures
        find_key(e, k) == find_key(e.subrange(0, n), k),
    decreases e.len() - n,
{
    if n < e.len() {
        assert(e.subrange(0, n + 1).drop_last() =~= e.subrange(0, n));
        lemma_find_key_prefix(e, k, n + 1);
    } else {
        assert(e.subrange(0, n) =~= e);
    }
}

/// The value of a key is found again from the value, where values are unique.
pub proof fn lemma_find_value_of_key(e: Seq<(Seq<u8>, u32)>, k: Seq<u8>, v: u32)
    requires
        values_unique(e),
        find_key(e, k) == Some(v),
    ensures
        find_value(e, v) == Some(k),
    decreases e.len(),
{
    let p = e.drop_last();
    assert(values_unique(p));
    if find_key(p, k) is Some {
        lemma_find_value_of_key(p, k, v);
    } else {
        if let Some(k2) = find_value(p, v) {
            let i = lemma_find_value_index(p, v);
            assert(e[i].1 == e[e.len() - 1].1);
        }
    }
}

/// A value that is found stands at some index.
pub proof fn lemma_find_value_index(e: Seq<(Seq<u8>, u32)>, v: u32) -> (i: int)
    requires
        find_value(e, v) is Some,
    ensures
        0 <= i < e.len(),
        e[i].1 == v,
        find_value(e, v) == Some(e[i].0),
    decreases e.len(),
{
    let p = e.drop_last();
    if find_value(p, v) is Some {
        lemma_find_value_index(p, v)
    } else {
        e.len() - 1
    }
}

/// Looking a value up in a prefix that holds it gives the same as in the whole.
pub proof fn lemma_find_value_prefix(e: Seq<(Seq<u8>, u32)>, v: u32, n: int)
    requires
        0 <= n <= e.len(),
        find_value(e.subrange(0, n), v) is Some,
    ensures
        find_value(e, v) == find_value(e.subrange(0, n), v),
    decreases e.len() - n,
{
    if n < e.len() {
        assert(e.subrange(0, n + 1).drop_last() =~= e.subrange(0, n));
        lemma_find_value_prefix(e, v, n + 1);
    } else {
        assert(e.subrange(0, n) =~= e);
    }
}

/// Index of the first entry whose value is `v`.
fn search_value(e: &Vec<(Vec<u8>, u32)>, v: u32) -> (r: Option<usize>)
    ensures
        match r {
            Some(i) => i < e.len() && find_value(entries_view(e@), v) == Some(e@[i as int].0@),
            None => find_value(entries_view(e@), v) is None,
        },
{
    let mut i: usize = 0;
    while i < e.len()
        invariant
            i <= e.len(),
            find_value(entries_view(e@.subrange(0, i as int)), v) is None,
        decreases e.len() - i,
    {
        proof {
            lemma_view_prefix(e@, i as int);
        }
        if e[i].1 == v {
            proof {
                lemma_find_value_prefix(entries_view(e@), v, i as int + 1);
                assert(entries_view(e@).subrange(0, i + 1) =~= entries_view(e@.subrange(0, i + 1)));
            }
            return Some(i);
        }
        i += 1;
    }
    proof {
        assert(e@.subrange(0, i as int) =~= e@);
    }
    None
}

/// A vocabulary is usable when its ids are unique and every visible scalar
/// is a key of its own.
pub open spec fn vocabulary_wf(e: Seq<(Seq<u8>, u32)>) -> bool {
    &&& values_unique(e)
    &&& forall|b: u8| #[trigger] find_key(e, visible_utf8(b)) is Some
}

/// Why a list of entries makes no vocabulary.
#[derive(Debug, Clone, Copy, PartialEq, Eq)]
pub enum VocabError {
    /// Two entries carry this id.
    DuplicateId(u32),
    /// The visible scalar of this byte is no key.
    MissingByte(u8),
}

/// A vocabulary: token strings, in the visible alphabet, with their ids.
/// The first entry of a key is the one that counts.
pub struct Vocabulary {
    entries: Vec<(Vec<u8>, u32)>,
}

impl View for Vocabulary {
    type V = Seq<(Seq<u8>, u32)>;

    closed spec fn view(&self) -> Seq<(Seq<u8>, u32)> {
        entries_view(self.entries@)
    }
}

impl Vocabulary {
    #[verifier::type_invariant]
    spec fn inv(self) -> bool {
        vocabulary_wf(entries_view(self.entries@))
    }

    /// Checks the entries and builds a vocabulary from them.
    pub fn new(entries: Vec<(Vec<u8>, u32)>) -> (r: Result<Vocabulary, VocabError>)
        ensures
            r is Ok <==> vocabulary_wf(entries_view(entries@)),
            match r {
                Ok(v) => v@ == entries_view(entries@),
                Err(VocabError::DuplicateId(id)) => exists|i: int, j: int|
                    0 <= i < j < entries@.len() && entries@[i].1 == id && entries@[j].1 == id,
                Err(VocabError::MissingByte(b)) => values_unique(entries_view(entries@))
                    && find_key(entries_view(entries@), visible_utf8(b)) is None,
            },
    {
        let ghost ev = entries_view(entries@);
        let mut i: usize = 0;
        while i < entries.len()
            invariant
                i <= entries.len(),
                ev == entries_view(entries@),
                values_unique(ev.subrange(0, i as int)),
            decreases entries.len() - i,
        {
            let mut j: usize = 0;
            while j < i
                invariant
                    j <= i < entries.len(),
                    ev == entries_view(entries@),
                    forall|k: int| 0 <= k < j ==> entries@[k].1 != entries@[i as int].1,
                decreases i - j,
            {
                if entries[j].1 == entries[i].1 {
                    let id = entries[i].1;
                    proof {
                        assert(ev[j as int].1 == ev[i as int].1);
                        assert(!values_unique(ev));
                    }
                    return Err(VocabError::DuplicateId(id));
                }
                j += 1;
            }
            proof {
                assert forall|a: int, c: int|
                    0 <= a < c < i + 1 implies #[trigger] ev.subrange(0, i + 1)[a].1
                        != #[trigger] ev.subrange(0, i + 1)[c].1 by {
                    if c < i {
                        assert(ev.subrange(0, i as int)[a].1 != ev.subrange(0, i as int)[c].1);
                    }
                }
            }
            i += 1;
        }
        assert(ev.subrange(0, i as int) =~= ev);
        let mut b: u16 = 0;
        while b < 256
            invariant
                b <= 256,
                ev == entries_view(entries@),
                values_unique(ev),
                forall|c: u8| (c as u16) < b ==> #[trigger] find_key(ev, visible_utf8(c)) is Some,
            decreases 256 - b,
        {
            let sym = crate::visible::to_visible(b as u8);
            if search_key(&entries, sym.as_slice()).is_none() {
                return Err(VocabError::MissingByte(b as u8));
            }
            b += 1;
        }
        assert forall|c: u8| #[trigger] find_key(ev, visible_utf8(c)) is Some by {
            assert((c as u16) < b);
        }
        Ok(Vocabulary { entries })
    }

    /// Whether the vocabulary is usable; every vocabulary that `new` built is.
    pub open spec fn wf(&self) -> bool {
        vocabulary_wf(self@)
    }

    /// The id of the token spelled `sym`.
    pub fn token_id(&self, sym: &[u8]) -> (r: Option<u32>)
        ensures
            r == find_key(self@, sym@),
            self.wf(),
    {
        proof {
            use_type_invariant(self);
        }
        search_key(&self.entries, sym)
    }

    /// Appends the spelling of token `id` to `out`; returns whether `id` is known.
    pub fn append_symbol(&self, id: u32, out: &mut Vec<u8>) -> (found: bool)
        ensures
            found == find_value(self@, id) is Some,
            found ==> final(out)@ == old(out)@ + find_value(self@, id).unwrap(),
            !found ==> final(out)@ == old(out)@,
    {
        match search_value(&self.entries, id) {
            Some(i) => {
                let sym = self.entries[i].0.as_slice();
                let mut j: usize = 0;
                while j < sym.len()
                    invariant
                        j <= sym.len(),
                        out@ == old(out)@ + sym@.subrange(0, j as int),
                    decreases sym.len() - j,
                {
                    out.push(sym[j]);
                    assert(sym@.subrange(0, j + 1) =~= sym@.subrange(0, j as int).push(sym@[j as int]));
                    j += 1;
                }
                assert(sym@ =~= sym@.subrange(0, j as int));
                true
            },
            None => false,
        }
    }
}

/// The rank that line `i` of a merges file gives its pair: earlier lines
/// get higher numbers.
pub open spec fn line_rank(i: int) -> u32 {
    (TOP_RANK - i) as u32
}

/// The rank of the first line of a merges file.
pub const TOP_RANK: u32 = 50000;

/// Merge ranks: the bytes of two adjacent symbols, concatenated, with the
/// rank of their merge (lower merges first).
pub struct MergeTable {
    entries: Vec<(Vec<u8>, u32)>,
}

impl View for MergeTable {
    type V = Seq<(Seq<u8>, u32)>;

    closed spec fn view(&self) -> Seq<(Seq<u8>, u32)> {
        entries_view(self.entries@)
    }
}

impl MergeTable {
    /// A table of the given pairs and ranks.
    pub fn new(entries: Vec<(Vec<u8>, u32)>) -> (r: MergeTable)
        ensures
            r@ == entries_view(entries@),
    {
        MergeTable { entries }
    }

    /// A table from the lines of a merges file, each the bytes of one merged
    /// pair; line `i` gets rank `TOP_RANK - i`. `None` when there are more
    /// lines than ranks.
    pub fn from_lines(lines: Vec<Vec<u8>>) -> (r: Option<MergeTable>)
        ensures
            r is Some <==> lines@.len() <= TOP_RANK + 1,
            r is Some ==> r.unwrap()@.len() == lines@.len() && forall|i: int|
                0 <= i < lines@.len() ==> #[trigger] r.unwrap()@[i] == (lines@[i]@, line_rank(i)),
    {
        if lines.len() > 50001 {
            return None;
        }
        let mut entries: Vec<(Vec<u8>, u32)> = Vec::new();
        let mut i: usize = 0;
        while i < lines.len()
            invariant
                i <= lines.len() <= TOP_RANK + 1,
                entries@.len() == i,
                forall|k: int| 0 <= k < i ==> #[trigger] entries_view(entries@)[k] == (lines@[k]@, line_rank(k)),
            decreases lines.len() - i,
        {
            let line = lines[i].clone();
            assert(line@ =~= lines@[i as int]@);
            let ghost prev = entries@;
            entries.push((line, TOP_RANK - i as u32));
            assert forall|k: int| 0 <= k < i implies #[trigger] entries_view(entries@)[k] == (lines@[k]@, line_rank(k)) by {
                assert(entries@[k] == prev[k]);
                assert(entries_view(prev)[k] == (lines@[k]@, line_rank(k)));
            }
            assert(entries_view(entries@)[i as int] == (lines@[i as int]@, line_rank(i as int)));
            i += 1;
        }
        Some(MergeTable { entries })
    }

    /// The rank of merging `left` with `right`.
    pub fn rank(&self, left: &[u8], right: &[u8]) -> (r: Option<u32>)
        ensures
            r == find_key(self@, left@ + right@),
    {
        let mut i: usize = 0;
        while i < self.entries.len()
            invariant
                i <= self.entries.len(),
                find_key(entries_view(self.entries@.subrange(0, i as int)), left@ + right@) is None,
            decreases self.entries.len() - i,
        {
            proof {
                lemma_view_prefix(self.entries@, i as int);
            }
            if is_concat(self.entries[i].0.as_slice(), left, right) {
                proof {
                    assert(entries_view(self.entries@.subrange(0, i + 1)).drop_last() == entries_view(self.entries@.subrange(0, i as int)));
                    assert(find_key(entries_view(self.entries@.subrange(0, i + 1)), left@ + right@) == Some(self.entries@[i as int].1));
                    lemma_find_key_prefix(entries_view(self.entries@), left@ + right@, i as int + 1);
                    assert(entries_view(self.entries@).subrange(0, i + 1) =~= entries_view(self.entries@.subrange(0, i + 1)));
                }
                return Some(self.entries[i].1);
            }
            i += 1;
        }
        proof {
            assert(self.entries@.subrange(0, i as int) =~= self.entries@);
        }
        None
    }
}

/// The key-id pairs of a one-line JSON object of token strings to ids, in
/// key order; `None` when the line is no such object.
pub uninterp spec fn json_entries(line: Seq<char>) -> Option<Seq<(Seq<u8>, u32)>>;

/// Relies on `serde_json::from_str` to read one line as a map from token
/// strings to ids; the result depends on the line alone.
#[verifier::external_body]
fn parse_json_line(line: &str) -> (r: Option<Vec<(Vec<u8>, u32)>>)
    ensures
        r is Some == json_entries(line@) is Some,
        r matches Some(v) ==> entries_view(v@) == json_entries(line@).unwrap(),
{
    serde_json::from_str::<std::collections::BTreeMap<String, u32>>(line).ok().map(
        |m| m.into_iter().map(|(k, v)| (k.into_bytes(), v)).collect(),
    )
}

/// The entries of all lines, in order, if every line parses.
pub open spec fn json_lines_entries(lines: Seq<Seq<char>>) -> Option<Seq<(Seq<u8>, u32)>>
    decreases lines.len(),
{
    if lines.len() == 0 {
        Some(seq![])
    } else {
        match (json_lines_entries(lines.drop_last()), json_entries(lines.last())) {
            (Some(a), Some(b)) => Some(a + b),
            _ => None,
        }
    }
}

/// The index of the first line that does not parse.
pub open spec fn first_bad_line(lines: Seq<Seq<char>>, i: int) -> bool {
    0 <= i < lines.len() && json_entries(lines[i]) is None && json_lines_entries(lines.subrange(0, i)) is Some
}

/// Why a vocabulary file could not be loaded.
#[derive(Debug, Clone, Copy, PartialEq, Eq)]
pub enum LoadError {
    /// This line (from 0) is not a JSON object of token strings to ids.
    BadLine(usize),
    /// The entries make no vocabulary.
    Invalid(VocabError),
}

/// The lines of a file as strings.
pub open spec fn lines_view(lines: Seq<String>) -> Seq<Seq<char>> {
    lines.map_values(|l: String| l@)
}

impl Vocabulary {
    /// Builds a vocabulary from the lines of a `.jsonl` file, each a JSON
    /// object of token strings to ids.
    pub fn from_json_lines(lines: &Vec<String>) -> (r: Result<Vocabulary, LoadError>)
        ensures
            match r {
                Ok(v) => json_lines_entries(lines_view(lines@)) == Some(v@),
                Err(LoadError::BadLine(i)) => first_bad_line(lines_view(lines@), i as int),
                Err(LoadError::Invalid(_)) => json_lines_entries(lines_view(lines@)) matches Some(e)
                    && !vocabulary_wf(e),
            },
            json_lines_entries(lines_view(lines@)) matches Some(e) ==> (r is Ok <==> vocabulary_wf(e)),
    {
        let ghost lv = lines_view(lines@);
        let mut entries: Vec<(Vec<u8>, u32)> = Vec::new();
        let mut i: usize = 0;
        while i < lines.len()
            invariant
                i <= lines.len(),
                lv == lines_view(lines@),
                json_lines_entries(lv.subrange(0, i as int)) == Some(entries_view(entries@)),
            decreases lines.len() - i,
        {
            assert(lv.subrange(0, i + 1).drop_last() =~= lv.subrange(0, i as int));
            match parse_json_line(lines[i].as_str()) {
                Some(mut more) => {
                    let ghost before = entries@;
                    entries.append(&mut more);
                    assert(entries_view(entries@) =~= entries_view(before) + json_entries(lv[i as int]).unwrap());
                },
                None => {
                    proof {
                        lemma_bad_prefix(lv, i + 1);
                    }
                    return Err(LoadError::BadLine(i));
                },
            }
            i += 1;
        }
        assert(lv.subrange(0, i as int) =~= lv);
        match Vocabulary::new(entries) {
            Ok(v) => Ok(v),
            Err(e) => Err(LoadError::Invalid(e)),
        }
    }
}

/// A prefix that does not parse spoils the whole file.
proof fn lemma_bad_prefix(lines: Seq<Seq<char>>, n: int)
    requires
        0 <= n <= lines.len(),
        json_lines_entries(lines.subrange(0, n)) is None,
    ensures
        json_lines_entries(lines) is None,
    decreases lines.len() - n,
{
    if n < lines.len() {
        assert(lines.subrange(0, n + 1).drop_last() =~= lines.subrange(0, n));
        lemma_bad_prefix(lines, n + 1);
    } else {
        assert(lines.subrange(0, n) =~= lines);
    }
}

} // verus!
