//! The repeated-slice pass: repeated runs of symbols become references into
//! the slice table.
use crate::binary_writer::BinaryWriter;
use crate::event_stream::{
    ROW_DICT_CAP, starts_with_event, expand, flat, slice_of, symbol_ok, symbols_ok, EventStream, Tables, MAX_EVENTS, MAX_SLICES,
    MAX_SLICE_DICT, MIN_SLICE_LEN,
};
use crate::symbol::{encode_all, lemma_encode_all_len, write_symbols, Symbol, SymbolEncodingSize};
use std::collections::HashMap;
use std::hash::{DefaultHasher, Hasher};
use vstd::prelude::*;
use vstd::std_specs::hash::DefaultHasherAdditionalSpecFns;

verus! {

/// Streams shorter than this are not searched.
pub const MIN_SEARCH_LEN: usize = 8;

/// Longest slice that the search tries.
pub const MAX_SLICE_LEN: usize = 20;

/// Symbols that the hash index keys a position by.
pub const KEY_LEN: usize = 4;

/// No symbol of `s` is a reference.
pub open spec fn reference_free(s: Seq<Symbol>) -> bool {
    forall|j: int| 0 <= j < s.len() ==> !((#[trigger] s[j]) is Reference)
}

/// The occurrences at `positions` each hold `len` symbols equal to `content`,
/// lie inside `s`, and follow one another without overlapping.
pub open spec fn occurrences_ok(s: Seq<Symbol>, content: Seq<Symbol>, positions: Seq<usize>) -> bool {
    &&& forall|i: int|
        0 <= i < positions.len() ==> #[trigger] positions[i] + content.len() <= s.len()
            && s.subrange(positions[i] as int, positions[i] + content.len()) == content
    &&& forall|i: int|
        0 <= i < positions.len() - 1 ==> #[trigger] positions[i] + content.len() <= positions[i
            + 1]
}

/// A candidate that the search may return: a slice of allowed length with no
/// reference in it, found at two or more places that do not overlap, and that
/// still fits the slice dictionary.
pub open spec fn candidate_ok(
    s: Seq<Symbol>,
    dict_len: nat,
    len: usize,
    positions: Seq<usize>,
) -> bool {
    &&& MIN_SLICE_LEN <= len <= MAX_SLICE_LEN
    &&& positions.len() >= 2
    &&& positions[0] + len <= s.len()
    &&& dict_len + len <= MAX_SLICE_DICT
    &&& reference_free(s.subrange(positions[0] as int, positions[0] + len))
    &&& occurrences_ok(s, s.subrange(positions[0] as int, positions[0] + len), positions)
}

proof fn lemma_expand_append(t: Tables, acc: Seq<Symbol>, a: Seq<Symbol>, b: Seq<Symbol>)
    ensures
        expand(t, acc, a + b) == expand(t, expand(t, acc, a), b),
    decreases b.len(),
{
    if b.len() == 0 {
        assert(a + b =~= a);
    } else {
        lemma_expand_append(t, acc, a, b.drop_last());
        assert((a + b).drop_last() =~= a + b.drop_last());
        assert((a + b).last() == b.last());
    }
}

proof fn lemma_flat_is_expand(t: Tables, acc: Seq<Symbol>, c: Seq<Symbol>)
    requires
        reference_free(c),
    ensures
        flat(t, acc, c) == expand(t, acc, c),
    decreases c.len(),
{
    if c.len() > 0 {
        let p = c.drop_last();
        assert forall|j: int| 0 <= j < p.len() implies !((#[trigger] p[j]) is Reference) by {
            assert(p[j] == c[j]);
        }
        lemma_flat_is_expand(t, acc, p);
        assert(!(c[c.len() - 1] is Reference));
    }
}

/// The tables `t2` keep every slice of `t1` as it was.
pub open spec fn tables_extend(t1: Tables, t2: Tables) -> bool {
    &&& t2.row_dict == t1.row_dict
    &&& t1.slice_dict.len() <= t2.slice_dict.len()
    &&& t2.slice_dict.subrange(0, t1.slice_dict.len() as int) == t1.slice_dict
    &&& t1.slices.len() <= t2.slices.len()
    &&& t2.slices.subrange(0, t1.slices.len() as int) == t1.slices
}

proof fn lemma_flat_same(t1: Tables, t2: Tables, acc: Seq<Symbol>, s: Seq<Symbol>)
    requires
        t1.row_dict == t2.row_dict,
    ensures
        flat(t1, acc, s) == flat(t2, acc, s),
    decreases s.len(),
{
    if s.len() > 0 {
        lemma_flat_same(t1, t2, acc, s.drop_last());
    }
}

/// Symbols valid under some tables expand alike under any extension of them.
proof fn lemma_expand_extend(t1: Tables, t2: Tables, acc: Seq<Symbol>, s: Seq<Symbol>)
    requires
        tables_extend(t1, t2),
        symbols_ok(t1, s, true),
        forall|k: int|
            0 <= k < t1.slices.len() ==> {
                let (off, len) = #[trigger] t1.slices[k];
                off + len <= t1.slice_dict.len()
            },
    ensures
        expand(t1, acc, s) == expand(t2, acc, s),
    decreases s.len(),
{
    if s.len() > 0 {
        let p = s.drop_last();
        assert forall|j: int| 0 <= j < p.len() implies symbol_ok(t1, #[trigger] p[j], true) by {
            assert(p[j] == s[j]);
        }
        lemma_expand_extend(t1, t2, acc, p);
        let x = s[s.len() - 1];
        assert(symbol_ok(t1, x, true));
        if let Symbol::Reference(k) = x {
            assert(t2.slices[k as int] == t2.slices.subrange(0, t1.slices.len() as int)[k as int]);
            let (off, len) = t1.slices[k as int];
            assert(off + len <= t1.slice_dict.len());
            assert(slice_of(t1, k as int) =~= slice_of(t2, k as int)) by {
                assert forall|j: int| 0 <= j < len implies slice_of(t1, k as int)[j] == slice_of(
                    t2,
                    k as int,
                )[j] by {
                    assert(t2.slice_dict[off + j] == t2.slice_dict.subrange(
                        0,
                        t1.slice_dict.len() as int,
                    )[off + j]);
                }
            }
            lemma_flat_same(t1, t2, expand(t1, acc, p), slice_of(t1, k as int));
        }
    }
}

/// Hash of the bytes of a run of symbols, keying the search index.
pub fn symbol_slice_hash(slice: &[Symbol]) -> (r: u64)
    requires
        forall|j: int| 0 <= j < slice@.len() ==> (#[trigger] slice@[j]).in_range(),
    ensures
        r == DefaultHasher::spec_finish(seq![encode_all(slice@)]),
{
    let mut bw = BinaryWriter::new();
    write_symbols(&mut bw, slice);
    let mut hasher = DefaultHasher::new();
    hasher.write(bw.bytes().as_slice());
    assert(hasher@ =~= seq![encode_all(slice@)]);
    hasher.finish()
}

/// The index key of the run of `KEY_LEN` symbols at `p`.
pub open spec fn window_hash(s: Seq<Symbol>, p: int) -> u64 {
    DefaultHasher::spec_finish(seq![encode_all(s.subrange(p, p + KEY_LEN))])
}

/// A sequence of positions in increasing order.
pub open spec fn increasing(v: Seq<usize>) -> bool {
    forall|i: int, j: int| 0 <= i < j < v.len() ==> v[i] < v[j]
}

/// Every start of a full key run is listed under its key, each list in
/// increasing order.
pub open spec fn index_ok(s: Seq<Symbol>, m: Map<u64, Vec<usize>>) -> bool {
    &&& forall|p: int|
        0 <= p <= s.len() - KEY_LEN ==> m.contains_key(#[trigger] window_hash(s, p))
            && m[window_hash(s, p)]@.contains(p as usize)
    &&& forall|h: u64| m.contains_key(h) ==> increasing(#[trigger] m[h]@)
    &&& forall|h: u64, i: int|
        m.contains_key(h) && 0 <= i < m[h]@.len() ==> #[trigger] m[h]@[i] + KEY_LEN <= s.len()
            && window_hash(s, m[h]@[i] as int) == h
}

/// Lists, under the hash of each run of `KEY_LEN` symbols, the positions
/// where such a run starts: two runs can match only where their first
/// symbols hash alike.
fn rebuild_search_map(symbols: &Vec<Symbol>) -> (m: HashMap<u64, Vec<usize>>)
    requires
        forall|j: int| 0 <= j < symbols@.len() ==> (#[trigger] symbols@[j]).in_range(),
    ensures
        index_ok(symbols@, m@),
{
    broadcast use vstd::std_specs::hash::group_hash_axioms;

    let mut search_map: HashMap<u64, Vec<usize>> = HashMap::new();
    if symbols.len() < KEY_LEN {
        return search_map;
    }
    let ghost s = symbols@;
    let mut pos: usize = 0;
    while pos <= symbols.len() - KEY_LEN
        invariant
            s == symbols@,
            symbols@.len() >= KEY_LEN,
            pos <= symbols@.len() - KEY_LEN + 1,
            forall|j: int| 0 <= j < symbols@.len() ==> (#[trigger] symbols@[j]).in_range(),
            forall|p: int|
                0 <= p < pos ==> search_map@.contains_key(#[trigger] window_hash(s, p))
                    && search_map@[window_hash(s, p)]@.contains(p as usize),
            forall|h: u64|
                search_map@.contains_key(h) ==> increasing(#[trigger] search_map@[h]@) && forall|
                    i: int,
                | 0 <= i < search_map@[h]@.len() ==> search_map@[h]@[i] < pos,
            forall|h: u64, i: int|
                search_map@.contains_key(h) && 0 <= i < search_map@[h]@.len() ==> #[trigger] search_map@[h]@[i]
                    + KEY_LEN <= s.len() && window_hash(s, search_map@[h]@[i] as int) == h,
        decreases symbols@.len() + 1 - pos,
    {
        let hash = symbol_slice_hash(&symbols.as_slice()[pos..pos + KEY_LEN]);
        assert(symbols@.subrange(pos as int, pos + KEY_LEN) == s.subrange(pos as int, pos + KEY_LEN));
        let ghost before = search_map@;
        let entry = search_map.remove(&hash);
        let mut v: Vec<usize> = match entry {
            Some(v) => v,
            None => Vec::new(),
        };
        let ghost old_v = v@;
        assert(before.contains_key(hash) ==> old_v == before[hash]@);
        assert(!before.contains_key(hash) ==> old_v.len() == 0);
        v.push(pos);
        search_map.insert(hash, v);
        proof {
            assert forall|p: int|
                0 <= p < pos + 1 implies search_map@.contains_key(#[trigger] window_hash(s, p))
                && search_map@[window_hash(s, p)]@.contains(p as usize) by {
                if p == pos {
                    assert(search_map@[hash]@[old_v.len() as int] == pos);
                } else {
                    let h = window_hash(s, p);
                    assert(before[h]@.contains(p as usize));
                    if h == hash {
                        let w = choose|w: int| 0 <= w < old_v.len() && old_v[w] == p as usize;
                        assert(search_map@[hash]@[w] == p as usize);
                    }
                }
            }
            assert forall|h: u64| search_map@.contains_key(h) implies increasing(
                #[trigger] search_map@[h]@,
            ) && forall|i: int| 0 <= i < search_map@[h]@.len() ==> search_map@[h]@[i] < pos + 1 by {
                if h != hash {
                    assert(search_map@[h] == before[h]);
                }
            }
            assert forall|h: u64, i: int|
                search_map@.contains_key(h) && 0 <= i < search_map@[h]@.len() implies #[trigger] search_map@[h]@[i]
                + KEY_LEN <= s.len() && window_hash(s, search_map@[h]@[i] as int) == h by {
                if h != hash {
                    assert(search_map@[h] == before[h]);
                } else if i < old_v.len() {
                    assert(search_map@[h]@[i] == old_v[i]);
                } else {
                    assert(search_map@[h]@[i] == pos);
                }
            }
        }
        pos += 1;
    }
    search_map
}

/// Whether the `len` symbols at `a` and at `b` are equal.
fn runs_equal(s: &Vec<Symbol>, a: usize, b: usize, len: usize) -> (r: bool)
    requires
        a + len <= s@.len(),
        b + len <= s@.len(),
    ensures
        r == (s@.subrange(b as int, b + len) == s@.subrange(a as int, a + len)),
{
    let mut m: usize = 0;
    assert(s@.len() == s.len());
    while m < len
        invariant
            s@.len() <= usize::MAX,
            a + len <= s@.len(),
            b + len <= s@.len(),
            0 <= m <= len,
            s@.subrange(a as int, a + m) == s@.subrange(b as int, b + m),
        decreases len - m,
    {
        if s[a + m] != s[b + m] {
            assert(s@.subrange(b as int, b + len)[m as int] != s@.subrange(a as int, a + len)[m as int]);
            return false;
        }
        assert(s@.subrange(a as int, a + m + 1) =~= s@.subrange(a as int, a + m).push(s@[a + m]));
        assert(s@.subrange(b as int, b + m + 1) =~= s@.subrange(b as int, b + m).push(s@[b + m]));
        m += 1;
    }
    assert(s@.subrange(b as int, b + len) =~= s@.subrange(a as int, a + len));
    true
}

/// Whether the `len` symbols at `a` hold no reference.
fn run_reference_free(s: &Vec<Symbol>, a: usize, len: usize) -> (r: bool)
    requires
        a + len <= s@.len(),
    ensures
        r == reference_free(s@.subrange(a as int, a + len)),
{
    let mut m: usize = 0;
    assert(s@.len() == s.len());
    while m < len
        invariant
            s@.len() <= usize::MAX,
            a + len <= s@.len(),
            0 <= m <= len,
            reference_free(s@.subrange(a as int, a + m)),
        decreases len - m,
    {
        if s[a + m].is_reference() {
            assert(s@.subrange(a as int, a + len)[m as int] is Reference);
            return false;
        }
        proof {
            let u = s@.subrange(a as int, a + m + 1);
            assert forall|j: int| 0 <= j < u.len() implies !((#[trigger] u[j]) is Reference) by {
                if j < m {
                    assert(u[j] == s@.subrange(a as int, a + m)[j]);
                }
            }
        }
        m += 1;
    }
    assert(s@.subrange(a as int, a + m) =~= s@.subrange(a as int, a + len));
    true
}

/// A run at `start` of `len` symbols that the search may register, with a
/// copy at `pos` after it.
pub open spec fn repeat_at(s: Seq<Symbol>, dict_len: nat, start: int, len: int, pos: int) -> bool {
    &&& 0 <= start < s.len() - MIN_SEARCH_LEN
    &&& MIN_SLICE_LEN <= len <= MAX_SLICE_LEN
    &&& dict_len + len <= MAX_SLICE_DICT
    &&& start + len <= pos
    &&& pos + len <= s.len()
    &&& reference_free(s.subrange(start, start + len))
    &&& s.subrange(pos, pos + len) == s.subrange(start, start + len)
}

/// The run `c` stands at `p` in `s`.
pub open spec fn matches_at(s: Seq<Symbol>, c: Seq<Symbol>, p: int) -> bool {
    0 <= p && p + c.len() <= s.len() && s.subrange(p, p + c.len()) == c
}

/// How many copies of `c` a scan from `from` finds, each one taken where it
/// first shows up after the previous copy.
pub open spec fn greedy_count(s: Seq<Symbol>, c: Seq<Symbol>, from: int) -> nat
    decreases s.len() - from,
{
    if from < 0 || c.len() == 0 || from + c.len() > s.len() {
        0
    } else if s.subrange(from, from + c.len()) == c {
        1 + greedy_count(s, c, from + c.len())
    } else {
        greedy_count(s, c, from + 1)
    }
}

/// The bytes that registering the run at `start` of `len` symbols saves:
/// its byte size for every copy after the first; zero where the search may
/// not register it.
pub open spec fn saving(s: Seq<Symbol>, dict_len: nat, start: int, len: int) -> nat {
    let c = s.subrange(start, start + len);
    if 0 <= start < s.len() - MIN_SEARCH_LEN && MIN_SLICE_LEN <= len <= MAX_SLICE_LEN && start
        + len <= s.len() && dict_len + len <= MAX_SLICE_DICT && reference_free(c)
        && greedy_count(s, c, start) >= 1 {
        encode_all(c).len() * ((greedy_count(s, c, start) - 1) as nat)
    } else {
        0
    }
}

/// No copy of `c` starts in `[a, b)`: the scan counts alike from either end.
proof fn lemma_greedy_skip(s: Seq<Symbol>, c: Seq<Symbol>, a: int, b: int)
    requires
        0 <= a <= b,
        c.len() > 0,
        forall|q: int| a <= q < b ==> !#[trigger] matches_at(s, c, q),
    ensures
        greedy_count(s, c, a) == greedy_count(s, c, b),
    decreases b - a,
{
    if a < b {
        assert(!matches_at(s, c, a));
        lemma_greedy_skip(s, c, a + 1, b);
    }
}

/// No copy of `c` starts at or after `a`: the scan finds none.
proof fn lemma_greedy_none(s: Seq<Symbol>, c: Seq<Symbol>, a: int)
    requires
        0 <= a,
        c.len() > 0,
        forall|q: int| a <= q ==> !#[trigger] matches_at(s, c, q),
    ensures
        greedy_count(s, c, a) == 0,
    decreases s.len() - a,
{
    if a + c.len() <= s.len() {
        assert(!matches_at(s, c, a));
        lemma_greedy_none(s, c, a + 1);
    }
}

/// `s` with each span of `len` symbols at the listed positions (in order,
/// from index `w` of the list and symbol `q` of `s` on) replaced by `r`.
pub open spec fn spans_replaced(
    s: Seq<Symbol>,
    positions: Seq<usize>,
    len: int,
    r: Symbol,
    q: int,
    w: int,
) -> Seq<Symbol>
    decreases s.len() - q,
{
    if q < 0 || q >= s.len() || len <= 0 {
        Seq::empty()
    } else if 0 <= w < positions.len() && positions[w] == q && q + len <= s.len() {
        seq![r] + spans_replaced(s, positions, len, r, q + len, w + 1)
    } else {
        seq![s[q]] + spans_replaced(s, positions, len, r, q + 1, w)
    }
}

proof fn lemma_spans_take(
    done: Seq<Symbol>,
    s: Seq<Symbol>,
    positions: Seq<usize>,
    len: int,
    r: Symbol,
    q: int,
    w: int,
)
    requires
        0 <= q < s.len(),
        len > 0,
        0 <= w < positions.len(),
        positions[w] == q,
        q + len <= s.len(),
    ensures
        done + spans_replaced(s, positions, len, r, q, w) == done.push(r) + spans_replaced(
            s,
            positions,
            len,
            r,
            q + len,
            w + 1,
        ),
{
    assert(done + (seq![r] + spans_replaced(s, positions, len, r, q + len, w + 1)) =~= done.push(r)
        + spans_replaced(s, positions, len, r, q + len, w + 1));
}

proof fn lemma_spans_keep(
    done: Seq<Symbol>,
    s: Seq<Symbol>,
    positions: Seq<usize>,
    len: int,
    r: Symbol,
    q: int,
    w: int,
)
    requires
        0 <= q < s.len(),
        len > 0,
        !(0 <= w < positions.len() && positions[w] == q && q + len <= s.len()),
    ensures
        done + spans_replaced(s, positions, len, r, q, w) == done.push(s[q]) + spans_replaced(
            s,
            positions,
            len,
            r,
            q + 1,
            w,
        ),
{
    assert(done + (seq![s[q]] + spans_replaced(s, positions, len, r, q + 1, w)) =~= done.push(s[q])
        + spans_replaced(s, positions, len, r, q + 1, w));
}

/// The slice pass may stop here: the table is full, the stream is too short
/// to search, or no run repeats.
pub open spec fn search_exhausted(e: EventStream) -> bool {
    e.slices@.len() < MAX_SLICES && e.symbols@.len() >= MIN_SEARCH_LEN ==> forall|
        start: int,
        len: int,
        pos: int,
    | !repeat_at(e.symbols@, e.slice_dict@.len(), start, len, pos)
}

/// The slices from index `from` on have the search's lengths.
pub open spec fn new_slices_bounded(from: int, sl: Seq<(u16, u16)>) -> bool {
    forall|k: int| from <= k < sl.len() ==> MIN_SLICE_LEN <= (#[trigger] sl[k]).1 <= MAX_SLICE_LEN
}

/// A sequence of valid symbols takes at least one byte.
proof fn lemma_encode_all_nonempty(t: Tables, c: Seq<Symbol>)
    requires
        c.len() > 0,
        symbol_ok(t, c.last(), true),
    ensures
        encode_all(c).len() >= 1,
{
    let x = c.last();
    if let Symbol::RLE(n) = x {
        assert(crate::symbol::rle_bytes(n as nat) == seq![(0xC0 + (n as nat) % 32) as u8]
            + crate::symbol::rle_bytes((n as nat) / 32));
    }
    assert(x.encode().len() >= 1);
}

impl EventStream {
    /// The slice that saves the most bytes: every start before the last
    /// `MIN_SEARCH_LEN` symbols, every length from `MIN_SLICE_LEN` to
    /// `MAX_SLICE_LEN`, matched at the places that the index lists for its
    /// first symbols, each match taken after the previous one. `None` only
    /// where no run repeats.
    pub fn find_best_slice(&self, search_map: &HashMap<u64, Vec<usize>>) -> (r: Option<
        (usize, Vec<usize>),
    >)
        requires
            self.wf(),
            self.symbols@.len() >= MIN_SEARCH_LEN,
            index_ok(self.symbols@, search_map@),
        ensures
            match r {
                Some((len, positions)) => {
                    let best = saving(self.symbols@, self.slice_dict@.len(), positions@[0] as int, len as int);
                    &&& candidate_ok(self.symbols@, self.slice_dict@.len(), len, positions@)
                    &&& best > 0
                    &&& positions@.len() == greedy_count(
                        self.symbols@,
                        self.symbols@.subrange(positions@[0] as int, positions@[0] + len),
                        positions@[0] as int,
                    )
                    &&& forall|st: int, l: int| saving(self.symbols@, self.slice_dict@.len(), st, l) <= best
                },
                None => {
                    &&& forall|start: int, len: int, pos: int|
                        !repeat_at(self.symbols@, self.slice_dict@.len(), start, len, pos)
                    &&& forall|st: int, l: int| saving(self.symbols@, self.slice_dict@.len(), st, l) == 0
                },
            },
    {
        broadcast use vstd::std_specs::hash::group_hash_axioms;

        let ghost s = self.symbols@;
        let ghost d = self.slice_dict@.len();
        let ghost t = self.tables();
        let n = self.symbols.len();
        proof {
            assert forall|j: int| 0 <= j < s.len() implies (#[trigger] s[j]).in_range() by {
                assert(symbol_ok(self.tables(), s[j], true));
            }
        }
        let mut best_length: usize = 0;
        let mut best_saved: u64 = 0;
        let mut best_positions: Vec<usize> = Vec::new();
        let mut start: usize = 0;
        while start < n - MIN_SEARCH_LEN
            invariant
                self.wf(),
                s == self.symbols@,
                t == self.tables(),
                d == self.slice_dict@.len(),
                n == s.len(),
                n >= MIN_SEARCH_LEN,
                start <= n - MIN_SEARCH_LEN,
                index_ok(s, search_map@),
                forall|j: int| 0 <= j < s.len() ==> (#[trigger] s[j]).in_range(),
                best_saved > 0 ==> candidate_ok(s, d, best_length, best_positions@),
                best_saved == 0 ==> forall|st: int, l: int, p: int|
                    st < start ==> !#[trigger] repeat_at(s, d, st, l, p),
                best_saved > 0 ==> best_saved == saving(s, d, best_positions@[0] as int, best_length as int)
                    && best_positions@.len() == greedy_count(s, s.subrange(best_positions@[0] as int, best_positions@[0] + best_length), best_positions@[0] as int),
                forall|st: int, l: int| st < start ==> #[trigger] saving(s, d, st, l) <= best_saved,
            decreases n - start,
        {
            let hash = symbol_slice_hash(&self.symbols.as_slice()[start..start + KEY_LEN]);
            assert(self.symbols@.subrange(start as int, start + KEY_LEN) == s.subrange(
                start as int,
                start + KEY_LEN,
            ));
            assert(hash == window_hash(s, start as int));
            assert(search_map@.contains_key(window_hash(s, start as int)));
            match search_map.get(&hash) {
                Some(search_positions) => {
                    let ghost list = search_positions@;
                    assert(list == search_map@[hash]@);
                    let mut length: usize = MIN_SLICE_LEN;
                    while length <= MAX_SLICE_LEN && length <= n - start
                        invariant
                            self.wf(),
                            s == self.symbols@,
                            t == self.tables(),
                            d == self.slice_dict@.len(),
                            n == s.len(),
                            start < n - MIN_SEARCH_LEN,
                            MIN_SLICE_LEN <= length,
                            index_ok(s, search_map@),
                            hash == window_hash(s, start as int),
                            list == search_positions@,
                            list == search_map@[hash]@,
                            search_map@.contains_key(hash),
                            forall|j: int| 0 <= j < s.len() ==> (#[trigger] s[j]).in_range(),
                            best_saved > 0 ==> candidate_ok(s, d, best_length, best_positions@),
                            best_saved == 0 ==> forall|st: int, l: int, p: int|
                                st < start || (st == start && l < length) ==> !#[trigger] repeat_at(
                                    s,
                                    d,
                                    st,
                                    l,
                                    p,
                                ),
                            best_saved > 0 ==> best_saved == saving(s, d, best_positions@[0] as int, best_length as int)
                                && best_positions@.len() == greedy_count(s, s.subrange(best_positions@[0] as int, best_positions@[0] + best_length), best_positions@[0] as int),
                            forall|st: int, l: int| st < start || (st == start && l < length) ==> #[trigger] saving(s, d, st, l) <= best_saved,
                        decreases MAX_SLICE_LEN + 1 - length,
                    {
                        if self.slice_dict.len() <= MAX_SLICE_DICT - length && run_reference_free(
                            &self.symbols,
                            start,
                            length,
                        ) {
                            let ghost content = s.subrange(start as int, start + length);
                            let ghost has_w = exists|p: int|
                                repeat_at(s, d, start as int, length as int, p);
                            let ghost wp: int = if has_w {
                                choose|p: int| repeat_at(s, d, start as int, length as int, p)
                            } else {
                                0
                            };
                            let ghost i_s: int = 0;
                            let ghost i_p: int = 0;
                            proof {
                                if has_w {
                                    assert(s.subrange(wp, wp + KEY_LEN) =~= s.subrange(wp, wp + length).subrange(0, KEY_LEN as int));
                                    assert(s.subrange(start as int, start + KEY_LEN) =~= s.subrange(start as int, start + length).subrange(0, KEY_LEN as int));
                                    assert(window_hash(s, wp) == hash);
                                    assert(search_map@[window_hash(s, wp)]@.contains(wp as usize));
                                    assert(search_map@[window_hash(s, start as int)]@.contains(
                                        start as usize,
                                    ));
                                    i_s = choose|i: int| 0 <= i < list.len() && list[i] == start;
                                    i_p = choose|i: int| 0 <= i < list.len() && list[i] == wp as usize;
                                    assert(increasing(search_map@[hash]@));
                                    if i_p <= i_s {
                                        if i_p < i_s {
                                            assert(list[i_p] < list[i_s]);
                                        }
                                    }
                                }
                            }
                            proof {
                                assert forall|q: int| #[trigger] matches_at(s, content, q) implies list.contains(
                                    q as usize,
                                ) by {
                                    assert(s.subrange(q, q + KEY_LEN) =~= s.subrange(q, q + length).subrange(0, KEY_LEN as int));
                                    assert(s.subrange(start as int, start + KEY_LEN) =~= content.subrange(0, KEY_LEN as int));
                                    assert(window_hash(s, q) == hash);
                                    assert(search_map@[window_hash(s, q)]@.contains(q as usize));
                                }
                                assert(matches_at(s, content, start as int));
                            }
                            let mut count: usize = 0;
                            let mut search_offset: usize = start;
                            let mut positions: Vec<usize> = Vec::new();
                            let mut k: usize = 0;
                            while k < search_positions.len()
                                invariant
                                    s == self.symbols@,
                                    n == s.len(),
                                    start + length <= n,
                                    content == s.subrange(start as int, start + length),
                                    count == positions@.len(),
                                    count <= search_offset - start,
                                    MIN_SLICE_LEN <= length <= MAX_SLICE_LEN,
                                    n <= MAX_EVENTS,
                                    start <= search_offset <= n,
                                    list == search_positions@,
                                    increasing(list),
                                    occurrences_ok(s, content, positions@),
                                    positions@.len() > 0 ==> positions@.last() + length
                                        == search_offset,
                                    forall|i: int| 0 <= i < positions@.len() ==> #[trigger] positions@[i] >= start,
                                    has_w ==> 0 <= i_s < i_p < list.len() && list[i_s] == start
                                        && list[i_p] == wp && repeat_at(s, d, start as int, length as int, wp),
                                    has_w && k <= i_s ==> count == 0 && search_offset == start,
                                    has_w && i_s < k ==> count >= 2 || (count == 1 && search_offset
                                        == start + length),
                                    has_w && i_p < k ==> count >= 2,
                                    content.len() == length,
                                    count + greedy_count(s, content, search_offset as int) == greedy_count(s, content, start as int),
                                    forall|i: int| 0 <= i < k && list[i] >= search_offset ==> !matches_at(s, content, #[trigger] list[i] as int),
                                    count == 0 ==> search_offset == start,
                                    positions@.len() > 0 ==> positions@[0] == start,
                                    forall|q: int| #[trigger] matches_at(s, content, q) ==> list.contains(q as usize),
                                    list.contains(start),
                                decreases search_positions@.len() - k,
                            {
                                let pos = search_positions[k];
                                proof {
                                    if has_w && k < i_s {
                                        assert(list[k as int] < list[i_s]);
                                    }
                                }
                                if pos >= search_offset && pos <= n && length <= n - pos
                                    && runs_equal(&self.symbols, start, pos, length) {
                                    let ghost before = positions@;
                                    let ghost so = search_offset as int;
                                    proof {
                                        assert forall|q: int| so <= q < pos implies !#[trigger] matches_at(s, content, q) by {
                                            if matches_at(s, content, q) {
                                                let i = choose|i: int| 0 <= i < list.len() && list[i] == q as usize;
                                                if i >= k {
                                                    if i > k {
                                                        assert(list[k as int] < list[i]);
                                                    }
                                                }
                                                assert(list[i] >= so);
                                            }
                                        }
                                        lemma_greedy_skip(s, content, so, pos as int);
                                        assert(matches_at(s, content, pos as int));
                                        if count == 0 {
                                            if pos > start {
                                                let i = choose|i: int| 0 <= i < list.len() && list[i] == start;
                                                assert(matches_at(s, content, start as int));
                                                if i >= k {
                                                    if i > k {
                                                        assert(list[k as int] < list[i]);
                                                    }
                                                }
                                            }
                                        }
                                    }
                                    positions.push(pos);
                                    count += 1;
                                    search_offset = pos + length;
                                    proof {
                                        assert forall|i: int| 0 <= i < k + 1 && list[i] >= search_offset implies !matches_at(s, content, #[trigger] list[i] as int) by {
                                            if i < k {
                                                assert(list[i] < list[k as int]);
                                            }
                                        }
                                        assert forall|i: int| 0 <= i < positions@.len() - 1 implies
                                            #[trigger] positions@[i] + content.len() <= positions@[i + 1] by {
                                            if i + 1 == before.len() {
                                                assert(positions@[i] == before.last());
                                            } else {
                                                assert(positions@[i] == before[i]);
                                                assert(positions@[i + 1] == before[i + 1]);
                                            }
                                        }
                                        assert forall|i: int| 0 <= i < positions@.len() implies
                                            #[trigger] positions@[i] + content.len() <= s.len()
                                            && s.subrange(positions@[i] as int, positions@[i] + content.len()) == content by {
                                            if i < before.len() {
                                                assert(positions@[i] == before[i]);
                                            }
                                        }
                                    }
                                }
                                k += 1;
                            }
                            proof {
                                if has_w {
                                    assert(count >= 2);
                                }
                                assert forall|q: int| search_offset <= q implies !#[trigger] matches_at(s, content, q) by {
                                    if matches_at(s, content, q) {
                                        let i = choose|i: int| 0 <= i < list.len() && list[i] == q as usize;
                                        assert(list[i] >= search_offset);
                                    }
                                }
                                lemma_greedy_none(s, content, search_offset as int);
                                assert(count == greedy_count(s, content, start as int));
                                assert(greedy_count(s, content, start as int) >= 1);
                            }
                            if count > 1 {
                                proof {
                                    lemma_encode_all_len(content);
                                    assert(symbol_ok(t, s[start + length - 1], true));
                                    assert(content.last() == s[start + length - 1]);
                                    lemma_encode_all_nonempty(t, content);
                                }
                                let size = self.symbols.as_slice()[start..start + length].encoding_size();
                                assert(self.symbols@.subrange(start as int, start + length) == content);
                                assert((size as u64) * ((count - 1) as u64) <= 120 * MAX_EVENTS) by (nonlinear_arith)
                                    requires
                                        size <= 120,
                                        count <= MAX_EVENTS,
                                        count > 1,
                                ;
                                assert((size as u64) * ((count - 1) as u64) >= 1) by (nonlinear_arith)
                                    requires
                                        size >= 1,
                                        count > 1,
                                ;
                                let saved: u64 = (size as u64) * ((count - 1) as u64);
                                proof {
                                    assert(self.symbols@.subrange(start as int, start + length) == content);
                                    assert(size == encode_all(content).len());
                                    assert(saved == saving(s, d, start as int, length as int));
                                }
                                if saved > best_saved {
                                    proof {
                                        assert(positions@[0] >= start);
                                        let first_pos = positions@[0];
                                        assert(s.subrange(first_pos as int, first_pos + length) == content);
                                    }
                                    best_length = length;
                                    best_saved = saved;
                                    best_positions = positions;
                                }
                            } else {
                                proof {
                                    let g = greedy_count(s, content, start as int);
                                    assert(g == 1);
                                    let e = encode_all(content).len();
                                    assert(((g - 1) as nat) == 0);
                                    assert(e * 0 == 0) by (nonlinear_arith);
                                    assert(saving(s, d, start as int, length as int) == 0);
                                }
                            }
                        } else {
                            assert(saving(s, d, start as int, length as int) == 0);
                        }
                        length += 1;
                    }
                },
                None => {
                    assert(false);
                },
            }
            start += 1;
        }
        if best_saved > 0 {
            Some((best_length, best_positions))
        } else {
            None
        }
    }
}

/// The side tables fit the byte format and their slices hold valid symbols.
pub open spec fn tables_ok(t: Tables) -> bool {
    &&& t.row_dict.len() <= ROW_DICT_CAP
    &&& t.slices.len() <= MAX_SLICES
    &&& t.slice_dict.len() <= MAX_SLICE_DICT
    &&& symbols_ok(t, t.slice_dict, false)
    &&& forall|k: int|
        0 <= k < t.slices.len() ==> {
            let (off, len) = #[trigger] t.slices[k];
            &&& off + len <= t.slice_dict.len()
            &&& MIN_SLICE_LEN <= len <= MIN_SLICE_LEN + 255
        }
}

impl EventStream {
    /// Where the symbols `begin..begin + length` already stand in the slice
    /// dictionary, the index of a slot for them, added to the table where none
    /// is there yet; otherwise the symbols are appended and a slot added.
    pub fn get_or_create_dict_slice(&mut self, begin: usize, length: usize) -> (r: usize)
        requires
            tables_ok(old(self).tables()),
            old(self).slices@.len() < MAX_SLICES,
            MIN_SLICE_LEN <= length <= MAX_SLICE_LEN,
            begin + length <= old(self).symbols@.len(),
            old(self).slice_dict@.len() + length <= MAX_SLICE_DICT,
            old(self).symbols@.len() <= MAX_EVENTS,
            reference_free(old(self).symbols@.subrange(begin as int, begin + length)),
            symbols_ok(old(self).tables(), old(self).symbols@, true),
        ensures
            tables_ok(final(self).tables()),
            tables_extend(old(self).tables(), final(self).tables()),
            final(self).symbols@ == old(self).symbols@,
            final(self).index == old(self).index,
            r < final(self).slices@.len(),
            final(self).slices@.len() <= old(self).slices@.len() + 1,
            final(self).slices@.len() > old(self).slices@.len() ==> final(self).slices@.last().1
                == length,
            (exists|p: int|
                0 <= p && p + length <= old(self).slice_dict@.len() && #[trigger] old(
                    self,
                ).slice_dict@.subrange(p, p + length) == old(self).symbols@.subrange(
                    begin as int,
                    begin + length,
                )) ==> final(self).slice_dict@ == old(self).slice_dict@,
            slice_of(final(self).tables(), r as int) == old(self).symbols@.subrange(
                begin as int,
                begin + length,
            ),
    {
        let ghost s = self.symbols@;
        let ghost t1 = self.tables();
        let ghost content = s.subrange(begin as int, begin + length);
        proof {
            assert(t1.slice_dict.subrange(0, t1.slice_dict.len() as int) =~= t1.slice_dict);
            assert(t1.slices.subrange(0, t1.slices.len() as int) =~= t1.slices);
        }
        // Look for the symbols in the slice dictionary.
        let dict_len = self.slice_dict.len();
        if dict_len >= length {
            let mut pos: usize = 0;
            while pos <= dict_len - length
                invariant
                    s == self.symbols@,
                    t1 == self.tables(),
                    tables_ok(t1),
                    t1.slices.len() < MAX_SLICES,
                    self.index == old(self).index,
                    s.len() <= MAX_EVENTS,
                    t1 == old(self).tables(),
                    s == old(self).symbols@,
                    tables_extend(t1, t1),
                    MIN_SLICE_LEN <= length <= MAX_SLICE_LEN,
                    dict_len == self.slice_dict@.len(),
                    dict_len >= length,
                    begin + length <= s.len(),
                    content == s.subrange(begin as int, begin + length),
                    pos <= dict_len - length + 1,
                    forall|p: int|
                        0 <= p < pos ==> #[trigger] self.slice_dict@.subrange(p, p + length)
                            != content,
                decreases dict_len - length + 1 - pos,
            {
                let mut m: usize = 0;
                while m < length && self.slice_dict[pos + m] == self.symbols[begin + m]
                    invariant
                        s == self.symbols@,
                        t1 == self.tables(),
                        t1 == old(self).tables(),
                        s == old(self).symbols@,
                        tables_extend(t1, t1),
                        tables_ok(t1),
                        t1.slices.len() < MAX_SLICES,
                        self.index == old(self).index,
                        MIN_SLICE_LEN <= length <= MAX_SLICE_LEN,
                        content == s.subrange(begin as int, begin + length),
                        s.len() <= MAX_EVENTS,
                        dict_len == self.slice_dict@.len(),
                        pos <= dict_len - length,
                        pos + length <= self.slice_dict@.len(),
                        begin + length <= s.len(),
                        0 <= m <= length,
                        self.slice_dict@.subrange(pos as int, pos + m) == s.subrange(
                            begin as int,
                            begin + m,
                        ),
                    decreases length - m,
                {
                    assert(self.slice_dict@.subrange(pos as int, pos + m + 1) =~= self.slice_dict@.subrange(pos as int, pos + m).push(self.slice_dict@[pos + m]));
                    assert(s.subrange(begin as int, begin + m + 1) =~= s.subrange(begin as int, begin + m).push(s[begin + m]));
                    m += 1;
                }
                if m == length {
                    // Found: reuse a slot with this place, or add one.
                    let mut j: usize = 0;
                    while j < self.slices.len()
                        invariant
                            s == self.symbols@,
                            t1 == self.tables(),
                            t1 == old(self).tables(),
                            s == old(self).symbols@,
                            tables_extend(t1, t1),
                            tables_ok(t1),
                            t1.slices.len() < MAX_SLICES,
                            self.index == old(self).index,
                            content == s.subrange(begin as int, begin + length),
                            pos + length <= dict_len,
                            dict_len == self.slice_dict@.len(),
                            MIN_SLICE_LEN <= length <= MAX_SLICE_LEN,
                            self.slice_dict@.subrange(pos as int, pos + length) == content,
                            0 <= j <= t1.slices.len(),
                        decreases t1.slices.len() - j,
                    {
                        if self.slices[j].0 as usize == pos && self.slices[j].1 as usize == length {
                            proof {
                                assert(slice_of(t1, j as int) =~= content);
                            }
                            return j;
                        }
                        j += 1;
                    }
                    let k = self.slices.len();
                    self.slices.push((pos as u16, length as u16));
                    proof {
                        let t2 = self.tables();
                        assert(t2.slices.subrange(0, t1.slices.len() as int) =~= t1.slices);
                        assert(slice_of(t2, k as int) =~= content);
                        assert forall|q: int| 0 <= q < t2.slices.len() implies {
                            let (o, l) = #[trigger] t2.slices[q];
                            &&& o + l <= t2.slice_dict.len()
                            &&& MIN_SLICE_LEN <= l <= MIN_SLICE_LEN + 255
                        } by {
                            if q < t1.slices.len() {
                                assert(t2.slices[q] == t1.slices[q]);
                            }
                        }
                        assert forall|q: int| 0 <= q < t2.slice_dict.len() implies symbol_ok(
                            t2,
                            #[trigger] t2.slice_dict[q],
                            false,
                        ) by {
                            assert(symbol_ok(t1, t1.slice_dict[q], false));
                        }
                    }
                    return k;
                }
                assert(self.slice_dict@.subrange(pos as int, pos + length)[m as int] != content[m as int]);
                pos += 1;
            }
            assert(forall|p: int|
                0 <= p && p + length <= self.slice_dict@.len() ==> #[trigger] self.slice_dict@.subrange(
                    p,
                    p + length,
                ) != content);
        }
        assert(forall|p: int|
            0 <= p && p + length <= old(self).slice_dict@.len() ==> #[trigger] old(self).slice_dict@.subrange(
                p,
                p + length,
            ) != content);
        // Not there: append the symbols.
        let k = self.slices.len();
        let off = self.slice_dict.len();
        let mut m: usize = 0;
        while m < length
            invariant
                self.symbols@ == s,
                self.index == old(self).index,
                self.slices@ == t1.slices,
                self.row_dict@ == t1.row_dict,
                tables_ok(t1),
                t1.slices.len() < MAX_SLICES,
                t1.slice_dict.len() + length <= MAX_SLICE_DICT,
                MIN_SLICE_LEN <= length <= MAX_SLICE_LEN,
                reference_free(content),
                symbols_ok(t1, s, true),
                s.len() <= MAX_EVENTS,
                begin + length <= s.len(),
                0 <= m <= length,
                self.slice_dict@ == t1.slice_dict + content.subrange(0, m as int),
                content == s.subrange(begin as int, begin + length),
            decreases length - m,
        {
            self.slice_dict.push(self.symbols[begin + m]);
            m += 1;
            assert(self.slice_dict@ =~= t1.slice_dict + content.subrange(0, m as int));
        }
        assert(content.subrange(0, length as int) =~= content);
        self.slices.push((off as u16, length as u16));
        proof {
            let t2 = self.tables();
            assert(t2.slice_dict.subrange(0, t1.slice_dict.len() as int) =~= t1.slice_dict);
            assert(t2.slices.subrange(0, t1.slices.len() as int) =~= t1.slices);
            assert(slice_of(t2, k as int) =~= content);
            assert forall|q: int| 0 <= q < t2.slice_dict.len() implies symbol_ok(
                t2,
                #[trigger] t2.slice_dict[q],
                false,
            ) by {
                if q < t1.slice_dict.len() {
                    assert(t2.slice_dict[q] == t1.slice_dict[q]);
                    assert(symbol_ok(t1, t1.slice_dict[q], false));
                } else {
                    let c = q - t1.slice_dict.len();
                    assert(t2.slice_dict[q] == content[c]);
                    assert(content[c] == s[begin + c]);
                    assert(symbol_ok(t1, s[begin + c], true));
                    assert(!(content[c] is Reference));
                }
            }
            assert forall|q: int| 0 <= q < t2.slices.len() implies {
                let (o, l) = #[trigger] t2.slices[q];
                &&& o + l <= t2.slice_dict.len()
                &&& MIN_SLICE_LEN <= l <= MIN_SLICE_LEN + 255
            } by {
                if q < t1.slices.len() {
                    assert(t2.slices[q] == t1.slices[q]);
                }
            }
        }
        k
    }
}

impl EventStream {
    /// Registers the slice at the first position in the slice table and
    /// replaces every occurrence by a reference to it.
    #[verifier::rlimit(60)]
    pub fn replace_occurrences(&mut self, length: usize, positions: &Vec<usize>) -> (slot: usize)
        requires
            old(self).wf(),
            old(self).slices@.len() < MAX_SLICES,
            candidate_ok(old(self).symbols@, old(self).slice_dict@.len(), length, positions@),
        ensures
            final(self).wf(),
            final(self).decoded() == old(self).decoded(),
            final(self).index == old(self).index,
            tables_extend(old(self).tables(), final(self).tables()),
            final(self).slices@.len() <= old(self).slices@.len() + 1,
            new_slices_bounded(old(self).slices@.len() as int, final(self).slices@),
            final(self).symbols@.len() < old(self).symbols@.len(),
            slot < final(self).slices@.len(),
            slice_of(final(self).tables(), slot as int) == old(self).symbols@.subrange(
                positions@[0] as int,
                positions@[0] + length,
            ),
            final(self).symbols@ == spans_replaced(
                old(self).symbols@,
                positions@,
                length as int,
                Symbol::Reference(slot as u8),
                0,
                0,
            ),
    {
        let ghost s = self.symbols@;
        let ghost t1 = self.tables();
        let n = self.symbols.len();
        let start = positions[0];
        let ghost content = s.subrange(start as int, start + length);
        proof {
            assert(symbols_ok(t1, s, true));
        }
        let k = self.get_or_create_dict_slice(start, length);
        let ghost t2 = self.tables();
        assert(new_slices_bounded(t1.slices.len() as int, t2.slices));
        let mut result: Vec<Symbol> = Vec::new();
        let mut q: usize = 0;
        let mut w: usize = 0;
        let ghost first = if positions@[0] == 0 { Symbol::Reference(k as u8) } else { s[0] };
        while q < n
            invariant
                self.symbols@ == s,
                self.index == old(self).index,
                self.tables() == t2,
                tables_ok(t2),
                new_slices_bounded(t1.slices.len() as int, t2.slices),
                w <= result@.len(),
                first == (if positions@[0] == 0 { Symbol::Reference(k as u8) } else { s[0] }),
                result@.len() > 0 ==> result@[0] == first,
                result@ + spans_replaced(s, positions@, length as int, Symbol::Reference(k as u8), q as int, w as int)
                    == spans_replaced(s, positions@, length as int, Symbol::Reference(k as u8), 0, 0),
                n == s.len(),
                k < t2.slices.len(),
                k < MAX_SLICES,
                slice_of(t2, k as int) == content,
                reference_free(content),
                content.len() == length,
                MIN_SLICE_LEN <= length,
                candidate_ok(s, t1.slice_dict.len(), length, positions@),
                content == s.subrange(positions@[0] as int, positions@[0] + length),
                0 <= q <= n,
                0 <= w <= positions@.len(),
                w < positions@.len() ==> positions@[w as int] >= q,
                w > 0 ==> q >= positions@[w - 1] + length,
                result@.len() + w * (length - 1) == q,
                expand(t2, Seq::empty(), result@) == expand(t2, Seq::empty(), s.subrange(0, q as int)),
                forall|j: int| 0 <= j < result@.len() ==> symbol_ok(t2, #[trigger] result@[j], true),
                symbols_ok(t1, s, true),
                tables_extend(t1, t2),
            decreases n - q,
        {
            if w < positions.len() && positions[w] == q {
                proof {
                    assert(s.subrange(q as int, q + length) == content);
                    assert(s.subrange(0, q + length) =~= s.subrange(0, q as int) + content);
                    lemma_expand_append(t2, Seq::empty(), s.subrange(0, q as int), content);
                    lemma_flat_is_expand(t2, expand(t2, Seq::empty(), result@), content);
                    assert(result@.push(Symbol::Reference(k as u8)).drop_last() =~= result@);
                    assert((w + 1) * (length - 1) == w * (length - 1) + length - 1) by (nonlinear_arith);
                }
                let ghost r0 = result@;
                result.push(Symbol::Reference(k as u8));
                proof {
                    lemma_spans_take(r0, s, positions@, length as int, Symbol::Reference(k as u8), q as int, w as int);
                }
                q = q + length;
                w += 1;
                proof {
                    if w < positions@.len() {
                        assert(positions@[w - 1] + length <= positions@[w as int]);
                    }
                }
            } else {
                let x = self.symbols[q];
                proof {
                    assert(s.subrange(0, q + 1).drop_last() =~= s.subrange(0, q as int));
                    assert(result@.push(x).drop_last() =~= result@);
                    assert(symbol_ok(t1, s[q as int], true));
                }
                let ghost r0 = result@;
                result.push(x);
                proof {
                    lemma_spans_keep(r0, s, positions@, length as int, Symbol::Reference(k as u8), q as int, w as int);
                }
                q += 1;
            }
        }
        proof {
            assert(s.subrange(0, q as int) =~= s);
            if w < positions@.len() {
                assert(positions@[w as int] + length <= s.len());
            }
            assert(w >= 2);
            assert(w * (length - 1) >= 2) by (nonlinear_arith)
                requires
                    w >= 2,
                    length >= 4,
            ;
            lemma_expand_extend(t1, t2, Seq::empty(), s);
            assert(starts_with_event(t1, s));
            assert(result@[0] == first);
            if positions@[0] == 0 {
                assert(content[0] == s[0]);
            } else if s[0] is Reference {
                let k0 = s[0]->Reference_0 as int;
                assert(symbol_ok(t1, s[0], true));
                assert(t2.slices[k0] == t2.slices.subrange(0, t1.slices.len() as int)[k0]);
                let (off, len) = t1.slices[k0];
                assert(off + len <= t1.slice_dict.len());
                assert(t2.slice_dict[off as int] == t2.slice_dict.subrange(0, t1.slice_dict.len() as int)[off as int]);
                assert(slice_of(t2, k0)[0] == slice_of(t1, k0)[0]);
            }
            assert(starts_with_event(t2, result@));
            assert(result@ + spans_replaced(s, positions@, length as int, Symbol::Reference(k as u8), q as int, w as int)
                =~= result@);
        }
        self.symbols = result;
        k
    }

    /// Replaces repeated runs by references into the slice table, best saving
    /// first, until none saves bytes, the table is full, or the stream is
    /// shorter than `MIN_SEARCH_LEN`.
    pub fn compress_repeated_parts(&mut self)
        requires
            old(self).wf(),
        ensures
            final(self).wf(),
            final(self).decoded() == old(self).decoded(),
            final(self).index == old(self).index,
            tables_extend(old(self).tables(), final(self).tables()),
            final(self).symbols@.len() <= old(self).symbols@.len(),
            old(self).symbols@.len() < MIN_SEARCH_LEN ==> final(self).symbols@ == old(self).symbols@
                && final(self).tables() == old(self).tables(),
            search_exhausted(*final(self)),
            new_slices_bounded(old(self).slices@.len() as int, final(self).slices@),
    {
        let mut done = false;
        proof {
            let t0 = self.tables();
            assert(t0.slice_dict.subrange(0, t0.slice_dict.len() as int) =~= t0.slice_dict);
            assert(t0.slices.subrange(0, t0.slices.len() as int) =~= t0.slices);
        }
        while !done && self.slices.len() < MAX_SLICES && self.symbols.len() >= MIN_SEARCH_LEN
            invariant
                self.wf(),
                self.decoded() == old(self).decoded(),
                self.index == old(self).index,
                tables_extend(old(self).tables(), self.tables()),
                self.symbols@.len() <= old(self).symbols@.len(),
                old(self).symbols@.len() < MIN_SEARCH_LEN ==> self.symbols@ == old(self).symbols@
                    && self.tables() == old(self).tables(),
                done ==> forall|start: int, len: int, pos: int|
                    !repeat_at(self.symbols@, self.slice_dict@.len(), start, len, pos),
                new_slices_bounded(old(self).slices@.len() as int, self.slices@),
            decreases self.symbols@.len(), if done { 0int } else { 1int },
        {
            proof {
                assert forall|j: int| 0 <= j < self.symbols@.len() implies (
                #[trigger] self.symbols@[j]).in_range() by {
                    assert(symbol_ok(self.tables(), self.symbols@[j], true));
                }
            }
            let search_map = rebuild_search_map(&self.symbols);
            assert(self.symbols@.len() >= MIN_SEARCH_LEN);
            match self.find_best_slice(&search_map) {
                Some((length, positions)) => {
                    let ghost before = self.tables();
                    self.replace_occurrences(length, &positions);
                    proof {
                        let t0 = old(self).tables();
                        let t = self.tables();
                        assert forall|k: int| t0.slices.len() <= k < t.slices.len() implies MIN_SLICE_LEN
                            <= (#[trigger] t.slices[k]).1 <= MAX_SLICE_LEN by {
                            if k < before.slices.len() {
                                assert(t.slices[k] == t.slices.subrange(0, before.slices.len() as int)[k]);
                            }
                        }
                        assert(t.slice_dict.subrange(0, t0.slice_dict.len() as int) =~= t0.slice_dict) by {
                            assert(t.slice_dict.subrange(0, before.slice_dict.len() as int) == before.slice_dict);
                            assert forall|j: int| 0 <= j < t0.slice_dict.len() implies t.slice_dict[j] == t0.slice_dict[j] by {
                                assert(t.slice_dict[j] == t.slice_dict.subrange(0, before.slice_dict.len() as int)[j]);
                                assert(before.slice_dict[j] == before.slice_dict.subrange(0, t0.slice_dict.len() as int)[j]);
                            }
                        }
                        assert(t.slices.subrange(0, t0.slices.len() as int) =~= t0.slices) by {
                            assert forall|j: int| 0 <= j < t0.slices.len() implies t.slices[j] == t0.slices[j] by {
                                assert(t.slices[j] == t.slices.subrange(0, before.slices.len() as int)[j]);
                                assert(before.slices[j] == before.slices.subrange(0, t0.slices.len() as int)[j]);
                            }
                        }
                    }
                },
                None => {
                    done = true;
                },
            }
        }
    }
}

} // verus!
