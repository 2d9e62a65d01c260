//! One channel's events as a symbol stream, the passes that compress it and
//! the expansion that gives the events back.
use crate::row::Row;
use crate::row_dict::{
    count_row_events, lemma_tally_entry, lemma_tally_present, occurrences, qualifies, rows_distinct, sat16,
    select_frequent, selection_ok, tally,
};
use crate::binary_writer::{le16, BinaryWriter};
use crate::slice_search::{new_slices_bounded, search_exhausted};
use crate::symbol::{
    encode_all, lemma_encode_all_len, lemma_encode_all_prefix, write_symbols, Symbol,
    SymbolEncodingSize,
};
use vstd::prelude::*;

verus! {

/// Most rows that the row dictionary holds.
pub const ROW_DICT_CAP: usize = 120;

/// Most entries of the slice table.
pub const MAX_SLICES: usize = 64;

/// Most symbols in the slice dictionary (its count is written in one byte).
pub const MAX_SLICE_DICT: usize = 255;

/// Shortest slice; the slice table stores lengths less this.
pub const MIN_SLICE_LEN: usize = 4;

/// Most symbols in one stream, so that six bytes a symbol still fit a
/// 32-bit `usize`.
pub const MAX_EVENTS: usize = 0x1000_0000;

/// The side tables that a stream's symbols point into.
pub struct Tables {
    pub row_dict: Seq<(Row, u16)>,
    pub slice_dict: Seq<Symbol>,
    pub slices: Seq<(u16, u16)>,
}

/// The symbols that slot `k` of the slice table stands for.
pub open spec fn slice_of(t: Tables, k: int) -> Seq<Symbol> {
    let (off, len) = t.slices[k];
    t.slice_dict.subrange(off as int, off + len)
}

/// Expands one symbol that is not a reference onto the events decoded so far.
pub open spec fn step_flat(t: Tables, acc: Seq<Symbol>, x: Symbol) -> Seq<Symbol> {
    match x {
        Symbol::RowEvent(r) => acc.push(Symbol::RowEvent(r)),
        Symbol::Dictionary(i) => acc.push(Symbol::RowEvent(t.row_dict[i as int].0)),
        Symbol::RLE(n) => if acc.len() == 0 {
            acc
        } else {
            acc + Seq::new(n as nat, |j: int| acc.last())
        },
        _ => acc,
    }
}

/// Expands symbols that hold no reference, one after the other.
pub open spec fn flat(t: Tables, acc: Seq<Symbol>, s: Seq<Symbol>) -> Seq<Symbol>
    decreases s.len(),
{
    if s.len() == 0 {
        acc
    } else {
        step_flat(t, flat(t, acc, s.drop_last()), s.last())
    }
}

/// Expands one symbol; a reference expands its slice in place.
pub open spec fn step(t: Tables, acc: Seq<Symbol>, x: Symbol) -> Seq<Symbol> {
    match x {
        Symbol::Reference(k) => flat(t, acc, slice_of(t, k as int)),
        _ => step_flat(t, acc, x),
    }
}

/// Expands symbols one after the other onto `acc`.
pub open spec fn expand(t: Tables, acc: Seq<Symbol>, s: Seq<Symbol>) -> Seq<Symbol>
    decreases s.len(),
{
    if s.len() == 0 {
        acc
    } else {
        step(t, expand(t, acc, s.drop_last()), s.last())
    }
}

/// The events that a symbol sequence stands for.
pub open spec fn decode(t: Tables, s: Seq<Symbol>) -> Seq<Symbol> {
    expand(t, Seq::empty(), s)
}

/// Every symbol is a literal event.
pub open spec fn all_row_events(s: Seq<Symbol>) -> bool {
    forall|j: int| 0 <= j < s.len() ==> (#[trigger] s[j]) is RowEvent
}

/// Symbols whose indices point into the tables; references only where allowed.
pub open spec fn symbol_ok(t: Tables, x: Symbol, refs: bool) -> bool {
    match x {
        Symbol::Unknown => false,
        Symbol::Dictionary(i) => i < t.row_dict.len(),
        Symbol::Reference(k) => refs && k < t.slices.len(),
        Symbol::RLE(n) => n > 0,
        Symbol::RowEvent(_) => true,
    }
}

pub open spec fn symbols_ok(t: Tables, s: Seq<Symbol>, refs: bool) -> bool {
    forall|j: int| 0 <= j < s.len() ==> symbol_ok(t, #[trigger] s[j], refs)
}

/// The first symbol yields an event before any run count can repeat one: it
/// is no RLE, and a reference there points at a slice that does not begin
/// with one.
pub open spec fn starts_with_event(t: Tables, s: Seq<Symbol>) -> bool {
    s.len() > 0 ==> !(s[0] is RLE) && (s[0] is Reference ==> !(slice_of(
        t,
        s[0]->Reference_0 as int,
    )[0] is RLE))
}

/// A channel's stream and its side tables.
pub struct EventStream {
    pub index: usize,
    pub symbols: Vec<Symbol>,
    pub row_dict: Vec<(Row, u16)>,
    pub slice_dict: Vec<Symbol>,
    pub slices: Vec<(u16, u16)>,
}

impl EventStream {
    pub open spec fn tables(&self) -> Tables {
        Tables { row_dict: self.row_dict@, slice_dict: self.slice_dict@, slices: self.slices@ }
    }

    /// The events that the stream stands for.
    pub open spec fn decoded(&self) -> Seq<Symbol> {
        decode(self.tables(), self.symbols@)
    }

    /// Indices point into the tables, slices hold no references, and every
    /// table fits the byte format.
    pub open spec fn wf(&self) -> bool {
        let t = self.tables();
        &&& self.symbols@.len() <= MAX_EVENTS
        &&& self.row_dict@.len() <= ROW_DICT_CAP
        &&& self.slices@.len() <= MAX_SLICES
        &&& self.slice_dict@.len() <= MAX_SLICE_DICT
        &&& symbols_ok(t, self.symbols@, true)
        &&& symbols_ok(t, self.slice_dict@, false)
        &&& starts_with_event(t, self.symbols@)
        &&& forall|k: int|
            0 <= k < self.slices@.len() ==> {
                let (off, len) = #[trigger] self.slices@[k];
                &&& off + len <= self.slice_dict@.len()
                &&& MIN_SLICE_LEN <= len <= MIN_SLICE_LEN + 255
            }
    }

    /// A stream of literal events with empty tables.
    pub fn from_symbols(index: usize, symbols: Vec<Symbol>) -> (r: EventStream)
        requires
            all_row_events(symbols@),
            symbols@.len() <= MAX_EVENTS,
        ensures
            r.wf(),
            r.index == index,
            r.symbols@ == symbols@,
            r.row_dict@.len() == 0,
            r.slice_dict@.len() == 0,
            r.slices@.len() == 0,
            r.decoded() == symbols@,
    {
        let r = EventStream {
            index,
            symbols,
            row_dict: Vec::new(),
            slice_dict: Vec::new(),
            slices: Vec::new(),
        };
        proof {
            lemma_decode_literal(r.tables(), r.symbols@);
        }
        r
    }
}

/// Literal events decode to themselves.
pub proof fn lemma_decode_literal(t: Tables, s: Seq<Symbol>)
    requires
        all_row_events(s),
    ensures
        decode(t, s) == s,
    decreases s.len(),
{
    if s.len() > 0 {
        lemma_decode_literal(t, s.drop_last());
        assert(s.drop_last().push(s.last()) =~= s);
    }
}

/// A symbol that a run of equal neighbours may be folded into.
pub open spec fn rle_eligible(x: Symbol) -> bool {
    x is RowEvent || x is Dictionary
}

/// Adds one symbol to a run-length coded sequence: a symbol equal to the run
/// before it raises that run's count, or starts a count of one.
pub open spec fn rle_merge(r: Seq<Symbol>, x: Symbol) -> Seq<Symbol> {
    let n = r.len();
    if rle_eligible(x) && n >= 2 && r[n - 2] == x && r[n - 1] is RLE && r[n - 1]->RLE_0 < 0xFFFF {
        r.update(n - 1, Symbol::RLE((r[n - 1]->RLE_0 + 1) as u16))
    } else if rle_eligible(x) && n >= 1 && r[n - 1] == x {
        r.push(Symbol::RLE(1))
    } else {
        r.push(x)
    }
}

/// The run-length coding of a symbol sequence.
pub open spec fn rle_encode(s: Seq<Symbol>) -> Seq<Symbol>
    decreases s.len(),
{
    if s.len() == 0 {
        s
    } else {
        rle_merge(rle_encode(s.drop_last()), s.last())
    }
}

proof fn lemma_expand_push(t: Tables, acc: Seq<Symbol>, s: Seq<Symbol>, x: Symbol)
    ensures
        expand(t, acc, s.push(x)) == step(t, expand(t, acc, s), x),
{
    assert(s.push(x).drop_last() =~= s);
}

proof fn lemma_expand_prefix(t: Tables, acc: Seq<Symbol>, s: Seq<Symbol>, i: int)
    requires
        0 <= i < s.len(),
    ensures
        expand(t, acc, s.subrange(0, i + 1)) == step(t, expand(t, acc, s.subrange(0, i)), s[i]),
{
    assert(s.subrange(0, i + 1).drop_last() =~= s.subrange(0, i));
}

proof fn lemma_flat_prefix(t: Tables, acc: Seq<Symbol>, s: Seq<Symbol>, i: int)
    requires
        0 <= i < s.len(),
    ensures
        flat(t, acc, s.subrange(0, i + 1)) == step_flat(t, flat(t, acc, s.subrange(0, i)), s[i]),
{
    assert(s.subrange(0, i + 1).drop_last() =~= s.subrange(0, i));
}

/// After an eligible symbol, the last decoded event is its event.
proof fn lemma_last_after_eligible(t: Tables, acc: Seq<Symbol>, s: Seq<Symbol>)
    requires
        s.len() > 0,
        rle_eligible(s.last()),
    ensures
        expand(t, acc, s).len() > 0,
        expand(t, acc, s).last() == step(t, Seq::empty(), s.last()).last(),
{
}

/// Merging a symbol into a coded sequence expands like appending it.
proof fn lemma_rle_merge(t: Tables, r: Seq<Symbol>, x: Symbol)
    ensures
        decode(t, rle_merge(r, x)) == step(t, decode(t, r), x),
{
    let n = r.len();
    if rle_eligible(x) && n >= 2 && r[n - 2] == x && r[n - 1] is RLE && r[n - 1]->RLE_0 < 0xFFFF {
        let k = r[n - 1]->RLE_0;
        let p = r.drop_last();
        let m = rle_merge(r, x);
        assert(m.drop_last() =~= p);
        assert(r.drop_last() == p);
        let d = decode(t, p);
        lemma_last_after_eligible(t, Seq::empty(), p);
        let e = d.last();
        let d1 = d + Seq::new(k as nat, |j: int| e);
        assert(decode(t, r) == d1);
        assert(d1.last() == e) by {
            if k == 0 {
                assert(d1 =~= d);
            }
        }
        assert(step(t, d1, x) == d1.push(e));
        assert(decode(t, m) == d + Seq::new((k + 1) as nat, |j: int| e));
        assert(d + Seq::new((k + 1) as nat, |j: int| e) =~= d1.push(e));
    } else if rle_eligible(x) && n >= 1 && r[n - 1] == x {
        let m = rle_merge(r, x);
        assert(m.drop_last() =~= r);
        lemma_last_after_eligible(t, Seq::empty(), r);
        let d = decode(t, r);
        assert(d + Seq::new(1, |j: int| d.last()) =~= d.push(d.last()));
    } else {
        lemma_expand_push(t, Seq::empty(), r, x);
    }
}

/// Run-length coding leaves the decoded events as they were.
pub proof fn lemma_rle_encode_decode(t: Tables, s: Seq<Symbol>)
    ensures
        decode(t, rle_encode(s)) == decode(t, s),
    decreases s.len(),
{
    if s.len() > 0 {
        lemma_rle_encode_decode(t, s.drop_last());
        lemma_rle_merge(t, rle_encode(s.drop_last()), s.last());
    }
}

/// A run of `n` equal eligible symbols codes to the symbol and one RLE count
/// of the rest, which expands to exactly `n` copies.
pub proof fn lemma_rle_run(t: Tables, x: Symbol, n: nat)
    requires
        rle_eligible(x),
        2 <= n <= 0x1_0000,
    ensures
        rle_encode(Seq::new(n, |j: int| x)) == seq![x, Symbol::RLE((n - 1) as u16)],
        decode(t, seq![x, Symbol::RLE((n - 1) as u16)]) == Seq::new(
            n,
            |j: int| step(t, Seq::empty(), x).last(),
        ),
    decreases n,
{
    let s = Seq::new(n, |j: int| x);
    if n == 2 {
        let one = Seq::new(1, |j: int| x);
        assert(one.drop_last() =~= Seq::<Symbol>::empty());
        assert(rle_encode(Seq::<Symbol>::empty()) == Seq::<Symbol>::empty());
        assert(one.last() == x);
        assert(rle_encode(one) =~= seq![x]);
        assert(s.drop_last() =~= one);
        assert(rle_encode(s) =~= seq![x, Symbol::RLE(1)]);
    } else {
        lemma_rle_run(t, x, (n - 1) as nat);
        assert(s.drop_last() =~= Seq::new((n - 1) as nat, |j: int| x));
        assert(rle_encode(s) =~= seq![x, Symbol::RLE((n - 1) as u16)]);
    }
    let c = seq![x, Symbol::RLE((n - 1) as u16)];
    assert(c.drop_last() =~= seq![x]);
    assert(seq![x].drop_last() =~= Seq::<Symbol>::empty());
    let e = step(t, Seq::empty(), x).last();
    assert(expand(t, Seq::empty(), Seq::<Symbol>::empty()) == Seq::<Symbol>::empty());
    assert(seq![x].last() == x);
    assert(step(t, Seq::empty(), x) =~= seq![e]);
    assert(decode(t, seq![x]) =~= seq![e]);
    assert(decode(t, c) =~= Seq::new(n, |j: int| e));
}

/// No symbol of `s` is a run count.
pub open spec fn rle_free(s: Seq<Symbol>) -> bool {
    forall|j: int| 0 <= j < s.len() ==> !((#[trigger] s[j]) is RLE)
}

/// The coding of a sequence without run counts ends with its last symbol,
/// or with its last symbol and a count.
proof fn lemma_rle_encode_tail(p: Seq<Symbol>)
    requires
        p.len() > 0,
        rle_free(p),
    ensures
        ({
            let r = rle_encode(p);
            let n = r.len();
            &&& n >= 1
            &&& r[n - 1] == p.last() || (n >= 2 && r[n - 1] is RLE && r[n - 2] == p.last())
        }),
    decreases p.len(),
{
    let q = p.drop_last();
    assert(!(p[p.len() - 1] is RLE));
    if q.len() > 0 {
        assert(rle_free(q)) by {
            assert forall|j: int| 0 <= j < q.len() implies !((#[trigger] q[j]) is RLE) by {
                assert(q[j] == p[j]);
            }
        }
        lemma_rle_encode_tail(q);
    } else {
        assert(rle_encode(q) == q);
    }
}

/// Two sequences without run counts, where the second does not start with
/// the symbol the first ends with, code independently.
proof fn lemma_rle_encode_concat(p: Seq<Symbol>, q: Seq<Symbol>)
    requires
        rle_free(p),
        rle_free(q),
        p.len() > 0,
        q.len() > 0,
        p.last() != q[0],
    ensures
        rle_encode(p + q) == rle_encode(p) + rle_encode(q),
    decreases q.len(),
{
    let x = q.last();
    let q1 = q.drop_last();
    assert((p + q).drop_last() =~= p + q1);
    assert((p + q).last() == x);
    assert(!(q[q.len() - 1] is RLE));
    let ep = rle_encode(p);
    lemma_rle_encode_tail(p);
    if q1.len() == 0 {
        assert(p + q1 =~= p);
        assert(rle_encode(q1) == q1);
        assert(q =~= seq![x]);
        assert(rle_encode(q) == rle_merge(q1, x));
        assert(rle_merge(q1, x) =~= seq![x]);
        assert(rle_merge(ep, x) =~= ep + seq![x]);
    } else {
        assert(rle_free(q1)) by {
            assert forall|j: int| 0 <= j < q1.len() implies !((#[trigger] q1[j]) is RLE) by {
                assert(q1[j] == q[j]);
            }
        }
        assert(q1[0] == q[0]);
        lemma_rle_encode_concat(p, q1);
        let eq1 = rle_encode(q1);
        lemma_rle_encode_tail(q1);
        let r = ep + eq1;
        let n = r.len();
        let m = eq1.len();
        assert(r[n - 1] == eq1[m - 1]);
        if m >= 2 {
            assert(r[n - 2] == eq1[m - 2]);
            let u = r.update(n - 1, Symbol::RLE((r[n - 1]->RLE_0 + 1) as u16));
            if r[n - 1] is RLE {
                assert(u =~= ep + eq1.update(m - 1, Symbol::RLE((eq1[m - 1]->RLE_0 + 1) as u16)));
            }
            assert(r.push(Symbol::RLE(1)) =~= ep + eq1.push(Symbol::RLE(1)));
            assert(r.push(x) =~= ep + eq1.push(x));
        } else {
            assert(!(eq1[m - 1] is RLE));
            assert(r.push(Symbol::RLE(1)) =~= ep + eq1.push(Symbol::RLE(1)));
            assert(r.push(x) =~= ep + eq1.push(x));
        }
        assert(rle_merge(r, x) == ep + rle_merge(eq1, x));
    }
}

/// A maximal run of `n` equal eligible symbols inside a sequence without run
/// counts codes to the symbol and one count of the rest; what stands before
/// and after codes as it would alone.
pub proof fn lemma_rle_maximal_run(a: Seq<Symbol>, x: Symbol, n: nat, b: Seq<Symbol>)
    requires
        rle_free(a),
        rle_free(b),
        rle_eligible(x),
        2 <= n <= 0x1_0000,
        a.len() > 0 ==> a.last() != x,
        b.len() > 0 ==> b[0] != x,
    ensures
        rle_encode(a + Seq::new(n, |j: int| x) + b) == rle_encode(a) + seq![
            x,
            Symbol::RLE((n - 1) as u16),
        ] + rle_encode(b),
{
    let run = Seq::new(n, |j: int| x);
    lemma_rle_run(empty_tables(), x, n);
    assert(rle_free(run));
    let ar = a + run;
    if a.len() > 0 {
        assert(run[0] == x);
        lemma_rle_encode_concat(a, run);
    } else {
        assert(ar =~= run);
        assert(rle_encode(a) == a);
        assert(rle_encode(a) + rle_encode(run) =~= rle_encode(run));
    }
    assert(rle_encode(ar) == rle_encode(a) + seq![x, Symbol::RLE((n - 1) as u16)]);
    if b.len() > 0 {
        assert(rle_free(ar)) by {
            assert forall|j: int| 0 <= j < ar.len() implies !((#[trigger] ar[j]) is RLE) by {
                if j < a.len() {
                    assert(ar[j] == a[j]);
                } else {
                    assert(ar[j] == run[j - a.len()]);
                }
            }
        }
        assert(ar.last() == x);
        lemma_rle_encode_concat(ar, b);
    } else {
        assert(ar + b =~= ar);
        assert(rle_encode(b) == b);
        assert(rle_encode(ar) + rle_encode(b) =~= rle_encode(ar));
    }
}

/// In the coding of a sequence without run counts, every count follows a
/// literal event or dictionary index, never a reference.
pub proof fn lemma_rle_counts_follow_events(s: Seq<Symbol>)
    requires
        rle_free(s),
    ensures
        forall|j: int|
            0 <= j < rle_encode(s).len() && (#[trigger] rle_encode(s)[j]) is RLE ==> j >= 1
                && rle_eligible(rle_encode(s)[j - 1]),
    decreases s.len(),
{
    if s.len() > 0 {
        let p = s.drop_last();
        assert(rle_free(p)) by {
            assert forall|j: int| 0 <= j < p.len() implies !((#[trigger] p[j]) is RLE) by {
                assert(p[j] == s[j]);
            }
        }
        lemma_rle_counts_follow_events(p);
        assert(!(s[s.len() - 1] is RLE));
        let r = rle_encode(p);
        let m = rle_merge(r, s.last());
        assert forall|j: int| 0 <= j < m.len() && (#[trigger] m[j]) is RLE implies j >= 1
            && rle_eligible(m[j - 1]) by {
            if j < r.len() - 1 {
                assert(m[j] == r[j]);
                assert(m[j - 1] == r[j - 1]);
            } else if j == r.len() - 1 {
                assert(m[j - 1] == r[j - 1]);
            }
        }
    }
}

/// A reference is never folded into a run: it is kept as it stands.
pub proof fn lemma_rle_keeps_references(s: Seq<Symbol>, k: u8)
    ensures
        rle_encode(s.push(Symbol::Reference(k))) == rle_encode(s).push(Symbol::Reference(k)),
{
    assert(s.push(Symbol::Reference(k)).drop_last() =~= s);
}

/// Run-length coding keeps the first symbol.
proof fn lemma_rle_encode_first(s: Seq<Symbol>)
    requires
        s.len() > 0,
    ensures
        rle_encode(s).len() > 0,
        rle_encode(s)[0] == s[0],
    decreases s.len(),
{
    let p = s.drop_last();
    if s.len() > 1 {
        lemma_rle_encode_first(p);
        assert(p[0] == s[0]);
        let r = rle_encode(p);
        assert(rle_merge(r, s.last())[0] == r[0]);
    } else {
        assert(p =~= Seq::<Symbol>::empty());
        assert(rle_encode(p) == p);
        assert(rle_merge(p, s.last()) =~= seq![s.last()]);
    }
}

proof fn lemma_rle_encode_ok(t: Tables, s: Seq<Symbol>)
    requires
        symbols_ok(t, s, true),
    ensures
        symbols_ok(t, rle_encode(s), true),
        rle_encode(s).len() <= s.len(),
    decreases s.len(),
{
    if s.len() > 0 {
        let p = s.drop_last();
        assert forall|j: int| 0 <= j < p.len() implies symbol_ok(t, #[trigger] p[j], true) by {
            assert(p[j] == s[j]);
        }
        lemma_rle_encode_ok(t, p);
        let r = rle_encode(p);
        let m = rle_merge(r, s.last());
        assert(symbol_ok(t, s[s.len() - 1], true));
        assert forall|j: int| 0 <= j < m.len() implies symbol_ok(t, #[trigger] m[j], true) by {
            if j < r.len() - 1 {
                assert(m[j] == r[j]);
            }
        }
    }
}

impl EventStream {
    /// Appends the events of one symbol that is not a reference.
    fn expand_symbol(&self, result: &mut Vec<Symbol>, x: Symbol)
        requires
            symbol_ok(self.tables(), x, false),
        ensures
            final(result)@ == step_flat(self.tables(), old(result)@, x),
    {
        match x {
            Symbol::Dictionary(index) => {
                result.push(Symbol::RowEvent(self.row_dict[index as usize].0));
            },
            Symbol::RowEvent(row) => {
                result.push(Symbol::RowEvent(row));
            },
            Symbol::RLE(length) => {
                if result.len() > 0 {
                    let repeated = result[result.len() - 1];
                    let ghost acc = old(result)@;
                    let mut j: u16 = 0;
                    while j < length
                        invariant
                            acc.len() > 0,
                            repeated == acc.last(),
                            j <= length,
                            result@ == acc + Seq::new(j as nat, |m: int| acc.last()),
                        decreases length - j,
                    {
                        result.push(repeated);
                        j += 1;
                        assert(result@ =~= acc + Seq::new(j as nat, |m: int| acc.last()));
                    }
                }
            },
            _ => {},
        }
    }

    /// The events that the stream stands for, expanded in one forward pass.
    /// A reference expands its slice in place, one level deep.
    pub fn unpack_symbols(&self) -> (r: Vec<Symbol>)
        requires
            self.wf(),
        ensures
            r@ == self.decoded(),
    {
        let ghost t = self.tables();
        let mut result: Vec<Symbol> = Vec::new();
        let mut i: usize = 0;
        while i < self.symbols.len()
            invariant
                self.wf(),
                t == self.tables(),
                0 <= i <= self.symbols@.len(),
                result@ == expand(t, Seq::empty(), self.symbols@.subrange(0, i as int)),
            decreases self.symbols@.len() - i,
        {
            let x = self.symbols[i];
            proof {
                lemma_expand_prefix(t, Seq::empty(), self.symbols@, i as int);
                assert(symbol_ok(t, self.symbols@[i as int], true));
            }
            match x {
                Symbol::Reference(k) => {
                    let (off, len) = self.slices[k as usize];
                    let ghost acc = result@;
                    let ghost content = slice_of(t, k as int);
                    assert(off + len <= self.slice_dict@.len());
                    let mut j: u16 = 0;
                    while j < len
                        invariant
                            self.wf(),
                            t == self.tables(),
                            off + len <= self.slice_dict@.len(),
                            content == self.slice_dict@.subrange(off as int, off + len),
                            j <= len,
                            result@ == flat(t, acc, content.subrange(0, j as int)),
                        decreases len - j,
                    {
                        let y = self.slice_dict[(off as usize) + (j as usize)];
                        proof {
                            lemma_flat_prefix(t, acc, content, j as int);
                            assert(content[j as int] == y);
                            assert(symbol_ok(t, self.slice_dict@[off + j], false));
                        }
                        self.expand_symbol(&mut result, y);
                        j += 1;
                    }
                    assert(content.subrange(0, len as int) =~= content);
                },
                _ => {
                    self.expand_symbol(&mut result, x);
                },
            }
            i += 1;
        }
        assert(self.symbols@.subrange(0, i as int) =~= self.symbols@);
        result
    }

    /// Folds each run of equal literal or dictionary symbols into the symbol and
    /// an RLE count of its repeats. References are never folded.
    pub fn compress_rows_rle(&mut self)
        requires
            old(self).wf(),
        ensures
            final(self).wf(),
            final(self).symbols@ == rle_encode(old(self).symbols@),
            final(self).tables() == old(self).tables(),
            final(self).index == old(self).index,
            final(self).decoded() == old(self).decoded(),
    {
        let ghost s = self.symbols@;
        let mut result: Vec<Symbol> = Vec::new();
        let mut i: usize = 0;
        while i < self.symbols.len()
            invariant
                self.symbols@ == s,
                0 <= i <= s.len(),
                result@ == rle_encode(s.subrange(0, i as int)),
            decreases s.len() - i,
        {
            let x = self.symbols[i];
            let n = result.len();
            proof {
                assert(s.subrange(0, i + 1).drop_last() =~= s.subrange(0, i as int));
            }
            let mut merged = false;
            if x.is_row_event_or_dictionary() && n >= 2 && result[n - 2] == x {
                match result[n - 1] {
                    Symbol::RLE(count) => {
                        if count < 0xFFFF {
                            result.set(n - 1, Symbol::RLE(count + 1));
                            merged = true;
                        }
                    },
                    _ => {},
                }
            }
            if !merged {
                if x.is_row_event_or_dictionary() && n >= 1 && result[n - 1] == x {
                    result.push(Symbol::RLE(1));
                } else {
                    result.push(x);
                }
            }
            i += 1;
        }
        proof {
            assert(s.subrange(0, i as int) =~= s);
            lemma_rle_encode_decode(self.tables(), s);
            lemma_rle_encode_ok(self.tables(), s);
            if s.len() > 0 {
                lemma_rle_encode_first(s);
            }
        }
        self.symbols = result;
    }
}

/// The row dictionary as literal events.
pub open spec fn dict_symbols(rd: Seq<(Row, u16)>) -> Seq<Symbol> {
    Seq::new(rd.len(), |i: int| Symbol::RowEvent(rd[i].0))
}

/// The slice table's bytes: offset as two bytes, length less the minimum as one.
pub open spec fn table_bytes(sl: Seq<(u16, u16)>) -> Seq<u8>
    decreases sl.len(),
{
    if sl.len() == 0 {
        Seq::empty()
    } else {
        let (off, len) = sl.last();
        table_bytes(sl.drop_last()) + le16(off) + seq![(len - MIN_SLICE_LEN) as u8]
    }
}

proof fn lemma_table_bytes_len(sl: Seq<(u16, u16)>)
    ensures
        table_bytes(sl).len() == 3 * sl.len(),
    decreases sl.len(),
{
    if sl.len() > 0 {
        lemma_table_bytes_len(sl.drop_last());
    }
}

impl EventStream {
    /// The bytes of the stream's block: row dictionary, slice dictionary and
    /// slice table, each after a count byte, then the symbols.
    pub open spec fn serialized(&self) -> Seq<u8> {
        seq![self.row_dict@.len() as u8] + encode_all(dict_symbols(self.row_dict@)) + seq![
            self.slice_dict@.len() as u8,
        ] + encode_all(self.slice_dict@) + seq![self.slices@.len() as u8] + table_bytes(
            self.slices@,
        ) + encode_all(self.symbols@)
    }

    proof fn lemma_serialized_len(&self)
        requires
            self.wf(),
        ensures
            self.serialized().len() == 3 + encode_all(dict_symbols(self.row_dict@)).len()
                + encode_all(self.slice_dict@).len() + 3 * self.slices@.len() + encode_all(
                self.symbols@,
            ).len(),
            self.serialized().len() <= 0x7000_0000,
    {
        lemma_table_bytes_len(self.slices@);
        lemma_encode_all_len(dict_symbols(self.row_dict@));
        lemma_encode_all_len(self.slice_dict@);
        lemma_encode_all_len(self.symbols@);
    }

    /// The number of bytes that `write` produces.
    pub fn get_total_encoding_size(&self) -> (r: usize)
        requires
            self.wf(),
        ensures
            r == self.serialized().len(),
    {
        proof {
            self.lemma_serialized_len();
        }
        let mut result: usize = 3 + self.slices.len() * 3;
        let mut i: usize = 0;
        while i < self.row_dict.len()
            invariant
                self.wf(),
                0 <= i <= self.row_dict@.len(),
                result == 3 + 3 * self.slices@.len() + encode_all(
                    dict_symbols(self.row_dict@).subrange(0, i as int),
                ).len(),
            decreases self.row_dict@.len() - i,
        {
            let ghost ds = dict_symbols(self.row_dict@);
            proof {
                assert(ds.subrange(0, i + 1).drop_last() =~= ds.subrange(0, i as int));
                lemma_encode_all_prefix(ds, i + 1);
                lemma_encode_all_len(ds);
            }
            let x = Symbol::RowEvent(self.row_dict[i].0);
            result = result + x.encoding_size();
            i += 1;
        }
        assert(dict_symbols(self.row_dict@).subrange(0, i as int) =~= dict_symbols(
            self.row_dict@,
        ));
        result = result + self.slice_dict.as_slice().encoding_size();
        result = result + self.symbols.as_slice().encoding_size();
        result
    }

    /// Writes the stream's block and returns how many bytes it took.
    pub fn write(&self, bw: &mut BinaryWriter) -> (r: usize)
        requires
            self.wf(),
        ensures
            final(bw)@ == old(bw)@ + self.serialized(),
            r == self.serialized().len(),
    {
        let start_pos = bw.pos();
        proof {
            self.lemma_serialized_len();
        }
        // Row dictionary
        bw.write_u8(self.row_dict.len() as u8);
        let mut i: usize = 0;
        let ghost ds = dict_symbols(self.row_dict@);
        let ghost base = bw@;
        while i < self.row_dict.len()
            invariant
                self.wf(),
                ds == dict_symbols(self.row_dict@),
                0 <= i <= self.row_dict@.len(),
                bw@ == base + encode_all(ds.subrange(0, i as int)),
            decreases self.row_dict@.len() - i,
        {
            let symbol = Symbol::RowEvent(self.row_dict[i].0);
            symbol.write(bw);
            proof {
                assert(ds.subrange(0, i + 1).drop_last() =~= ds.subrange(0, i as int));
                assert(bw@ =~= base + encode_all(ds.subrange(0, i + 1)));
            }
            i += 1;
        }
        assert(ds.subrange(0, i as int) =~= ds);
        // Slice dictionary
        bw.write_u8(self.slice_dict.len() as u8);
        proof {
            assert forall|j: int| 0 <= j < self.slice_dict@.len() implies (
            #[trigger] self.slice_dict@[j]).in_range() by {
                assert(symbol_ok(self.tables(), self.slice_dict@[j], false));
            }
        }
        write_symbols(bw, self.slice_dict.as_slice());
        // Slice table
        bw.write_u8(self.slices.len() as u8);
        let ghost base2 = bw@;
        let mut k: usize = 0;
        while k < self.slices.len()
            invariant
                self.wf(),
                0 <= k <= self.slices@.len(),
                bw@ == base2 + table_bytes(self.slices@.subrange(0, k as int)),
            decreases self.slices@.len() - k,
        {
            let (off, len) = self.slices[k];
            assert(MIN_SLICE_LEN <= len <= MIN_SLICE_LEN + 255) by {
                let e = self.slices@[k as int];
            }
            bw.write_u16(off);
            bw.write_u8((len - 4) as u8);
            proof {
                assert(self.slices@.subrange(0, k + 1).drop_last() =~= self.slices@.subrange(
                    0,
                    k as int,
                ));
                assert(bw@ =~= base2 + table_bytes(self.slices@.subrange(0, k + 1)));
            }
            k += 1;
        }
        assert(self.slices@.subrange(0, k as int) =~= self.slices@);
        // Symbols
        proof {
            assert forall|j: int| 0 <= j < self.symbols@.len() implies (
            #[trigger] self.symbols@[j]).in_range() by {
                assert(symbol_ok(self.tables(), self.symbols@[j], true));
            }
        }
        write_symbols(bw, self.symbols.as_slice());
        assert(bw@ =~= old(bw)@ + self.serialized());
        bw.pos() - start_pos
    }
}

/// No symbol of `s` is a dictionary index.
pub open spec fn dict_free(s: Seq<Symbol>) -> bool {
    forall|j: int| 0 <= j < s.len() ==> !((#[trigger] s[j]) is Dictionary)
}

proof fn lemma_flat_dict_free(t1: Tables, t2: Tables, acc: Seq<Symbol>, s: Seq<Symbol>)
    requires
        dict_free(s),
    ensures
        flat(t1, acc, s) == flat(t2, acc, s),
    decreases s.len(),
{
    if s.len() > 0 {
        let p = s.drop_last();
        assert(dict_free(p)) by {
            assert forall|j: int| 0 <= j < p.len() implies !((#[trigger] p[j]) is Dictionary) by {
                assert(p[j] == s[j]);
            }
        }
        lemma_flat_dict_free(t1, t2, acc, p);
        assert(!(s[s.len() - 1] is Dictionary));
    }
}

/// Where no symbol, and no slice that one refers to, is a dictionary index,
/// the row dictionary does not matter.
proof fn lemma_expand_dict_free(t1: Tables, t2: Tables, acc: Seq<Symbol>, s: Seq<Symbol>)
    requires
        t1.slices == t2.slices,
        t1.slice_dict == t2.slice_dict,
        dict_free(s),
        dict_free(t1.slice_dict),
        forall|k: int|
            0 <= k < t1.slices.len() ==> {
                let (off, len) = #[trigger] t1.slices[k];
                off + len <= t1.slice_dict.len()
            },
        forall|j: int| 0 <= j < s.len() && (#[trigger] s[j]) is Reference ==> s[j]->Reference_0
            < t1.slices.len(),
    ensures
        expand(t1, acc, s) == expand(t2, acc, s),
    decreases s.len(),
{
    if s.len() > 0 {
        let p = s.drop_last();
        assert forall|j: int| 0 <= j < p.len() implies !((#[trigger] p[j]) is Dictionary) by {
            assert(p[j] == s[j]);
        }
        assert forall|j: int| 0 <= j < p.len() && (#[trigger] p[j]) is Reference implies p[j]->Reference_0
            < t1.slices.len() by {
            assert(p[j] == s[j]);
        }
        lemma_expand_dict_free(t1, t2, acc, p);
        let x = s[s.len() - 1];
        assert(!(x is Dictionary));
        if let Symbol::Reference(k) = x {
            let c = slice_of(t1, k as int);
            let (off, len) = t1.slices[k as int];
            assert(off + len <= t1.slice_dict.len());
            assert forall|j: int| 0 <= j < c.len() implies !((#[trigger] c[j]) is Dictionary) by {
                assert(c[j] == t1.slice_dict[off + j]);
            }
            lemma_flat_dict_free(t1, t2, expand(t1, acc, p), c);
        }
    }
}

/// `b` is `a` with some literal events replaced by dictionary indices of
/// the same row.
pub open spec fn dict_substituted(rd: Seq<(Row, u16)>, a: Seq<Symbol>, b: Seq<Symbol>) -> bool {
    &&& a.len() == b.len()
    &&& forall|j: int|
        0 <= j < a.len() ==> #[trigger] b[j] == a[j] || (a[j] is RowEvent && b[j] is Dictionary
            && b[j]->Dictionary_0 < rd.len() && rd[b[j]->Dictionary_0 as int].0 == a[j]->RowEvent_0)
}

proof fn lemma_expand_substituted(t: Tables, acc: Seq<Symbol>, a: Seq<Symbol>, b: Seq<Symbol>)
    requires
        dict_substituted(t.row_dict, a, b),
    ensures
        expand(t, acc, a) == expand(t, acc, b),
    decreases a.len(),
{
    if a.len() > 0 {
        assert(dict_substituted(t.row_dict, a.drop_last(), b.drop_last())) by {
            assert forall|j: int| 0 <= j < a.len() - 1 implies #[trigger] b.drop_last()[j]
                == a.drop_last()[j] || (a.drop_last()[j] is RowEvent && b.drop_last()[j] is Dictionary
                && b.drop_last()[j]->Dictionary_0 < t.row_dict.len() && t.row_dict[b.drop_last()[j]->Dictionary_0 as int].0
                == a.drop_last()[j]->RowEvent_0) by {
                assert(b[j] == b.drop_last()[j]);
                assert(a[j] == a.drop_last()[j]);
            }
        }
        lemma_expand_substituted(t, acc, a.drop_last(), b.drop_last());
        assert(b[b.len() - 1] == a[a.len() - 1] || (a[a.len() - 1] is RowEvent
            && b[b.len() - 1] is Dictionary));
    }
}

/// `d` holds the most frequent repeated non-empty literal events of `s`, most
/// frequent first, each with its count, at most `ROW_DICT_CAP` of them; a
/// repeated row is left out only when the dictionary is full of rows at
/// least as frequent.
pub open spec fn dict_chosen(s: Seq<Symbol>, d: Seq<(Row, u16)>) -> bool {
    &&& d.len() <= ROW_DICT_CAP
    &&& rows_distinct(d)
    &&& forall|i: int|
        0 <= i < d.len() ==> occurrences(s, (#[trigger] d[i]).0) > 1 && !d[i].0.spec_is_empty()
            && d[i].1 == sat16(occurrences(s, d[i].0))
    &&& forall|i: int, k: int|
        0 <= i < k < d.len() ==> occurrences(s, d[i].0) >= occurrences(s, d[k].0)
    &&& forall|r: Row|
        occurrences(s, r) > 1 && !r.spec_is_empty() && (forall|i: int|
            0 <= i < d.len() ==> (#[trigger] d[i]).0 != r) ==> d.len() == ROW_DICT_CAP && forall|
            i: int,
        |
            0 <= i < d.len() ==> occurrences(s, (#[trigger] d[i]).0) >= occurrences(s, r)
}

/// `b` is `a` with every literal event whose row is in `d` replaced by the
/// index of that row.
pub open spec fn dict_applied(d: Seq<(Row, u16)>, a: Seq<Symbol>, b: Seq<Symbol>) -> bool {
    &&& dict_substituted(d, a, b)
    &&& forall|j: int|
        0 <= j < a.len() && (#[trigger] a[j]) is RowEvent && (exists|i: int|
            0 <= i < d.len() && d[i].0 == a[j]->RowEvent_0) ==> b[j] is Dictionary
}

impl EventStream {
    /// The index of `row` in the row dictionary, if it is there.
    fn find_in_dict(&self, row: Row) -> (r: Option<usize>)
        ensures
            match r {
                Some(i) => i < self.row_dict@.len() && self.row_dict@[i as int].0 == row,
                None => forall|i: int|
                    0 <= i < self.row_dict@.len() ==> (#[trigger] self.row_dict@[i]).0 != row,
            },
    {
        let mut i: usize = 0;
        while i < self.row_dict.len()
            invariant
                0 <= i <= self.row_dict@.len(),
                forall|k: int| 0 <= k < i ==> (#[trigger] self.row_dict@[k]).0 != row,
            decreases self.row_dict@.len() - i,
        {
            if self.row_dict[i].0 == row {
                return Some(i);
            }
            i += 1;
        }
        None
    }

    /// Builds the row dictionary from the most frequent repeated literal
    /// events, most frequent first, and replaces each of their occurrences by
    /// its index.
    pub fn compress_with_dict(&mut self)
        requires
            old(self).wf(),
            old(self).row_dict@.len() == 0,
        ensures
            final(self).wf(),
            final(self).decoded() == old(self).decoded(),
            final(self).index == old(self).index,
            final(self).slice_dict == old(self).slice_dict,
            final(self).slices == old(self).slices,
            dict_chosen(old(self).symbols@, final(self).row_dict@),
            dict_applied(final(self).row_dict@, old(self).symbols@, final(self).symbols@),
    {
        let ghost s = self.symbols@;
        let ghost t1 = self.tables();
        let mut counts: Vec<(Row, usize)> = Vec::new();
        count_row_events(self.symbols.as_slice(), &mut counts);
        let sel = select_frequent(&counts);
        let ghost c = counts@;
        let count_len = counts.len();
        let mut dict: Vec<(Row, u16)> = Vec::new();
        let mut i: usize = 0;
        while i < sel.len()
            invariant
                0 <= i <= sel@.len(),
                c == counts@,
                selection_ok(c, sel@),
                dict@.len() == i,
                forall|k: int|
                    0 <= k < i ==> (#[trigger] dict@[k]).0 == c[sel@[k] as int].0 && dict@[k].1
                        == sat16(c[sel@[k] as int].1 as nat),
            decreases sel@.len() - i,
        {
            let (row, count) = counts[sel[i]];
            let stored: u16 = if count > 0xFFFF { 0xFFFF } else { count as u16 };
            dict.push((row, stored));
            i += 1;
        }
        proof {
            assert forall|r: Row| tally(c, r) == occurrences(s, r) by {
                assert(tally(Seq::<(Row, usize)>::empty(), r) == 0);
            }
            assert forall|k: int| 0 <= k < dict@.len() implies occurrences(s, (#[trigger] dict@[k]).0)
                == c[sel@[k] as int].1 by {
                lemma_tally_entry(c, sel@[k] as int);
            }
        }
        self.row_dict = dict;
        let ghost t2 = self.tables();
        let mut result: Vec<Symbol> = Vec::new();
        let mut j: usize = 0;
        while j < self.symbols.len()
            invariant
                self.symbols@ == s,
                self.row_dict@ == dict@,
                0 <= j <= s.len(),
                result@.len() == j,
                forall|m: int|
                    0 <= m < j ==> #[trigger] result@[m] == s[m] || (s[m] is RowEvent
                        && result@[m] is Dictionary && result@[m]->Dictionary_0 < dict@.len()
                        && dict@[result@[m]->Dictionary_0 as int].0 == s[m]->RowEvent_0),
                forall|m: int|
                    0 <= m < j && (#[trigger] s[m]) is RowEvent && (exists|q: int|
                        0 <= q < dict@.len() && dict@[q].0 == s[m]->RowEvent_0) ==> result@[m] is Dictionary,
                dict@.len() <= ROW_DICT_CAP,
            decreases s.len() - j,
        {
            let x = self.symbols[j];
            match x {
                Symbol::RowEvent(row) => {
                    match self.find_in_dict(row) {
                        Some(p) => {
                            result.push(Symbol::Dictionary(p as u8));
                        },
                        None => {
                            result.push(x);
                        },
                    }
                },
                _ => {
                    result.push(x);
                },
            }
            j += 1;
        }
        self.symbols = result;
        proof {
            let d = dict@;
            assert(rows_distinct(d)) by {
                assert forall|a: int, b: int| 0 <= a < b < d.len() implies d[a].0 != d[b].0 by {
                    assert(rows_distinct(c));
                    assert(sel@[a] != sel@[b]);
                    assert(sel@[a] < c.len() && sel@[b] < c.len());
                }
            }
            assert forall|r: Row|
                occurrences(s, r) > 1 && !r.spec_is_empty() && (forall|i: int|
                    0 <= i < d.len() ==> (#[trigger] d[i]).0 != r) implies d.len() == ROW_DICT_CAP
                && forall|i: int|
                0 <= i < d.len() ==> occurrences(s, (#[trigger] d[i]).0) >= occurrences(s, r) by {
                lemma_tally_present(c, r);
                assert(c.len() == count_len);
                let q = choose|q: int| 0 <= q < c.len() && (#[trigger] c[q]).0 == r;
                lemma_tally_entry(c, q);
                if sel@.contains(q as usize) {
                    let w = choose|w: int| 0 <= w < sel@.len() && sel@[w] == q as usize;
                    assert(d[w].0 == c[sel@[w] as int].0);
                    assert(sel@[w] as int == q);
                    assert(d[w].0 == r);
                }
                assert(qualifies(c[q]));
            }
            // The old stream held no dictionary index, as its dictionary was empty.
            assert(dict_free(s)) by {
                assert forall|m: int| 0 <= m < s.len() implies !((#[trigger] s[m]) is Dictionary) by {
                    assert(symbol_ok(t1, s[m], true));
                }
            }
            assert(dict_free(t1.slice_dict)) by {
                assert forall|m: int| 0 <= m < t1.slice_dict.len() implies !((
                #[trigger] t1.slice_dict[m]) is Dictionary) by {
                    assert(symbol_ok(t1, t1.slice_dict[m], false));
                }
            }
            assert forall|m: int| 0 <= m < s.len() && (#[trigger] s[m]) is Reference implies s[m]->Reference_0
                < t1.slices.len() by {
                assert(symbol_ok(t1, s[m], true));
            }
            lemma_expand_dict_free(t1, t2, Seq::empty(), s);
            lemma_expand_substituted(t2, Seq::empty(), s, self.symbols@);
            assert forall|m: int| 0 <= m < self.symbols@.len() implies symbol_ok(
                t2,
                #[trigger] self.symbols@[m],
                true,
            ) by {
                assert(symbol_ok(t1, s[m], true));
            }
            assert forall|m: int| 0 <= m < self.slice_dict@.len() implies symbol_ok(
                t2,
                #[trigger] self.slice_dict@[m],
                false,
            ) by {
                assert(symbol_ok(t1, self.slice_dict@[m], false));
            }
        }
    }
}

/// `f` is what the three passes make of a stream with these symbols and
/// tables: the run-length stage is `rle_encode` of the symbols, the row
/// dictionary is chosen over that stage and applied to it, and the slice
/// pass then ran until no repeat was left, the table was full or the stream
/// was too short. New slices have the search's lengths; old table entries
/// stay as they were.
pub open spec fn compressed(symbols: Seq<Symbol>, tables: Tables, index: usize, f: EventStream) -> bool {
    let mid = rle_encode(symbols);
    let d = f.row_dict@;
    &&& f.wf()
    &&& f.index == index
    &&& f.decoded() == decode(tables, symbols)
    &&& dict_chosen(mid, d)
    &&& exists|sub: Seq<Symbol>| #[trigger] dict_applied(d, mid, sub) && f.symbols@.len() <= sub.len()
    &&& search_exhausted(f)
    &&& new_slices_bounded(tables.slices.len() as int, f.slices@)
    &&& tables.slice_dict.len() <= f.slice_dict@.len()
    &&& f.slice_dict@.subrange(0, tables.slice_dict.len() as int) == tables.slice_dict
    &&& tables.slices.len() <= f.slices@.len()
    &&& f.slices@.subrange(0, tables.slices.len() as int) == tables.slices
}

impl EventStream {
    /// Runs the three passes in order: run-length, row dictionary, repeated
    /// slices. The stream still decodes to the same events.
    pub fn compress(&mut self)
        requires
            old(self).wf(),
            old(self).row_dict@.len() == 0,
        ensures
            compressed(old(self).symbols@, old(self).tables(), old(self).index, *final(self)),
            final(self).decoded() == old(self).decoded(),
            final(self).symbols@.len() <= old(self).symbols@.len(),
    {
        self.compress_rows_rle();
        proof {
            crate::event_stream::lemma_rle_encode_len(old(self).symbols@);
        }
        let ghost mid = self.symbols@;
        let ghost t_mid = self.tables();
        self.compress_with_dict();
        let ghost sub = self.symbols@;
        let ghost d = self.row_dict@;
        let ghost t_sub = self.tables();
        self.compress_repeated_parts();
        proof {
            assert(self.row_dict@ == d);
            assert(dict_applied(d, mid, sub));
            assert(self.symbols@.len() <= sub.len());
            let t0 = old(self).tables();
            let t = self.tables();
            assert(t.slice_dict.subrange(0, t0.slice_dict.len() as int) =~= t0.slice_dict) by {
                assert forall|j: int| 0 <= j < t0.slice_dict.len() implies t.slice_dict[j] == t0.slice_dict[j] by {
                    assert(t.slice_dict[j] == t.slice_dict.subrange(0, t_sub.slice_dict.len() as int)[j]);
                }
            }
            assert(t.slices.subrange(0, t0.slices.len() as int) =~= t0.slices) by {
                assert forall|j: int| 0 <= j < t0.slices.len() implies t.slices[j] == t0.slices[j] by {
                    assert(t.slices[j] == t.slices.subrange(0, t_sub.slices.len() as int)[j]);
                }
            }
        }
    }
}

/// Tables with nothing in them.
pub open spec fn empty_tables() -> Tables {
    Tables { row_dict: Seq::empty(), slice_dict: Seq::empty(), slices: Seq::empty() }
}

/// Builds a channel's stream from literal events and compresses it.
pub fn compress_events(index: usize, events: Vec<Symbol>) -> (r: EventStream)
    requires
        all_row_events(events@),
        events@.len() <= MAX_EVENTS,
    ensures
        compressed(events@, empty_tables(), index, r),
        r.decoded() == events@,
{
    let mut stream = EventStream::from_symbols(index, events);
    assert(stream.tables() == empty_tables()) by {
        assert(stream.row_dict@ =~= Seq::<(Row, u16)>::empty());
        assert(stream.slice_dict@ =~= Seq::<Symbol>::empty());
        assert(stream.slices@ =~= Seq::<(u16, u16)>::empty());
    }
    stream.compress();
    stream
}

/// Run-length coding never lengthens a sequence.
pub proof fn lemma_rle_encode_len(s: Seq<Symbol>)
    ensures
        rle_encode(s).len() <= s.len(),
    decreases s.len(),
{
    if s.len() > 0 {
        lemma_rle_encode_len(s.drop_last());
    }
}

/// How often byte `b` occurs in `s`.
pub open spec fn byte_count(s: Seq<u8>, b: int) -> nat
    decreases s.len(),
{
    if s.len() == 0 {
        0
    } else {
        byte_count(s.drop_last(), b) + (if s.last() == b { 1nat } else { 0 })
    }
}

impl EventStream {
    /// Adds how often each literal event occurs in the stream onto `event_counts`.
    pub fn count_row_events(&self, event_counts: &mut Vec<(Row, usize)>)
        requires
            rows_distinct(old(event_counts)@),
            forall|j: int|
                0 <= j < old(event_counts)@.len() ==> (#[trigger] old(event_counts)@[j]).1
                    + self.symbols@.len() <= usize::MAX,
        ensures
            rows_distinct(final(event_counts)@),
            forall|r: Row|
                tally(final(event_counts)@, r) == tally(old(event_counts)@, r) + occurrences(
                    self.symbols@,
                    r,
                ),
            final(event_counts)@.len() >= old(event_counts)@.len(),
            forall|j: int|
                0 <= j < old(event_counts)@.len() ==> (#[trigger] final(event_counts)@[j]).0 == old(
                    event_counts,
                )@[j].0,
            forall|j: int|
                old(event_counts)@.len() <= j < final(event_counts)@.len() ==> occurrences(
                    self.symbols@,
                    (#[trigger] final(event_counts)@[j]).0,
                ) >= 1,
    {
        count_row_events(self.symbols.as_slice(), event_counts);
    }

    /// Adds how often each byte value occurs in the written symbols onto `freqs`.
    pub fn count_byte_freqs(&self, freqs: &mut [usize; 256])
        requires
            self.wf(),
            forall|b: int|
                0 <= b < 256 ==> old(freqs)@[b] + encode_all(self.symbols@).len() <= usize::MAX,
        ensures
            forall|b: int|
                0 <= b < 256 ==> final(freqs)@[b] == old(freqs)@[b] + byte_count(
                    encode_all(self.symbols@),
                    b,
                ),
    {
        let mut bw = BinaryWriter::new();
        proof {
            assert forall|j: int| 0 <= j < self.symbols@.len() implies (
            #[trigger] self.symbols@[j]).in_range() by {
                assert(symbol_ok(self.tables(), self.symbols@[j], true));
            }
        }
        write_symbols(&mut bw, self.symbols.as_slice());
        let data = bw.into_bytes();
        let ghost e = encode_all(self.symbols@);
        assert(data@ =~= e);
        let mut i: usize = 0;
        while i < data.len()
            invariant
                data@ == e,
                0 <= i <= e.len(),
                forall|b: int| 0 <= b < 256 ==> old(freqs)@[b] + e.len() <= usize::MAX,
                forall|b: int|
                    0 <= b < 256 ==> freqs@[b] == old(freqs)@[b] + byte_count(
                        e.subrange(0, i as int),
                        b,
                    ),
            decreases e.len() - i,
        {
            proof {
                assert(e.subrange(0, i + 1).drop_last() =~= e.subrange(0, i as int));
                lemma_byte_count_le(e.subrange(0, i + 1), data@[i as int] as int);
            }
            let b = data[i] as usize;
            freqs[b] = freqs[b] + 1;
            i += 1;
        }
        assert(e.subrange(0, i as int) =~= e);
    }
}

proof fn lemma_byte_count_le(s: Seq<u8>, b: int)
    ensures
        byte_count(s, b) <= s.len(),
    decreases s.len(),
{
    if s.len() > 0 {
        lemma_byte_count_le(s.drop_last(), b);
    }
}

} // verus!
