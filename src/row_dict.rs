//! Counting literal events and choosing the rows of the row dictionary.
use crate::event_stream::ROW_DICT_CAP;
use crate::row::Row;
use crate::symbol::Symbol;
use vstd::prelude::*;

verus! {

/// How often the literal event `r` occurs in `s`.
pub open spec fn occurrences(s: Seq<Symbol>, r: Row) -> nat
    decreases s.len(),
{
    if s.len() == 0 {
        0
    } else {
        occurrences(s.drop_last(), r) + (if s.last() == Symbol::RowEvent(r) { 1nat } else { 0 })
    }
}

/// The sum of the counts that `v` keeps for row `r`.
pub open spec fn tally(v: Seq<(Row, usize)>, r: Row) -> nat
    decreases v.len(),
{
    if v.len() == 0 {
        0
    } else {
        tally(v.drop_last(), r) + (if v.last().0 == r { v.last().1 as nat } else { 0 })
    }
}

/// No row occurs twice.
pub open spec fn rows_distinct<T>(v: Seq<(Row, T)>) -> bool {
    forall|i: int, j: int| 0 <= i < j < v.len() ==> v[i].0 != v[j].0
}

/// A count worth a dictionary entry: repeated, and not the empty row, which
/// already takes a single byte.
pub open spec fn qualifies(e: (Row, usize)) -> bool {
    e.1 > 1 && !e.0.spec_is_empty()
}

/// A count as stored in the dictionary, saturated at the largest u16.
pub open spec fn sat16(n: nat) -> u16 {
    if n > 0xFFFF { 0xFFFF } else { n as u16 }
}

proof fn lemma_tally_update(v: Seq<(Row, usize)>, j: int, r: Row)
    requires
        0 <= j < v.len(),
        v[j].1 < usize::MAX,
    ensures
        tally(v.update(j, (v[j].0, (v[j].1 + 1) as usize)), r) == tally(v, r) + (if v[j].0 == r {
            1nat
        } else {
            0
        }),
    decreases v.len(),
{
    let w = v.update(j, (v[j].0, (v[j].1 + 1) as usize));
    if j < v.len() - 1 {
        assert(w.drop_last() =~= v.drop_last().update(j, (v[j].0, (v[j].1 + 1) as usize)));
        lemma_tally_update(v.drop_last(), j, r);
    } else {
        assert(w.drop_last() =~= v.drop_last());
    }
}

proof fn lemma_tally_absent(v: Seq<(Row, usize)>, r: Row)
    requires
        forall|j: int| 0 <= j < v.len() ==> (#[trigger] v[j]).0 != r,
    ensures
        tally(v, r) == 0,
    decreases v.len(),
{
    if v.len() > 0 {
        lemma_tally_absent(v.drop_last(), r);
    }
}

/// With distinct rows, a row's tally is the count next to it.
pub proof fn lemma_tally_entry(v: Seq<(Row, usize)>, j: int)
    requires
        rows_distinct(v),
        0 <= j < v.len(),
    ensures
        tally(v, v[j].0) == v[j].1,
    decreases v.len(),
{
    let p = v.drop_last();
    if j < v.len() - 1 {
        lemma_tally_entry(p, j);
    } else {
        lemma_tally_absent(p, v[j].0);
    }
}

/// A row with a positive tally has an entry.
pub proof fn lemma_tally_present(v: Seq<(Row, usize)>, r: Row)
    requires
        tally(v, r) > 0,
    ensures
        exists|j: int| 0 <= j < v.len() && (#[trigger] v[j]).0 == r,
{
    if forall|j: int| 0 <= j < v.len() ==> (#[trigger] v[j]).0 != r {
        lemma_tally_absent(v, r);
    }
}

/// Adds one to the count of `row`, or appends it with a count of one.
fn count_row(counts: &mut Vec<(Row, usize)>, row: Row)
    requires
        rows_distinct(old(counts)@),
        forall|j: int| 0 <= j < old(counts)@.len() ==> (#[trigger] old(counts)@[j]).1 < usize::MAX,
    ensures
        rows_distinct(final(counts)@),
        forall|r: Row| tally(final(counts)@, r) == tally(old(counts)@, r) + (if r == row {
            1nat
        } else {
            0
        }),
        final(counts)@.len() >= old(counts)@.len(),
        forall|j: int|
            0 <= j < old(counts)@.len() ==> (#[trigger] final(counts)@[j]).0 == old(counts)@[j].0
                && final(counts)@[j].1 >= old(counts)@[j].1,
        forall|j: int|
            old(counts)@.len() <= j < final(counts)@.len() ==> (#[trigger] final(counts)@[j]).1 >= 1,
        forall|j: int|
            0 <= j < final(counts)@.len() ==> (#[trigger] final(counts)@[j]).1 <= (if j < old(
                counts,
            )@.len() {
                old(counts)@[j].1 + 1
            } else {
                1
            }),
{
    let mut j: usize = 0;
    while j < counts.len()
        invariant
            counts@ == old(counts)@,
            rows_distinct(old(counts)@),
            forall|m: int| 0 <= m < old(counts)@.len() ==> (#[trigger] old(counts)@[m]).1 < usize::MAX,
            0 <= j <= counts@.len(),
            forall|m: int| 0 <= m < j ==> (#[trigger] counts@[m]).0 != row,
        decreases counts@.len() - j,
    {
        if counts[j].0 == row {
            let c = counts[j].1;
            counts.set(j, (row, c + 1));
            proof {
                lemma_tally_update(old(counts)@, j as int, row);
                assert forall|r: Row| tally(counts@, r) == tally(old(counts)@, r) + (if r == row {
                    1nat
                } else {
                    0
                }) by {
                    lemma_tally_update(old(counts)@, j as int, r);
                    assert(counts@ == old(counts)@.update(
                        j as int,
                        (old(counts)@[j as int].0, (old(counts)@[j as int].1 + 1) as usize),
                    ));
                }
            }
            return;
        }
        j += 1;
    }
    counts.push((row, 1));
    proof {
        assert(counts@.drop_last() =~= old(counts)@);
    }
}

/// How often each literal event occurs, added onto `counts`.
pub fn count_row_events(symbols: &[Symbol], counts: &mut Vec<(Row, usize)>)
    requires
        rows_distinct(old(counts)@),
        forall|j: int|
            0 <= j < old(counts)@.len() ==> (#[trigger] old(counts)@[j]).1 + symbols@.len()
                <= usize::MAX,
    ensures
        rows_distinct(final(counts)@),
        forall|r: Row| tally(final(counts)@, r) == tally(old(counts)@, r) + occurrences(symbols@, r),
        final(counts)@.len() >= old(counts)@.len(),
        forall|j: int|
            0 <= j < old(counts)@.len() ==> (#[trigger] final(counts)@[j]).0 == old(counts)@[j].0,
        forall|j: int|
            old(counts)@.len() <= j < final(counts)@.len() ==> occurrences(
                symbols@,
                (#[trigger] final(counts)@[j]).0,
            ) >= 1,
{
    let mut i: usize = 0;
    while i < symbols.len()
        invariant
            0 <= i <= symbols@.len(),
            rows_distinct(counts@),
            counts@.len() >= old(counts)@.len(),
            forall|j: int|
                0 <= j < old(counts)@.len() ==> (#[trigger] counts@[j]).0 == old(counts)@[j].0,
            forall|j: int| old(counts)@.len() <= j < counts@.len() ==> (#[trigger] counts@[j]).1 >= 1,
            forall|r: Row|
                tally(counts@, r) == tally(old(counts)@, r) + occurrences(
                    symbols@.subrange(0, i as int),
                    r,
                ),
            forall|j: int|
                0 <= j < counts@.len() ==> (#[trigger] counts@[j]).1 <= (if j < old(counts)@.len() {
                    old(counts)@[j].1 + i
                } else {
                    i as int
                }),
            forall|j: int|
                0 <= j < old(counts)@.len() ==> (#[trigger] old(counts)@[j]).1 + symbols@.len()
                    <= usize::MAX,
        decreases symbols@.len() - i,
    {
        proof {
            assert(symbols@.subrange(0, i + 1).drop_last() =~= symbols@.subrange(0, i as int));
            assert forall|j: int| 0 <= j < counts@.len() implies (#[trigger] counts@[j]).1
                < usize::MAX by {
                if j < old(counts)@.len() {
                    assert(old(counts)@[j].1 + symbols@.len() <= usize::MAX);
                }
            }
        }
        let ghost before = counts@;
        match symbols[i] {
            Symbol::RowEvent(row) => {
                count_row(counts, row);
            },
            _ => {},
        }
        proof {
            assert forall|j: int| old(counts)@.len() <= j < counts@.len() implies (#[trigger] counts@[j]).1 >= 1 by {
                if j < before.len() {
                    assert(before[j].1 >= 1);
                }
            }
            assert forall|j: int| 0 <= j < old(counts)@.len() implies (#[trigger] counts@[j]).0 == old(counts)@[j].0 by {
                assert(before[j].0 == old(counts)@[j].0);
            }
            assert forall|j: int| 0 <= j < counts@.len() implies (#[trigger] counts@[j]).1 <= (if j
                < old(counts)@.len() {
                old(counts)@[j].1 + i + 1
            } else {
                i + 1
            }) by {
                if j < before.len() {
                    assert(before[j].1 <= (if j < old(counts)@.len() {
                        old(counts)@[j].1 + i
                    } else {
                        i as int
                    }));
                }
            }
        }
        i += 1;
    }
    assert(symbols@.subrange(0, i as int) =~= symbols@);
    assert forall|j: int| old(counts)@.len() <= j < counts@.len() implies occurrences(
        symbols@,
        (#[trigger] counts@[j]).0,
    ) >= 1 by {
        let r = counts@[j].0;
        lemma_tally_entry(counts@, j);
        assert forall|q: int| 0 <= q < old(counts)@.len() implies (#[trigger] old(counts)@[q]).0 != r by {
            assert(counts@[q].0 == old(counts)@[q].0);
        }
        lemma_tally_absent(old(counts)@, r);
    }
}

/// `sel` picks the most frequent qualifying counts, most frequent first, at
/// most `ROW_DICT_CAP` of them; a qualifying count left out is no larger than
/// any picked one, and is left out only when the cap is reached.
pub open spec fn selection_ok(counts: Seq<(Row, usize)>, sel: Seq<usize>) -> bool {
    &&& sel.len() <= ROW_DICT_CAP
    &&& forall|i: int|
        0 <= i < sel.len() ==> #[trigger] sel[i] < counts.len() && qualifies(counts[sel[i] as int])
    &&& forall|i: int, k: int| 0 <= i < k < sel.len() ==> sel[i] != sel[k]
    &&& forall|i: int, k: int|
        0 <= i < k < sel.len() ==> counts[sel[i] as int].1 >= counts[sel[k] as int].1
    &&& forall|j: int|
        0 <= j < counts.len() && qualifies(#[trigger] counts[j]) && !sel.contains(j as usize)
            ==> sel.len() == ROW_DICT_CAP && forall|i: int|
            0 <= i < sel.len() ==> counts[sel[i] as int].1 >= counts[j].1
}

/// Picks the qualifying counts from the most frequent down; among equal
/// counts the earlier entry comes first.
pub fn select_frequent(counts: &Vec<(Row, usize)>) -> (sel: Vec<usize>)
    ensures
        selection_ok(counts@, sel@),
{
    let mut sel: Vec<usize> = Vec::new();
    let mut taken: Vec<bool> = Vec::new();
    let mut m: usize = 0;
    while m < counts.len()
        invariant
            0 <= m <= counts@.len(),
            taken@.len() == m,
            forall|j: int| 0 <= j < m ==> !(#[trigger] taken@[j]),
        decreases counts@.len() - m,
    {
        taken.push(false);
        m += 1;
    }
    let mut done = false;
    while sel.len() < ROW_DICT_CAP && !done
        invariant
            taken@.len() == counts@.len(),
            sel@.len() <= ROW_DICT_CAP,
            forall|j: int| 0 <= j < counts@.len() ==> #[trigger] taken@[j] == sel@.contains(j as usize),
            forall|i: int|
                0 <= i < sel@.len() ==> #[trigger] sel@[i] < counts@.len() && qualifies(
                    counts@[sel@[i] as int],
                ),
            forall|i: int, k: int| 0 <= i < k < sel@.len() ==> sel@[i] != sel@[k],
            forall|i: int, k: int|
                0 <= i < k < sel@.len() ==> counts@[sel@[i] as int].1 >= counts@[sel@[k] as int].1,
            forall|i: int, j: int|
                0 <= i < sel@.len() && 0 <= j < counts@.len() && qualifies(counts@[j])
                    && !sel@.contains(j as usize) ==> counts@[sel@[i] as int].1 >= counts@[j].1,
            done ==> forall|j: int|
                0 <= j < counts@.len() && qualifies(#[trigger] counts@[j]) ==> sel@.contains(
                    j as usize,
                ),
        decreases ROW_DICT_CAP - sel@.len(), if done { 0int } else { 1int },
    {
        let mut found = false;
        let mut best: usize = 0;
        let mut j: usize = 0;
        while j < counts.len()
            invariant
                taken@.len() == counts@.len(),
                0 <= j <= counts@.len(),
                found ==> best < j && !taken@[best as int] && qualifies(counts@[best as int]),
                found ==> forall|k: int|
                    0 <= k < j && !taken@[k] && qualifies(#[trigger] counts@[k])
                        ==> counts@[best as int].1 >= counts@[k].1,
                !found ==> forall|k: int|
                    0 <= k < j && qualifies(#[trigger] counts@[k]) ==> taken@[k],
            decreases counts@.len() - j,
        {
            let (row, count) = counts[j];
            if !taken[j] && count > 1 && !row.is_empty() {
                if !found || count > counts[best].1 {
                    best = j;
                    found = true;
                }
            }
            j += 1;
        }
        if found {
            let ghost old_sel = sel@;
            taken.set(best, true);
            sel.push(best);
            proof {
                assert forall|q: int| 0 <= q < counts@.len() implies #[trigger] taken@[q]
                    == sel@.contains(q as usize) by {
                    if q == best as int {
                        assert(sel@[old_sel.len() as int] == best);
                    } else {
                        if sel@.contains(q as usize) {
                            let w = choose|w: int| 0 <= w < sel@.len() && sel@[w] == q as usize;
                            assert(old_sel[w] == q as usize);
                        }
                        if old_sel.contains(q as usize) {
                            let w = choose|w: int| 0 <= w < old_sel.len() && old_sel[w] == q as usize;
                            assert(sel@[w] == q as usize);
                        }
                    }
                }
                assert forall|i: int, k: int| 0 <= i < k < sel@.len() implies sel@[i] != sel@[k] by {
                    if k == old_sel.len() {
                        assert(old_sel.contains(sel@[i]));
                    }
                }
                assert forall|i: int, k: int| 0 <= i < k < sel@.len() implies counts@[sel@[i] as int].1
                    >= counts@[sel@[k] as int].1 by {
                    if k == old_sel.len() {
                        assert(!old_sel.contains(best));
                    }
                }
                assert forall|i: int, q: int|
                    0 <= i < sel@.len() && 0 <= q < counts@.len() && qualifies(counts@[q])
                        && !sel@.contains(q as usize) implies counts@[sel@[i] as int].1
                    >= counts@[q].1 by {
                    assert(!taken@[q]);
                    if !old_sel.contains(q as usize) {
                    } else {
                        let w = choose|w: int| 0 <= w < old_sel.len() && old_sel[w] == q as usize;
                        assert(sel@[w] == q as usize);
                    }
                }
            }
        } else {
            done = true;
        }
    }
    sel
}

} // verus!
