//! Sorting rows by their times.
use crate::cell::{rows_view, CellView, Row};
use crate::double::Double;
use crate::order::{
    is_ordered, is_stable_sort, lemma_with_key_add, lemma_with_key_none, lemma_with_key_one,
    with_key,
};
use crate::sheet::{extract_time_from_row, lemma_earlier_row_first, row_serial, starts_at};
use crate::timestamp::Moment;
use std::collections::VecDeque;
use vstd::prelude::*;

verus! {

/// What rows are sorted by.
pub open spec fn row_key() -> spec_fn(Seq<CellView>) -> int {
    |row: Seq<CellView>| row_serial(row)@
}

/// A row with its time.
struct TimedRow {
    time: Double,
    row: Row,
}

spec fn time_key() -> spec_fn(TimedRow) -> int {
    |timed: TimedRow| timed.time@
}

/// Whether each row stands with its own time.
spec fn is_timed(s: Seq<TimedRow>) -> bool {
    forall|i: int| 0 <= i < s.len() ==> (#[trigger] s[i]).time@ == row_serial(s[i].row@)@
}

/// Merges two sorted queues. Of two rows with equal times, the one from the first
/// queue comes first.
fn merge(first: VecDeque<TimedRow>, second: VecDeque<TimedRow>) -> (merged: VecDeque<TimedRow>)
    requires
        is_ordered(first@, time_key()),
        is_ordered(second@, time_key()),
        is_timed(first@),
        is_timed(second@),
    ensures
        is_stable_sort(first@ + second@, merged@, time_key()),
        is_timed(merged@),
{
    let ghost key = time_key();
    let ghost input: Seq<TimedRow> = first@ + second@;
    let mut a: VecDeque<TimedRow> = first;
    let mut b: VecDeque<TimedRow> = second;
    let mut merged: VecDeque<TimedRow> = VecDeque::new();
    assert(merged@ + (a@ + b@) =~= input);
    while a.len() > 0 && b.len() > 0
        invariant
            key == time_key(),
            is_ordered(a@, key),
            is_ordered(b@, key),
            is_ordered(merged@, key),
            is_timed(a@),
            is_timed(b@),
            is_timed(merged@),
            forall|i: int, j: int|
                0 <= i < merged@.len() && 0 <= j < a@.len() ==> key(#[trigger] merged@[i]) <= key(
                    #[trigger] a@[j],
                ),
            forall|i: int, j: int|
                0 <= i < merged@.len() && 0 <= j < b@.len() ==> key(#[trigger] merged@[i]) <= key(
                    #[trigger] b@[j],
                ),
            forall|k: int| #[trigger]
                with_key(input, key, k) == with_key(merged@ + (a@ + b@), key, k),
        decreases a@.len() + b@.len(),
    {
        let ghost (a0, b0, m0) = (a@, b@, merged@);
        if b[0].time.less(a[0].time) {
            let head: TimedRow = b.pop_front().unwrap();
            merged.push_back(head);
            proof {
                lemma_take_second(m0, a0, b0);
            }
        } else {
            let head: TimedRow = a.pop_front().unwrap();
            merged.push_back(head);
            assert(merged@ + (a@ + b@) =~= m0 + (a0 + b0));
        }
    }
    let ghost (a0, b0, m0) = (a@, b@, merged@);
    merged.append(&mut a);
    merged.append(&mut b);
    assert(merged@ =~= m0 + (a0 + b0));
    merged
}

/// Taking the head of the second queue, which has a lower key than the whole first
/// queue, keeps the elements with each key in order.
proof fn lemma_take_second(m: Seq<TimedRow>, a: Seq<TimedRow>, b: Seq<TimedRow>)
    requires
        a.len() > 0,
        b.len() > 0,
        is_ordered(a, time_key()),
        b[0].time@ < a[0].time@,
    ensures
        forall|k: int| #[trigger]
            with_key(m + (a + b), time_key(), k) == with_key(
                m.push(b[0]) + (a + b.subrange(1, b.len() as int)),
                time_key(),
                k,
            ),
{
    let key = time_key();
    let rest: Seq<TimedRow> = b.subrange(1, b.len() as int);
    let head: Seq<TimedRow> = seq![b[0]];
    assert(b =~= head + rest);
    assert(m.push(b[0]) =~= m + head);
    assert forall|k: int| #[trigger]
        with_key(m + (a + b), key, k) == with_key(m.push(b[0]) + (a + rest), key, k) by {
        lemma_with_key_add(m, a + b, key, k);
        lemma_with_key_add(a, b, key, k);
        lemma_with_key_add(head, rest, key, k);
        lemma_with_key_add(m + head, a + rest, key, k);
        lemma_with_key_add(m, head, key, k);
        lemma_with_key_add(a, rest, key, k);
        lemma_with_key_one(b[0], key, k);
        let (f, g, h) = (with_key(m, key, k), with_key(a, key, k), with_key(rest, key, k));
        if k == key(b[0]) {
            lemma_with_key_none(a, key, k);
            assert(f + (g + (head + h)) =~= (f + head) + (g + h));
        } else {
            let none: Seq<TimedRow> = seq![];
            assert(f + (g + (none + h)) =~= (f + none) + (g + h));
        }
    }
}

/// Sorts a queue of rows by their times.
fn merge_sort(rows: VecDeque<TimedRow>) -> (sorted: VecDeque<TimedRow>)
    requires
        is_timed(rows@),
    ensures
        is_stable_sort(rows@, sorted@, time_key()),
        is_timed(sorted@),
    decreases rows@.len(),
{
    let len: usize = rows.len();
    if len <= 1 {
        return rows;
    }
    let ghost input: Seq<TimedRow> = rows@;
    let mut first: VecDeque<TimedRow> = rows;
    let second: VecDeque<TimedRow> = first.split_off(len / 2);
    let ghost (a, b) = (first@, second@);
    let first: VecDeque<TimedRow> = merge_sort(first);
    let second: VecDeque<TimedRow> = merge_sort(second);
    let sorted: VecDeque<TimedRow> = merge(first, second);
    proof {
        let key = time_key();
        assert(input =~= a + b);
        assert forall|k: int| #[trigger]
            with_key(sorted@, key, k) == with_key(input, key, k) by {
            lemma_with_key_add(a, b, key, k);
            lemma_with_key_add(first@, second@, key, k);
            assert(with_key(first@, key, k) == with_key(a, key, k));
            assert(with_key(second@, key, k) == with_key(b, key, k));
        }
    }
    sorted
}

/// The rows alone.
spec fn untimed(s: Seq<TimedRow>) -> Seq<Seq<CellView>> {
    s.map_values(|timed: TimedRow| timed.row@)
}

/// Rows that stand with their own times have the same keys without them.
proof fn lemma_untimed(s: Seq<TimedRow>, k: int)
    requires
        is_timed(s),
    ensures
        with_key(untimed(s), row_key(), k) == untimed(with_key(s, time_key(), k)),
    decreases s.len(),
{
    reveal(Seq::filter);
    if s.len() > 0 {
        let t: Seq<TimedRow> = s.drop_last();
        assert forall|i: int| 0 <= i < t.len() implies (#[trigger] t[i]).time@ == row_serial(
            t[i].row@,
        )@ by {
            assert(t[i] == s[i]);
        }
        lemma_untimed(t, k);
        assert(untimed(s).drop_last() =~= untimed(t));
        assert(untimed(s).last() == s.last().row@);
        assert(s[s.len() - 1].time@ == row_serial(s[s.len() - 1].row@)@);
    }
    assert(with_key(untimed(s), row_key(), k) =~= untimed(with_key(s, time_key(), k)));
}

/// Sorts rows by their times. Rows with equal times stay in the order that they
/// stood in.
pub fn sort_rows(rows: Vec<Row>) -> (sorted: Vec<Row>)
    ensures
        is_stable_sort(rows_view(rows@), rows_view(sorted@), row_key()),
{
    let ghost input: Seq<Row> = rows@;
    let mut timed: VecDeque<TimedRow> = VecDeque::new();
    for row in it: rows
        invariant
            it.seq() == input,
            is_timed(timed@),
            timed@.len() == it.index(),
            forall|i: int| 0 <= i < timed@.len() ==> (#[trigger] timed@[i]).row == input[i],
    {
        let time: Double = extract_time_from_row(row.cells.as_slice());
        timed.push_back(TimedRow { time, row });
    }
    let ghost unsorted: Seq<TimedRow> = timed@;
    let mut queue: VecDeque<TimedRow> = merge_sort(timed);
    let ghost all: Seq<TimedRow> = queue@;
    let mut sorted: Vec<Row> = Vec::new();
    while queue.len() > 0
        invariant
            queue@.len() + sorted@.len() == all.len(),
            queue@ == all.skip(sorted@.len() as int),
            forall|i: int| 0 <= i < sorted@.len() ==> #[trigger] sorted@[i] == all[i].row,
        decreases queue@.len(),
    {
        let timed: TimedRow = queue.pop_front().unwrap();
        sorted.push(timed.row);
        assert(queue@ =~= all.skip(sorted@.len() as int));
    }
    proof {
        assert(rows_view(sorted@) =~= untimed(all));
        assert(rows_view(input) =~= untimed(unsorted));
        assert forall|k: int| #[trigger]
            with_key(rows_view(sorted@), row_key(), k) == with_key(
                rows_view(input),
                row_key(),
                k,
            ) by {
            lemma_untimed(all, k);
            lemma_untimed(unsorted, k);
            assert(with_key(all, time_key(), k) == with_key(unsorted, time_key(), k));
        }
        assert forall|i: int, j: int|
            0 <= i < j < rows_view(sorted@).len() implies row_key()(
            #[trigger] rows_view(sorted@)[i],
        ) <= row_key()(#[trigger] rows_view(sorted@)[j]) by {
            assert(time_key()(all[i]) <= time_key()(all[j]));
        }
    }
    sorted
}

/// Of two rows that say when they start, be it as numbers or as texts, the one that
/// starts a second or more earlier is sorted first.
pub proof fn lemma_sorted_by_time(
    input: Seq<Seq<CellView>>,
    sorted: Seq<Seq<CellView>>,
    i: int,
    m: Moment,
    j: int,
    later: Moment,
)
    requires
        is_stable_sort(input, sorted, row_key()),
        0 <= i < sorted.len(),
        0 <= j < sorted.len(),
        starts_at(sorted[i], m),
        starts_at(sorted[j], later),
        m.secs * 1_000_000_000 + m.nanos + 1_000_000_000 <= later.secs * 1_000_000_000
            + later.nanos,
    ensures
        i < j,
        row_key()(sorted[i]) == row_serial(sorted[i])@,
{
    lemma_earlier_row_first(sorted[i], m, sorted[j], later);
    assert(i > j ==> row_key()(sorted[j]) <= row_key()(sorted[i]));
}

} // verus!
