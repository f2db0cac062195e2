//! The whole content of a sheet after time entries are written to it.
use crate::cell::{cells_view, rows_view, Cell, CellView, Row};
use crate::entry::{entry_row, entry_row_view, EntryView, TogglTimeEntry};
use crate::order::{
    is_stable_sort, lemma_stable_sort_keeps_ties, lemma_stable_sort_permutes,
    lemma_stable_sort_unique, lemma_with_key_add, with_key,
};
use crate::serial::{
    epoch, epoch_millis, lemma_millis_since_epoch, lemma_read_back_after, lemma_read_back_before,
};
use crate::sheet::{
    is_title_row, kept_rows, lemma_earlier_row_first, lemma_staying, row_serial, row_stays,
    rows_in_range, starts_at, staying,
};
use crate::sorting::{row_key, sort_rows};
use crate::timestamp::{is_before, is_moment, millis_after, Moment, Timestamp};
use vstd::prelude::*;

verus! {

/// What the row of titles holds.
pub open spec fn header_view() -> Seq<CellView> {
    seq![
        CellView::Text("Start"@),
        CellView::Text("Description"@),
        CellView::Text("Duration (m)"@),
        CellView::Text("Project ID"@),
        CellView::Text("Project Name"@),
        CellView::Text("Tags"@),
        CellView::Text("Stop"@),
    ]
}

/// The row of titles.
pub fn header_row() -> (row: Row)
    ensures
        row@ == header_view(),
{
    let cells: Vec<Cell> = vec![
        Cell::Text("Start".to_owned()),
        Cell::Text("Description".to_owned()),
        Cell::Text("Duration (m)".to_owned()),
        Cell::Text("Project ID".to_owned()),
        Cell::Text("Project Name".to_owned()),
        Cell::Text("Tags".to_owned()),
        Cell::Text("Stop".to_owned()),
    ];
    assert(cells_view(cells@) =~= header_view());
    Row { cells }
}

/// What time entries hold.
pub open spec fn entries_view(entries: Seq<TogglTimeEntry>) -> Seq<EntryView> {
    entries.map_values(|entry: TogglTimeEntry| entry@)
}

/// The rows that time entries become.
pub open spec fn entry_rows(entries: Seq<EntryView>) -> Seq<Seq<CellView>> {
    entries.map_values(|entry: EntryView| entry_row_view(entry))
}

/// The rows for time entries, in the same order.
pub fn new_rows(entries: &Vec<TogglTimeEntry>) -> (rows: Vec<Row>)
    ensures
        rows_view(rows@) == entry_rows(entries_view(entries@)),
{
    let mut rows: Vec<Row> = Vec::new();
    for i in 0..entries.len()
        invariant
            rows@.len() == i,
            forall|j: int| 0 <= j < i ==> (#[trigger] rows@[j])@ == entry_row_view(entries@[j]@),
    {
        rows.push(entry_row(&entries[i]));
    }
    assert(rows_view(rows@) =~= entry_rows(entries_view(entries@)));
    rows
}

/// Whether this is what a sheet holds after time entries are written to it: the
/// row of titles, and then the rows that were there and stay, together with those
/// of the entries, sorted by time. Of rows with equal times, those that were there
/// come first, and otherwise each stays in its order.
pub open spec fn is_content(
    existing: Seq<Seq<CellView>>,
    entries: Seq<EntryView>,
    cutoff: Moment,
    content: Seq<Seq<CellView>>,
) -> bool {
    &&& content.len() > 0
    &&& content[0] == header_view()
    &&& is_stable_sort(
        staying(existing, cutoff) + entry_rows(entries),
        content.drop_first(),
        row_key(),
    )
}

/// What a sheet is to hold: everything from the cutoff on is replaced by the time entries.
pub fn sheet_content(
    existing: Vec<Row>,
    entries: &Vec<TogglTimeEntry>,
    cutoff: &Timestamp,
) -> (content: Vec<Row>)
    requires
        rows_in_range(rows_view(existing@)),
    ensures
        is_content(rows_view(existing@), entries_view(entries@), cutoff@, rows_view(content@)),
{
    let mut rows: Vec<Row> = kept_rows(existing, cutoff);
    let ghost kept: Seq<Row> = rows@;
    let mut new: Vec<Row> = new_rows(entries);
    let ghost added: Seq<Row> = new@;
    rows.append(&mut new);
    assert(rows_view(rows@) =~= rows_view(kept) + rows_view(added));
    let mut sorted: Vec<Row> = sort_rows(rows);
    let ghost body: Seq<Row> = sorted@;
    let mut content: Vec<Row> = vec![header_row()];
    content.append(&mut sorted);
    proof {
        assert(rows_view(content@)[0] == header_view());
        assert(rows_view(content@).drop_first() =~= rows_view(body));
    }
    content
}

/// What a sheet is to hold is determined by what it holds, the entries and the cutoff.
pub proof fn lemma_content_unique(
    existing: Seq<Seq<CellView>>,
    entries: Seq<EntryView>,
    cutoff: Moment,
    content: Seq<Seq<CellView>>,
    other: Seq<Seq<CellView>>,
)
    requires
        is_content(existing, entries, cutoff, content),
        is_content(existing, entries, cutoff, other),
    ensures
        content == other,
{
    let input: Seq<Seq<CellView>> = staying(existing, cutoff) + entry_rows(entries);
    let (s, t) = (content.drop_first(), other.drop_first());
    assert forall|k: int| #[trigger] with_key(s, row_key(), k) == with_key(t, row_key(), k) by {
        assert(with_key(s, row_key(), k) == with_key(input, row_key(), k));
        assert(with_key(t, row_key(), k) == with_key(input, row_key(), k));
    }
    lemma_stable_sort_unique(s, t, row_key());
    assert(content =~= seq![content[0]] + s);
    assert(other =~= seq![other[0]] + t);
}

/// Below the titles stand the rows that stay and those of the entries, each as
/// often as it was there, and nothing else.
pub proof fn lemma_content_rows(
    existing: Seq<Seq<CellView>>,
    entries: Seq<EntryView>,
    cutoff: Moment,
    content: Seq<Seq<CellView>>,
)
    requires
        is_content(existing, entries, cutoff, content),
    ensures
        content.drop_first().to_multiset() == staying(existing, cutoff).to_multiset().add(
            entry_rows(entries).to_multiset(),
        ),
        content.len() == 1 + staying(existing, cutoff).len() + entries.len(),
{
    let (kept, added) = (staying(existing, cutoff), entry_rows(entries));
    lemma_stable_sort_permutes(kept + added, content.drop_first(), row_key());
    vstd::seq_lib::lemma_multiset_commutative(kept, added);
}

/// The row of an entry is never taken for the row of titles.
pub proof fn lemma_entry_row_not_titles(entry: EntryView)
    ensures
        !is_title_row(entry_row_view(entry)),
{
}

/// The row of an entry that starts at least a whole millisecond after the cutoff,
/// not counting the part of a millisecond that is cut off, does not stay: when it
/// is synced again, it is replaced.
pub proof fn lemma_entry_replaced(entry: EntryView, cutoff: Moment)
    requires
        is_moment(entry.start.secs, entry.start.nanos),
        !is_before(millis_after(epoch(), epoch_millis(entry.start) - 1), cutoff),
    ensures
        !row_stays(entry_row_view(entry), cutoff),
{
    lemma_read_back_after(entry.start, cutoff);
}

/// Filtering with two conditions, in either order, gives the same.
proof fn lemma_filters_commute<T>(s: Seq<T>, p: spec_fn(T) -> bool, q: spec_fn(T) -> bool)
    ensures
        s.filter(p).filter(q) == s.filter(q).filter(p),
    decreases s.len(),
{
    reveal(Seq::filter);
    if s.len() > 0 {
        lemma_filters_commute(s.drop_last(), p, q);
        let (a, b, x) = (s.drop_last().filter(p), s.drop_last().filter(q), s.last());
        assert(a.push(x).drop_last() =~= a);
        assert(b.push(x).drop_last() =~= b);
    }
}

/// Filtering twice with one condition does what filtering once does.
proof fn lemma_filter_again<T>(s: Seq<T>, p: spec_fn(T) -> bool)
    ensures
        s.filter(p).filter(p) == s.filter(p),
    decreases s.len(),
{
    reveal(Seq::filter);
    if s.len() > 0 {
        lemma_filter_again(s.drop_last(), p);
        let (a, x) = (s.drop_last().filter(p), s.last());
        assert(a.push(x).drop_last() =~= a);
    }
}

/// Filtering with a condition that nothing meets leaves nothing.
proof fn lemma_filter_none<T>(s: Seq<T>, p: spec_fn(T) -> bool)
    requires
        forall|i: int| 0 <= i < s.len() ==> !p(#[trigger] s[i]),
    ensures
        s.filter(p) == Seq::<T>::empty(),
    decreases s.len(),
{
    reveal(Seq::filter);
    if s.len() > 0 {
        assert forall|i: int| 0 <= i < s.drop_last().len() implies !p(
            #[trigger] s.drop_last()[i],
        ) by {
            assert(s.drop_last()[i] == s[i]);
        }
        lemma_filter_none(s.drop_last(), p);
        assert(!p(s[s.len() - 1]));
    }
    assert(s.filter(p) =~= Seq::<T>::empty());
}

/// Writing the same entries again, with the same cutoff, to a sheet that holds them
/// changes nothing, where the rows of the entries do not stay: nothing is doubled
/// and nothing is lost.
pub proof fn lemma_written_again(
    existing: Seq<Seq<CellView>>,
    entries: Seq<EntryView>,
    cutoff: Moment,
    content: Seq<Seq<CellView>>,
)
    requires
        is_content(existing, entries, cutoff, content),
        forall|i: int|
            0 <= i < entries.len() ==> !row_stays(entry_row_view(#[trigger] entries[i]), cutoff),
    ensures
        is_content(content, entries, cutoff, content),
{
    let p = |row: Seq<CellView>| row_stays(row, cutoff);
    let key = row_key();
    let (kept, added) = (staying(existing, cutoff), entry_rows(entries));
    let body: Seq<Seq<CellView>> = content.drop_first();
    // The row of titles does not stay.
    assert(content =~= seq![content[0]] + body);
    Seq::filter_distributes_over_add(seq![content[0]], body, p);
    assert(is_title_row(header_view()));
    lemma_filter_none(seq![content[0]], p);
    assert(content.filter(p) =~= body.filter(p));
    assert(staying(content, cutoff) == body.filter(p));
    assert forall|k: int| #[trigger]
        with_key(body, key, k) == with_key(body.filter(p) + added, key, k) by {
        let q = |row: Seq<CellView>| key(row) == k;
        assert(with_key(body, key, k) == with_key(kept + added, key, k));
        lemma_with_key_add(kept, added, key, k);
        lemma_with_key_add(body.filter(p), added, key, k);
        // The rows with this key that stay: those that stayed before.
        let (f, g) = (kept.filter(q), added.filter(q));
        lemma_filters_commute(body, p, q);
        Seq::filter_distributes_over_add(f, g, p);
        lemma_filters_commute(kept, q, p);
        lemma_filter_again(existing, p);
        lemma_filters_commute(added, q, p);
        lemma_filter_none(added, p);
        reveal(Seq::filter);
        assert(Seq::<Seq<CellView>>::empty().filter(q) =~= Seq::empty());
        assert(body.filter(q) == f + g);
        assert(f.filter(p) == f);
        assert(g.filter(p) == Seq::<Seq<CellView>>::empty());
        assert((f + g).filter(p) =~= f);
        assert(body.filter(p).filter(q) == f);
    }
}

/// Rows as they are read back: of each, at most the cells in the first columns.
pub open spec fn as_read(rows: Seq<Seq<CellView>>, columns: nat) -> Seq<Seq<CellView>> {
    rows.map_values(|row: Seq<CellView>| first_cells(row, columns))
}

/// The cells of a row in the first columns.
pub open spec fn first_cells(row: Seq<CellView>, columns: nat) -> Seq<CellView> {
    if row.len() > columns {
        row.take(columns as int)
    } else {
        row
    }
}

/// Whether no row has a cell beyond the first columns.
pub open spec fn rows_fit(rows: Seq<Seq<CellView>>, columns: nat) -> bool {
    forall|i: int| 0 <= i < rows.len() ==> (#[trigger] rows[i]).len() <= columns
}

/// Every row below the titles is one that was there and stays, or that of an entry.
proof fn lemma_row_origin(
    existing: Seq<Seq<CellView>>,
    entries: Seq<EntryView>,
    cutoff: Moment,
    content: Seq<Seq<CellView>>,
    i: int,
)
    requires
        is_content(existing, entries, cutoff, content),
        1 <= i < content.len(),
    ensures
        existing.contains(content[i]) || entry_rows(entries).contains(content[i]),
{
    broadcast use vstd::seq_lib::group_to_multiset_ensures;

    let (row, body) = (content[i], content.drop_first());
    let (kept, added) = (staying(existing, cutoff), entry_rows(entries));
    lemma_content_rows(existing, entries, cutoff, content);
    assert(body[i - 1] == row);
    assert(body.contains(row));
    assert(body.to_multiset().count(row) > 0);
    assert(kept.to_multiset().count(row) > 0 || added.to_multiset().count(row) > 0);
    if kept.contains(row) {
        lemma_staying(existing, cutoff, row);
    }
}

/// The content has no cell beyond the columns of the titles, where what was there has none.
pub proof fn lemma_content_fits(
    existing: Seq<Seq<CellView>>,
    entries: Seq<EntryView>,
    cutoff: Moment,
    content: Seq<Seq<CellView>>,
)
    requires
        is_content(existing, entries, cutoff, content),
        rows_fit(existing, header_view().len()),
    ensures
        rows_fit(content, header_view().len()),
{
    assert forall|i: int| 0 <= i < content.len() implies (#[trigger] content[i]).len()
        <= header_view().len() by {
        if i > 0 {
            lemma_row_origin(existing, entries, cutoff, content, i);
        }
    }
}

/// Where the rows that stay are read back whole, the same rows stay.
proof fn lemma_staying_as_read(rows: Seq<Seq<CellView>>, cutoff: Moment, columns: nat)
    requires
        columns >= 1,
        forall|i: int|
            0 <= i < rows.len() && row_stays(#[trigger] rows[i], cutoff) ==> rows[i].len()
                <= columns,
    ensures
        staying(as_read(rows, columns), cutoff) == staying(rows, cutoff),
    decreases rows.len(),
{
    reveal(Seq::filter);
    if rows.len() > 0 {
        let (rest, last) = (rows.drop_last(), rows[rows.len() - 1]);
        assert forall|i: int|
            0 <= i < rest.len() && row_stays(#[trigger] rest[i], cutoff) implies rest[i].len()
            <= columns by {
            assert(rest[i] == rows[i]);
        }
        lemma_staying_as_read(rest, cutoff, columns);
        assert(as_read(rows, columns).drop_last() =~= as_read(rest, columns));
        assert(as_read(rows, columns).last() == first_cells(last, columns));
        assert(row_stays(first_cells(last, columns), cutoff) == row_stays(last, cutoff));
    }
    assert(staying(as_read(rows, columns), cutoff) =~= staying(rows, cutoff));
}

/// Syncing the same entries again, with the same cutoff, changes nothing, where
/// each of them starts at least a whole millisecond after the cutoff, not counting
/// the part of a millisecond that is cut off. This holds of what is read back, be it
/// of all columns or only of the first, as long as the rows that were there have no
/// cell beyond these.
pub proof fn lemma_synced_again(
    existing: Seq<Seq<CellView>>,
    entries: Seq<EntryView>,
    cutoff: Moment,
    content: Seq<Seq<CellView>>,
    columns: nat,
)
    requires
        is_content(existing, entries, cutoff, content),
        columns >= 1,
        rows_fit(existing, columns),
        forall|i: int|
            0 <= i < entries.len() ==> {
                let start = (#[trigger] entries[i]).start;
                &&& is_moment(start.secs, start.nanos)
                &&& !is_before(millis_after(epoch(), epoch_millis(start) - 1), cutoff)
            },
    ensures
        is_content(as_read(content, columns), entries, cutoff, content),
        forall|again: Seq<Seq<CellView>>| #[trigger]
            is_content(as_read(content, columns), entries, cutoff, again) ==> again == content,
{
    assert forall|i: int| 0 <= i < entries.len() implies !row_stays(
        entry_row_view(#[trigger] entries[i]),
        cutoff,
    ) by {
        lemma_entry_replaced(entries[i], cutoff);
    }
    lemma_written_again(existing, entries, cutoff, content);
    assert forall|i: int|
        0 <= i < content.len() && row_stays(#[trigger] content[i], cutoff) implies content[i].len()
        <= columns by {
        if i > 0 {
            lemma_row_origin(existing, entries, cutoff, content, i);
            if entry_rows(entries).contains(content[i]) {
                let j: int = choose|j: int|
                    0 <= j < entry_rows(entries).len() && entry_rows(entries)[j] == content[i];
                assert(entry_row_view(entries[j]) == content[i]);
            }
        }
    }
    lemma_staying_as_read(content, cutoff, columns);
    assert forall|again: Seq<Seq<CellView>>| #[trigger]
        is_content(as_read(content, columns), entries, cutoff, again) implies again == content by {
        lemma_content_unique(as_read(content, columns), entries, cutoff, content, again);
    }
}

/// The titles, in the order of the columns.
pub proof fn lemma_titles()
    ensures
        header_view().len() == 7,
        header_view()[0] == CellView::Text("Start"@),
        header_view()[1] == CellView::Text("Description"@),
        header_view()[2] == CellView::Text("Duration (m)"@),
        header_view()[3] == CellView::Text("Project ID"@),
        header_view()[4] == CellView::Text("Project Name"@),
        header_view()[5] == CellView::Text("Tags"@),
        header_view()[6] == CellView::Text("Stop"@),
{
}

/// Every entry is taken, and has its row, in its place.
pub proof fn lemma_entries_in_place(
    entries: Seq<TogglTimeEntry>,
    viewed: Seq<EntryView>,
    i: int,
)
    ensures
        entries_view(entries).len() == entries.len(),
        0 <= i < entries.len() ==> entries_view(entries)[i] == entries[i]@,
        entry_rows(viewed).len() == viewed.len(),
        0 <= i < viewed.len() ==> entry_rows(viewed)[i] == entry_row_view(viewed[i]),
{
}

/// The content is the titles and, below them, the rows that stay and those of the
/// entries: in ascending order of their keys, and of rows with one key first those
/// that stay and then those of the entries, each in the order that they stood in.
pub proof fn lemma_content_order(
    existing: Seq<Seq<CellView>>,
    entries: Seq<EntryView>,
    cutoff: Moment,
    content: Seq<Seq<CellView>>,
    k: int,
    has_key: spec_fn(Seq<CellView>) -> bool,
)
    requires
        is_content(existing, entries, cutoff, content),
        forall|row: Seq<CellView>| #[trigger] has_key(row) <==> row_serial(row)@ == k,
    ensures
        content.len() > 0,
        content[0] == header_view(),
        forall|i: int, j: int|
            1 <= i < j < content.len() ==> row_serial(#[trigger] content[i])@ <= row_serial(
                #[trigger] content[j],
            )@,
        content.drop_first().filter(has_key) == staying(existing, cutoff).filter(has_key)
            + entry_rows(entries).filter(has_key),
{
    let (kept, added) = (staying(existing, cutoff), entry_rows(entries));
    let body: Seq<Seq<CellView>> = content.drop_first();
    lemma_stable_sort_keeps_ties(kept + added, body, row_key(), k, has_key);
    Seq::filter_distributes_over_add(kept, added, has_key);
    assert forall|i: int, j: int| 1 <= i < j < content.len() implies row_serial(
        #[trigger] content[i],
    )@ <= row_serial(#[trigger] content[j])@ by {
        assert(body[i - 1] == content[i] && body[j - 1] == content[j]);
        assert(row_key()(body[i - 1]) <= row_key()(body[j - 1]));
    }
}

/// Of two rows of the content that say when they start, the one that starts a second
/// or more earlier comes first.
pub proof fn lemma_content_by_time(
    existing: Seq<Seq<CellView>>,
    entries: Seq<EntryView>,
    cutoff: Moment,
    content: Seq<Seq<CellView>>,
    i: int,
    m: Moment,
    j: int,
    later: Moment,
)
    requires
        is_content(existing, entries, cutoff, content),
        1 <= i < content.len(),
        1 <= j < content.len(),
        starts_at(content[i], m),
        starts_at(content[j], later),
        m.secs * 1_000_000_000 + m.nanos + 1_000_000_000 <= later.secs * 1_000_000_000
            + later.nanos,
    ensures
        i < j,
{
    let k: int = 0;
    lemma_earlier_row_first(content[i], m, content[j], later);
    lemma_content_order(
        existing,
        entries,
        cutoff,
        content,
        k,
        |row: Seq<CellView>| row_serial(row)@ == k,
    );
}

/// The row of an entry that starts at least a whole millisecond before the cutoff,
/// counted from the next millisecond on, stays.
pub proof fn lemma_entry_stays(entry: EntryView, cutoff: Moment)
    requires
        is_moment(entry.start.secs, entry.start.nanos),
        is_before(millis_after(epoch(), epoch_millis(entry.start) + 1), cutoff),
    ensures
        row_stays(entry_row_view(entry), cutoff),
{
    lemma_read_back_before(entry.start, cutoff);
}

/// Around a cutoff in no leap second, the rows of entries that start a second or more
/// before it stay, and those of entries that start a second or more after it are
/// replaced.
pub proof fn lemma_a_second_decides(entry: EntryView, cutoff: Moment)
    requires
        is_moment(entry.start.secs, entry.start.nanos),
        0 <= cutoff.nanos < 1_000_000_000,
    ensures
        ({
            let start = entry.start.secs * 1_000_000_000 + entry.start.nanos;
            let limit = cutoff.secs * 1_000_000_000 + cutoff.nanos;
            &&& start + 1_000_000_000 <= limit ==> row_stays(entry_row_view(entry), cutoff)
            &&& start >= limit + 1_000_000_000 ==> !row_stays(entry_row_view(entry), cutoff)
        }),
{
    lemma_millis_since_epoch(entry.start);
    if is_before(millis_after(epoch(), epoch_millis(entry.start) + 1), cutoff) {
        lemma_entry_stays(entry, cutoff);
    }
    if !is_before(millis_after(epoch(), epoch_millis(entry.start) - 1), cutoff) {
        lemma_entry_replaced(entry, cutoff);
    }
}

/// What is read back of a row are its first cells: all of them, where there are no more
/// than columns.
pub proof fn lemma_first_cells(row: Seq<CellView>, rows: Seq<Seq<CellView>>, columns: nat, i: int)
    ensures
        row.len() <= columns ==> first_cells(row, columns) == row,
        row.len() > columns ==> first_cells(row, columns).len() == columns,
        0 <= i < columns && i < row.len() ==> first_cells(row, columns)[i] == row[i],
        as_read(rows, columns).len() == rows.len(),
        0 <= i < rows.len() ==> as_read(rows, columns)[i] == first_cells(rows[i], columns),
{
}

} // verus!
