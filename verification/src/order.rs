//! The order in which notes are written, and a stable sort into that order.
//!
//! Notes are written by ascending tick, and by ascending layer within a tick.
//! `sorted_notes` says what sorting means: each note in turn is put behind
//! every note that does not come strictly after it. The result is in order,
//! holds the same notes, and keeps the notes of each cell in the order they
//! had. `sort_notes` computes it by merging.

use crate::song::Note;
use vstd::prelude::*;

verus! {

/// `a` is written before `b`: it sits at an earlier tick, or at the same tick
/// on a lower layer.
pub open spec fn note_before(a: Note, b: Note) -> bool {
    a.tick < b.tick || (a.tick == b.tick && a.layer < b.layer)
}

/// `a` and `b` sit in the same cell of the grid.
pub open spec fn same_cell(a: Note, b: Note) -> bool {
    a.tick == b.tick && a.layer == b.layer
}

/// No note of `s` comes strictly before an earlier one.
pub open spec fn ordered(s: Seq<Note>) -> bool {
    forall|i: int, j: int| 0 <= i < j < s.len() ==> !note_before(#[trigger] s[j], #[trigger] s[i])
}

/// Each note of `s` comes strictly before all later ones.
pub open spec fn ascending(s: Seq<Note>) -> bool {
    forall|i: int, j: int| 0 <= i < j < s.len() ==> note_before(#[trigger] s[i], #[trigger] s[j])
}

/// No two notes of `s` sit in the same cell.
pub open spec fn distinct_cells(s: Seq<Note>) -> bool {
    forall|i: int, j: int| 0 <= i < j < s.len() ==> !same_cell(#[trigger] s[i], #[trigger] s[j])
}

/// `s` with `n` put in front of the first note that comes strictly after it,
/// or at the end where there is none.
pub open spec fn insert_note(s: Seq<Note>, n: Note) -> Seq<Note>
    decreases s.len(),
{
    if s.len() == 0 || note_before(n, s[0]) {
        seq![n] + s
    } else {
        seq![s[0]] + insert_note(s.skip(1), n)
    }
}

/// The notes of `s` in the order in which they are written. Notes that share
/// a cell stay in the order they have in `s`.
pub open spec fn sorted_notes(s: Seq<Note>) -> Seq<Note>
    decreases s.len(),
{
    if s.len() == 0 {
        s
    } else {
        insert_note(sorted_notes(s.drop_last()), s.last())
    }
}

/// `x` and `y` merged: the next note is taken from `y` only where it comes
/// strictly before the next note of `x`.
pub open spec fn merged_notes(x: Seq<Note>, y: Seq<Note>) -> Seq<Note>
    decreases x.len() + y.len(),
{
    if x.len() == 0 {
        y
    } else if y.len() == 0 {
        x
    } else if note_before(y[0], x[0]) {
        seq![y[0]] + merged_notes(x, y.skip(1))
    } else {
        seq![x[0]] + merged_notes(x.skip(1), y)
    }
}

/// Inserting a note into a merge is merging with the note inserted into the
/// second part.
proof fn lemma_insert_into_merge(x: Seq<Note>, y: Seq<Note>, n: Note)
    ensures
        insert_note(merged_notes(x, y), n) == merged_notes(x, insert_note(y, n)),
    decreases x.len() + y.len(),
{
    let yn = insert_note(y, n);
    let m = merged_notes(x, y);
    if x.len() == 0 {
    } else if y.len() == 0 {
        assert(yn =~= seq![n]);
        if note_before(n, x[0]) {
            assert(yn.skip(1) =~= Seq::<Note>::empty());
            assert(merged_notes(x, yn.skip(1)) == x);
        } else {
            lemma_insert_into_merge(x.skip(1), y, n);
            assert(merged_notes(x.skip(1), y) =~= x.skip(1));
        }
    } else if note_before(y[0], x[0]) {
        assert(m.skip(1) =~= merged_notes(x, y.skip(1)));
        if note_before(n, y[0]) {
            assert(yn.skip(1) =~= y);
        } else {
            lemma_insert_into_merge(x, y.skip(1), n);
            assert(yn.skip(1) =~= insert_note(y.skip(1), n));
        }
    } else {
        assert(m.skip(1) =~= merged_notes(x.skip(1), y));
        if note_before(n, x[0]) {
            assert(yn.skip(1) =~= y);
        } else {
            lemma_insert_into_merge(x.skip(1), y, n);
        }
    }
}

/// Sorting two parts and merging them sorts the whole.
pub proof fn lemma_sorted_concat(a: Seq<Note>, b: Seq<Note>)
    ensures
        sorted_notes(a + b) == merged_notes(sorted_notes(a), sorted_notes(b)),
    decreases b.len(),
{
    if b.len() == 0 {
        assert(a + b =~= a);
        assert(merged_notes(sorted_notes(a), sorted_notes(b)) =~= sorted_notes(a));
    } else {
        assert((a + b).drop_last() =~= a + b.drop_last());
        lemma_sorted_concat(a, b.drop_last());
        lemma_insert_into_merge(sorted_notes(a), sorted_notes(b.drop_last()), b.last());
    }
}

/// The index at which `insert_note` puts `n`: that of the first note of `s`
/// that comes strictly after `n`, or the length of `s` where there is none.
pub open spec fn insert_position(s: Seq<Note>, n: Note) -> int
    decreases s.len(),
{
    if s.len() == 0 || note_before(n, s[0]) {
        0
    } else {
        1 + insert_position(s.skip(1), n)
    }
}

/// `insert_note` puts the note at `insert_position` and moves nothing else.
/// No note in front of that position comes strictly after the new one, and
/// the note at that position does.
pub proof fn lemma_insert_note(s: Seq<Note>, n: Note)
    ensures
        0 <= insert_position(s, n) <= s.len(),
        insert_note(s, n) == s.insert(insert_position(s, n), n),
        forall|i: int| 0 <= i < insert_position(s, n) ==> !note_before(n, #[trigger] s[i]),
        insert_position(s, n) < s.len() ==> note_before(n, s[insert_position(s, n)]),
    decreases s.len(),
{
    if s.len() == 0 || note_before(n, s[0]) {
        assert(insert_note(s, n) =~= s.insert(0, n));
    } else {
        let rest = s.skip(1);
        let k = insert_position(rest, n);
        lemma_insert_note(rest, n);
        assert(seq![s[0]] + rest.insert(k, n) =~= s.insert(k + 1, n));
        assert forall|i: int| 0 <= i < k + 1 implies !note_before(n, #[trigger] s[i]) by {
            if i > 0 {
                assert(s[i] == rest[i - 1]);
            }
        }
    }
}

/// Sorting keeps the notes: each occurs in the result as often as before.
pub proof fn lemma_sorted_notes_permutes(s: Seq<Note>)
    ensures
        sorted_notes(s).to_multiset() == s.to_multiset(),
        sorted_notes(s).len() == s.len(),
        forall|n: Note| sorted_notes(s).contains(n) <==> s.contains(n),
    decreases s.len(),
{
    broadcast use vstd::seq_lib::group_to_multiset_ensures;

    if s.len() > 0 {
        let front = sorted_notes(s.drop_last());
        lemma_sorted_notes_permutes(s.drop_last());
        lemma_insert_note(front, s.last());
        assert(s =~= s.drop_last().push(s.last()));
        assert(sorted_notes(s).to_multiset() == s.to_multiset());
    }
    assert forall|n: Note| sorted_notes(s).contains(n) <==> s.contains(n) by {
        assert(sorted_notes(s).to_multiset().count(n) == s.to_multiset().count(n));
    }
}

/// Sorting puts the notes in order.
pub proof fn lemma_sorted_notes_ordered(s: Seq<Note>)
    ensures
        ordered(sorted_notes(s)),
    decreases s.len(),
{
    if s.len() > 0 {
        let front = sorted_notes(s.drop_last());
        let n = s.last();
        let k = insert_position(front, n);
        lemma_sorted_notes_ordered(s.drop_last());
        lemma_insert_note(front, n);
        let out = front.insert(k, n);
        assert forall|i: int, j: int| 0 <= i < j < out.len() implies !note_before(
            #[trigger] out[j],
            #[trigger] out[i],
        ) by {
            if j > k {
                assert(out[j] == front[j - 1]);
                assert(!note_before(front[j - 1], front[k]));
            }
            if i < k {
                assert(out[i] == front[i]);
            } else if i > k {
                assert(out[i] == front[i - 1]);
            }
        }
    }
}

/// The predicate that holds of the notes in the cell of `cell`.
pub open spec fn in_cell_of(cell: Note) -> spec_fn(Note) -> bool {
    |n: Note| same_cell(n, cell)
}

/// Inserting a note into notes that are in order puts it behind the notes of
/// its cell, and leaves the notes of every other cell as they are.
proof fn lemma_insert_note_in_cell(s: Seq<Note>, n: Note, cell: Note)
    requires
        ordered(s),
    ensures
        insert_note(s, n).filter(in_cell_of(cell)) == if same_cell(n, cell) {
            s.filter(in_cell_of(cell)).push(n)
        } else {
            s.filter(in_cell_of(cell))
        },
    decreases s.len(),
{
    let pick = in_cell_of(cell);
    if s.len() == 0 || note_before(n, s[0]) {
        s.lemma_filter_prepend(n, pick);
        if same_cell(n, cell) {
            let found = s.filter(pick);
            if found.len() > 0 {
                s.lemma_filter_pred(pick, 0);
                assert(found.contains(found[0]));
                s.lemma_filter_contains_rev(pick, found[0]);
                let j = choose|j: int| 0 <= j < s.len() && s[j] == found[0];
                assert(!note_before(s[j], s[0]));
            }
            assert(seq![n] + found =~= found.push(n));
        } else {
            assert(Seq::<Note>::empty() + s.filter(pick) =~= s.filter(pick));
        }
    } else {
        let rest = s.skip(1);
        assert(ordered(rest)) by {
            assert forall|i: int, j: int| 0 <= i < j < rest.len() implies !note_before(
                #[trigger] rest[j],
                #[trigger] rest[i],
            ) by {
                assert(rest[i] == s[i + 1] && rest[j] == s[j + 1]);
            }
        }
        lemma_insert_note_in_cell(rest, n, cell);
        insert_note(rest, n).lemma_filter_prepend(s[0], pick);
        rest.lemma_filter_prepend(s[0], pick);
        assert(seq![s[0]] + rest =~= s);
        let head = if pick(s[0]) {
            seq![s[0]]
        } else {
            Seq::<Note>::empty()
        };
        assert(head + rest.filter(pick).push(n) =~= (head + rest.filter(pick)).push(n));
    }
}

/// Sorting is stable: the notes of each cell come out in the order in which
/// they went in.
pub proof fn lemma_sorted_notes_stable(s: Seq<Note>, cell: Note)
    ensures
        sorted_notes(s).filter(in_cell_of(cell)) == s.filter(in_cell_of(cell)),
    decreases s.len(),
{
    if s.len() > 0 {
        let rest = s.drop_last();
        lemma_sorted_notes_stable(rest, cell);
        lemma_sorted_notes_ordered(rest);
        lemma_insert_note_in_cell(sorted_notes(rest), s.last(), cell);
        rest.lemma_filter_push(s.last(), in_cell_of(cell));
        assert(rest.push(s.last()) =~= s);
    }
}

/// Where no two notes share a cell, sorting puts the notes in strictly
/// ascending order.
pub proof fn lemma_sorted_notes_ascending(s: Seq<Note>)
    requires
        distinct_cells(s),
    ensures
        ascending(sorted_notes(s)),
{
    let out = sorted_notes(s);
    lemma_sorted_notes_ordered(s);
    lemma_sorted_notes_permutes(s);
    lemma_distinct_cells_sorted(s);
    assert forall|i: int, j: int| 0 <= i < j < out.len() implies note_before(
        #[trigger] out[i],
        #[trigger] out[j],
    ) by {
        assert(!note_before(out[j], out[i]));
        assert(!same_cell(out[i], out[j]));
    }
}

/// Where no two notes share a cell, the same holds after sorting.
pub proof fn lemma_distinct_cells_sorted(s: Seq<Note>)
    requires
        distinct_cells(s),
    ensures
        distinct_cells(sorted_notes(s)),
    decreases s.len(),
{
    if s.len() > 0 {
        let rest = s.drop_last();
        let front = sorted_notes(rest);
        let n = s.last();
        let k = insert_position(front, n);
        assert(distinct_cells(rest)) by {
            assert forall|i: int, j: int| 0 <= i < j < rest.len() implies !same_cell(
                #[trigger] rest[i],
                #[trigger] rest[j],
            ) by {
                assert(rest[i] == s[i] && rest[j] == s[j]);
            }
        }
        lemma_distinct_cells_sorted(rest);
        lemma_sorted_notes_permutes(rest);
        lemma_insert_note(front, n);
        let out = front.insert(k, n);
        assert forall|i: int| 0 <= i < front.len() implies !same_cell(#[trigger] front[i], n) by {
            assert(front.contains(front[i]));
            assert(rest.contains(front[i]));
            let j = choose|j: int| 0 <= j < rest.len() && rest[j] == front[i];
            assert(s[j] == rest[j]);
            assert(!same_cell(s[j], s[s.len() - 1]));
        }
        assert forall|i: int, j: int| 0 <= i < j < out.len() implies !same_cell(
            #[trigger] out[i],
            #[trigger] out[j],
        ) by {
            let a = if i < k { i } else { i - 1 };
            let b = if j < k { j } else { j - 1 };
            if i != k {
                assert(out[i] == front[a]);
            }
            if j != k {
                assert(out[j] == front[b]);
            }
        }
    }
}

/// Sorting notes that are in order already changes nothing.
pub proof fn lemma_sorted_notes_of_ordered(s: Seq<Note>)
    requires
        ordered(s),
    ensures
        sorted_notes(s) == s,
    decreases s.len(),
{
    if s.len() > 0 {
        let rest = s.drop_last();
        let n = s.last();
        assert(ordered(rest)) by {
            assert forall|i: int, j: int| 0 <= i < j < rest.len() implies !note_before(
                #[trigger] rest[j],
                #[trigger] rest[i],
            ) by {
                assert(rest[i] == s[i] && rest[j] == s[j]);
            }
        }
        lemma_sorted_notes_of_ordered(rest);
        lemma_insert_note(rest, n);
        let k = insert_position(rest, n);
        if k < rest.len() {
            assert(rest[k] == s[k]);
            assert(!note_before(s[s.len() - 1], s[k]));
        }
        assert(rest.insert(k, n) =~= s);
    }
}

/// Whether `a` is written before `b`.
pub fn note_precedes(a: &Note, b: &Note) -> (r: bool)
    ensures
        r == note_before(*a, *b),
{
    a.tick < b.tick || (a.tick == b.tick && a.layer < b.layer)
}

/// Merges two runs of notes.
fn merge_notes(x: &Vec<Note>, y: &Vec<Note>) -> (out: Vec<Note>)
    ensures
        out@ == merged_notes(x@, y@),
{
    let mut out: Vec<Note> = Vec::new();
    let mut i: usize = 0;
    let mut j: usize = 0;
    proof {
        assert(x@.skip(0) =~= x@);
        assert(y@.skip(0) =~= y@);
        assert(out@ + merged_notes(x@, y@) =~= merged_notes(x@, y@));
    }
    while i < x.len() || j < y.len()
        invariant
            i <= x.len(),
            j <= y.len(),
            merged_notes(x@, y@) == out@ + merged_notes(x@.skip(i as int), y@.skip(j as int)),
        decreases x.len() - i + y.len() - j,
    {
        let ghost rest = merged_notes(x@.skip(i as int), y@.skip(j as int));
        let from_y: bool = if i == x.len() {
            true
        } else if j == y.len() {
            false
        } else {
            note_precedes(&y[j], &x[i])
        };
        if from_y {
            proof {
                assert(y@.skip(j as int).skip(1) =~= y@.skip(j + 1));
                let tail = merged_notes(x@.skip(i as int), y@.skip(j + 1));
                if i == x.len() {
                    assert(tail =~= y@.skip(j + 1));
                    assert(rest =~= seq![y@[j as int]] + tail);
                }
                assert(out@.push(y@[j as int]) + tail =~= out@ + rest);
            }
            out.push(y[j]);
            j += 1;
        } else {
            proof {
                assert(x@.skip(i as int).skip(1) =~= x@.skip(i + 1));
                let tail = merged_notes(x@.skip(i + 1), y@.skip(j as int));
                if j == y.len() {
                    assert(tail =~= x@.skip(i + 1));
                    assert(rest =~= seq![x@[i as int]] + tail);
                }
                assert(out@.push(x@[i as int]) + tail =~= out@ + rest);
            }
            out.push(x[i]);
            i += 1;
        }
    }
    proof {
        assert(merged_notes(x@.skip(i as int), y@.skip(j as int)) =~= Seq::<Note>::empty());
        assert(out@ + Seq::<Note>::empty() =~= out@);
    }
    out
}

/// Sorts the notes at the indices `lo .. hi`.
fn sort_range(notes: &Vec<Note>, lo: usize, hi: usize) -> (out: Vec<Note>)
    requires
        lo <= hi <= notes.len(),
    ensures
        out@ == sorted_notes(notes@.subrange(lo as int, hi as int)),
    decreases hi - lo,
{
    let ghost part = notes@.subrange(lo as int, hi as int);
    if hi - lo == 0 {
        Vec::new()
    } else if hi - lo == 1 {
        let mut out: Vec<Note> = Vec::new();
        out.push(notes[lo]);
        proof {
            assert(sorted_notes(part.drop_last()) =~= Seq::<Note>::empty());
            assert(out@ =~= insert_note(Seq::<Note>::empty(), part.last()));
        }
        out
    } else {
        let mid: usize = lo + (hi - lo) / 2;
        let left: Vec<Note> = sort_range(notes, lo, mid);
        let right: Vec<Note> = sort_range(notes, mid, hi);
        proof {
            let a = notes@.subrange(lo as int, mid as int);
            let b = notes@.subrange(mid as int, hi as int);
            assert(part =~= a + b);
            lemma_sorted_concat(a, b);
        }
        merge_notes(&left, &right)
    }
}

/// A sorted copy of `notes`: by tick, then by layer, notes of one cell in the
/// order they had.
pub fn sort_notes(notes: &Vec<Note>) -> (out: Vec<Note>)
    ensures
        out@ == sorted_notes(notes@),
        ordered(out@),
        out@.to_multiset() == notes@.to_multiset(),
        forall|cell: Note| #[trigger]
            out@.filter(in_cell_of(cell)) == notes@.filter(in_cell_of(cell)),
{
    proof {
        assert(notes@.subrange(0, notes.len() as int) =~= notes@);
        lemma_sorted_notes_ordered(notes@);
        lemma_sorted_notes_permutes(notes@);
        assert forall|cell: Note| #[trigger]
            sorted_notes(notes@).filter(in_cell_of(cell)) == notes@.filter(
                in_cell_of(cell),
            ) by {
            lemma_sorted_notes_stable(notes@, cell);
        }
    }
    sort_range(notes, 0, notes.len())
}

} // verus!
