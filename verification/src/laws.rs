//! What holds of the codec as a whole.
//!
//! The functions of this crate are specified one by one, each against the
//! layout of the part it reads or writes. The statements here relate them:
//! what is written is read back, a buffer that was cut short is refused, and
//! bringing a header up to date twice changes nothing.

use crate::codec::{
    decoded, file_at, file_bytes, fits_format, lemma_file_at_cut, lemma_file_read_back, read_back,
};
use crate::cursor::{bytes_at, lemma_bytes_written, lemma_holds_at_between, length_prefixed};
use crate::error::NbsError;
use crate::layers::renumbered;
use crate::notes::{
    jumps_fit, lemma_ascending_is_readable, lemma_groups_are_ticks, lemma_notes_from_len,
    note_stream, readable_from, ticks_of,
};
use crate::order::{
    ascending, distinct_cells, lemma_sorted_notes_ascending, lemma_sorted_notes_of_ordered,
    lemma_sorted_notes_ordered, lemma_sorted_notes_permutes, ordered, sorted_notes,
};
use crate::song::{LayerView, NbsFileView, Note, CURRENT_NBS_VERSION};
use vstd::prelude::*;

verus! {

/// The song can be written and read back: no two of its notes share a cell,
/// none of the jumps between its notes is as long as 65536, and its counts
/// and lengths fit the format.
pub open spec fn round_trips(f: NbsFileView) -> bool {
    &&& distinct_cells(f.notes)
    &&& jumps_fit(sorted_notes(f.notes))
    &&& fits_format(f)
}

/// Each layer has its place in the list as its `id`.
pub open spec fn numbered_in_order(layers: Seq<LayerView>) -> bool {
    forall|i: int| 0 <= i < layers.len() ==> (#[trigger] layers[i]).id == i
}

/// Bringing the header up to date keeps a song that fits the format within
/// the format, and makes its header count its layers.
proof fn lemma_normalized_fits(f: NbsFileView)
    requires
        fits_format(f),
    ensures
        fits_format(f.normalized()),
        f.normalized().header.song_layers == f.layers.len(),
{
}

/// Notes of distinct cells whose jumps fit can, once sorted, be written and
/// read back.
proof fn lemma_sorted_is_readable(notes: Seq<Note>)
    requires
        distinct_cells(notes),
        jumps_fit(sorted_notes(notes)),
    ensures
        readable_from(None, sorted_notes(notes)),
{
    lemma_sorted_notes_ascending(notes);
    lemma_ascending_is_readable(None, sorted_notes(notes));
}

/// Writing a song whose header is up to date, and reading the bytes, gives
/// the song back, with its notes in ascending order of tick and layer. The
/// notes are the same notes, and everything else, the header among it, is as
/// it was written.
///
/// This holds of a song that carries the version of the codec and whose
/// layers are numbered in order: reading puts both in place, whatever was
/// written (see `lemma_written_is_read_back`).
pub proof fn lemma_round_trip(f: NbsFileView)
    requires
        round_trips(f),
        f.header.version == CURRENT_NBS_VERSION,
        numbered_in_order(f.layers),
    ensures
        decoded(file_bytes(f.normalized())) == Ok::<NbsFileView, NbsError>(
            NbsFileView { notes: sorted_notes(f.notes), ..f.normalized() },
        ),
        ascending(sorted_notes(f.notes)),
        sorted_notes(f.notes).to_multiset() == f.notes.to_multiset(),
{
    lemma_written_is_read_back(f);
    lemma_sorted_notes_ascending(f.notes);
    lemma_sorted_notes_permutes(f.notes);
    assert(renumbered(f.layers, 0) =~= f.layers);
}

/// Writing any song that can be written and read back, with its header up
/// to date, and reading the bytes, gives the song with the version of the
/// codec in its header, with its notes sorted and with its layers numbered
/// in order. All of the buffer is read.
pub proof fn lemma_written_is_read_back(f: NbsFileView)
    requires
        round_trips(f),
    ensures
        decoded(file_bytes(f.normalized())) == Ok::<NbsFileView, NbsError>(
            read_back(f.normalized()),
        ),
        file_at(file_bytes(f.normalized()), 0) == Ok::<(NbsFileView, int), NbsError>(
            (read_back(f.normalized()), file_bytes(f.normalized()).len() as int),
        ),
{
    let g = f.normalized();
    lemma_normalized_fits(f);
    lemma_sorted_is_readable(f.notes);
    lemma_holds_at_between(Seq::empty(), file_bytes(g), Seq::empty());
    lemma_file_read_back(file_bytes(g), 0, g);
}

/// Writing a song that was read, and reading the bytes, gives the same song:
/// reading leaves nothing to put in place in a song whose notes are in
/// order, whose layers are numbered in order and which carries the version
/// of the codec.
pub proof fn lemma_read_back_unchanged(f: NbsFileView)
    requires
        f.header.version == CURRENT_NBS_VERSION,
        ordered(f.notes),
        numbered_in_order(f.layers),
    ensures
        read_back(f) == f,
{
    lemma_sorted_notes_of_ordered(f.notes);
    assert(renumbered(f.layers, 0) =~= f.layers);
}

/// Where a song is read from a buffer, every shorter beginning of the buffer
/// that does not hold all of the song is refused as ending too early.
pub proof fn lemma_truncated_buffer_fails(s: Seq<u8>, k: int)
    requires
        file_at(s, 0) is Ok,
        0 <= k < (file_at(s, 0)->Ok_0).1,
    ensures
        decoded(s.take(k)) == Err::<NbsFileView, NbsError>(NbsError::UnexpectedEndOfData),
{
    lemma_file_at_cut(s, 0, s.len() as int);
    lemma_file_at_cut(s, 0, k);
}

/// Every proper beginning of a written song is refused as ending too early.
pub proof fn lemma_truncated_song_fails(f: NbsFileView, k: int)
    requires
        round_trips(f),
        0 <= k < file_bytes(f.normalized()).len(),
    ensures
        decoded(file_bytes(f.normalized()).take(k)) == Err::<NbsFileView, NbsError>(
            NbsError::UnexpectedEndOfData,
        ),
{
    lemma_written_is_read_back(f);
    lemma_truncated_buffer_fails(file_bytes(f.normalized()), k);
}

/// A note stream takes 8 bytes for each note, 4 for each tick that holds a
/// note, and 2 for its end, whatever the order of the notes.
pub proof fn lemma_note_stream_len(notes: Seq<Note>)
    ensures
        ticks_of(notes).finite(),
        note_stream(notes).len() == 8 * notes.len() + 4 * ticks_of(notes).len() + 2,
{
    let sorted = sorted_notes(notes);
    lemma_sorted_notes_ordered(notes);
    lemma_sorted_notes_permutes(notes);
    lemma_notes_from_len(None, sorted);
    lemma_groups_are_ticks(None, sorted);
    assert forall|tick: u16| ticks_of(sorted).contains(tick) implies ticks_of(notes).contains(
        tick,
    ) by {
        let i = choose|i: int| 0 <= i < sorted.len() && (#[trigger] sorted[i]).tick == tick;
        assert(sorted.contains(sorted[i]));
        assert(notes.contains(sorted[i]));
        let j = choose|j: int| 0 <= j < notes.len() && notes[j] == sorted[i];
        assert(notes[j].tick == tick);
    }
    assert forall|tick: u16| ticks_of(notes).contains(tick) implies ticks_of(sorted).contains(
        tick,
    ) by {
        let i = choose|i: int| 0 <= i < notes.len() && (#[trigger] notes[i]).tick == tick;
        assert(notes.contains(notes[i]));
        assert(sorted.contains(notes[i]));
        let j = choose|j: int| 0 <= j < sorted.len() && sorted[j] == notes[i];
        assert(sorted[j].tick == tick);
    }
    assert(ticks_of(sorted) =~= ticks_of(notes));
}

/// Bringing a header up to date a second time changes nothing.
pub proof fn lemma_normalize_idempotent(f: NbsFileView)
    ensures
        f.normalized().normalized() == f.normalized(),
{
}

/// A byte string that is written with its length in front is read back byte
/// for byte, whether or not it is valid text, whatever stands before and
/// behind it.
pub proof fn lemma_string_round_trip(before: Seq<u8>, b: Seq<u8>, after: Seq<u8>)
    requires
        b.len() <= u32::MAX,
    ensures
        bytes_at(before + length_prefixed(b) + after, before.len() as int) == Some(b),
{
    lemma_holds_at_between(before, length_prefixed(b), after);
    lemma_bytes_written(before + length_prefixed(b) + after, before.len() as int, b);
}

} // verus!
