//! The note stream: the grid of notes, written as jumps from one occupied
//! cell to the next.
//!
//! The stream is a list of tick groups. A group starts with the distance from
//! the previous occupied tick (from -1 for the first), holds one record per
//! note of that tick, and ends with a zero. A record is the distance from the
//! previous occupied layer of the tick (from -1 for the first) and six bytes
//! of note data. A zero in place of a tick distance ends the stream.

use crate::cursor::{
    holds_at, lemma_holds_at_byte, lemma_holds_at_parts, lemma_i16_written, lemma_u16_written,
    u16_at, NbsParser, NbsWriter,
};
use crate::endian::{i16_from_le, i16_le, u16_le};
use crate::error::NbsError;
use crate::order::{ascending, note_before, ordered, sort_notes, sorted_notes};
use crate::panning::{
    lemma_panning_read_back, panning_byte, panning_from_byte, panning_of, panning_to_byte,
};
use crate::song::Note;
use vstd::prelude::*;

verus! {

/// Where a cursor arrives that stands at `cursor` (-1 before its first step)
/// and jumps by `jump`. Cursors have sixteen bits and wrap around.
pub open spec fn jump_target(cursor: int, jump: u16) -> u16 {
    ((cursor + jump) % 65536) as u16
}

/// The jump that is written to get from `cursor` to `target`: their distance,
/// as far as sixteen bits hold it.
pub open spec fn jump_between(cursor: int, target: u16) -> u16 {
    ((target - cursor) % 65536) as u16
}

/// The six bytes of note data: instrument, key, velocity, panning, and the
/// pitch in two bytes.
pub open spec fn note_fields(n: Note) -> Seq<u8> {
    seq![n.instrument, n.key, n.velocity, panning_byte(n.panning)] + i16_le(n.pitch)
}

/// The note in the cell `(tick, layer)` whose six bytes of data start at
/// `pos`.
pub open spec fn note_at(s: Seq<u8>, pos: int, tick: u16, layer: u16) -> Note {
    Note {
        tick,
        layer,
        instrument: s[pos],
        key: s[pos + 1],
        velocity: s[pos + 2],
        panning: panning_of(s[pos + 3]),
        pitch: i16_from_le(s[pos + 4], s[pos + 5]),
    }
}

/// The notes found by scanning from `pos`, and the position behind the zero
/// that ends the stream; `None` where the bytes run out first.
///
/// `tick` is the tick cursor. `layer` is the layer cursor while the scan is
/// inside a tick group, and `None` while it is between groups.
#[verifier::opaque]
pub open spec fn notes_at(s: Seq<u8>, pos: int, tick: int, layer: Option<int>) -> Option<
    (Seq<Note>, int),
>
    decreases s.len() - pos,
{
    match u16_at(s, pos) {
        None => None,
        Some(jump) => match layer {
            None => if jump == 0 {
                Some((Seq::empty(), pos + 2))
            } else {
                notes_at(s, pos + 2, jump_target(tick, jump) as int, Some(-1))
            },
            Some(layer) => if jump == 0 {
                notes_at(s, pos + 2, tick, None)
            } else if pos + 8 > s.len() {
                None
            } else {
                let layer = jump_target(layer, jump);
                match notes_at(s, pos + 8, tick, Some(layer as int)) {
                    Some((rest, end)) => Some(
                        (seq![note_at(s, pos + 2, tick as u16, layer)] + rest, end),
                    ),
                    None => None,
                }
            },
        },
    }
}

/// The note stream that starts at `pos`: its notes, and the position behind
/// it.
pub open spec fn note_stream_at(s: Seq<u8>, pos: int) -> Option<(Seq<Note>, int)> {
    notes_at(s, pos, -1, None)
}

/// The bytes written for `n` when `prev` was written just before it (`None`
/// for the first note): where `n` opens a tick group, the zero that closes the
/// group before it, if there is one, and the tick jump; then the layer jump
/// and the note data.
pub open spec fn note_record(prev: Option<Note>, n: Note) -> Seq<u8> {
    match prev {
        None => u16_le(jump_between(-1, n.tick)) + u16_le(jump_between(-1, n.layer))
            + note_fields(n),
        Some(p) => if p.tick != n.tick {
            u16_le(0) + u16_le(jump_between(p.tick as int, n.tick)) + u16_le(
                jump_between(-1, n.layer),
            ) + note_fields(n)
        } else {
            u16_le(jump_between(p.layer as int, n.layer)) + note_fields(n)
        },
    }
}

/// The rest of a note stream: the records of `notes`, of which `prev` was
/// written just before the first, and the end of the stream. The end is one
/// zero where no note was written at all, and two where a tick group has to
/// be closed first.
pub open spec fn notes_from(prev: Option<Note>, notes: Seq<Note>) -> Seq<u8>
    decreases notes.len(),
{
    if notes.len() == 0 {
        match prev {
            None => u16_le(0),
            Some(_) => u16_le(0) + u16_le(0),
        }
    } else {
        note_record(prev, notes[0]) + notes_from(Some(notes[0]), notes.skip(1))
    }
}

/// `n`, written behind `prev`, opens a tick group: it is the first note of
/// the stream, or it sits at another tick than `prev`.
pub open spec fn opens_group(prev: Option<Note>, n: Note) -> bool {
    match prev {
        None => true,
        Some(p) => p.tick != n.tick,
    }
}

/// The number of tick groups that are opened when `notes` are written behind
/// `prev`.
pub open spec fn groups_opened(prev: Option<Note>, notes: Seq<Note>) -> nat
    decreases notes.len(),
{
    if notes.len() == 0 {
        0
    } else {
        let rest = groups_opened(Some(notes[0]), notes.skip(1));
        if opens_group(prev, notes[0]) {
            rest + 1
        } else {
            rest
        }
    }
}

/// The ticks that hold a note.
pub open spec fn ticks_of(notes: Seq<Note>) -> Set<u16> {
    Set::new(|tick: u16| exists|i: int| 0 <= i < notes.len() && (#[trigger] notes[i]).tick == tick)
}

/// The rest of a note stream takes 8 bytes for each note, 4 for each tick
/// group that is opened, and 2 for the end of the stream, or 4 where a group
/// is open already and has to be closed.
pub proof fn lemma_notes_from_len(prev: Option<Note>, notes: Seq<Note>)
    ensures
        prev is None ==> notes_from(prev, notes).len() == 8 * notes.len() + 4 * groups_opened(
            prev,
            notes,
        ) + 2,
        prev is Some ==> notes_from(prev, notes).len() == 8 * notes.len() + 4 * groups_opened(
            prev,
            notes,
        ) + 4,
    decreases notes.len(),
{
    if notes.len() > 0 {
        lemma_notes_from_len(Some(notes[0]), notes.skip(1));
    }
}

/// The ticks of a list of notes are the tick of the first note and the
/// ticks of the others, and they are finitely many.
proof fn lemma_ticks_of(notes: Seq<Note>)
    ensures
        ticks_of(notes).finite(),
        notes.len() == 0 ==> ticks_of(notes) == Set::<u16>::empty(),
        notes.len() > 0 ==> ticks_of(notes) == ticks_of(notes.skip(1)).insert(notes[0].tick),
    decreases notes.len(),
{
    if notes.len() == 0 {
        assert(ticks_of(notes) =~= Set::<u16>::empty());
    } else {
        let rest = notes.skip(1);
        let joined = ticks_of(rest).insert(notes[0].tick);
        lemma_ticks_of(rest);
        assert forall|tick: u16| ticks_of(notes).contains(tick) implies joined.contains(tick) by {
            let i = choose|i: int| 0 <= i < notes.len() && (#[trigger] notes[i]).tick == tick;
            if i > 0 {
                assert(rest[i - 1] == notes[i]);
            }
        }
        assert forall|tick: u16| joined.contains(tick) implies ticks_of(notes).contains(tick) by {
            if tick == notes[0].tick {
                assert(notes[0].tick == tick);
            } else {
                let i = choose|i: int| 0 <= i < rest.len() && (#[trigger] rest[i]).tick == tick;
                assert(notes[i + 1] == rest[i]);
            }
        }
        assert(ticks_of(notes) =~= joined);
    }
}

/// Where notes are in order, a tick group is opened for each tick that holds
/// a note, but for the tick of `prev`, whose group is open already.
pub proof fn lemma_groups_are_ticks(prev: Option<Note>, notes: Seq<Note>)
    requires
        ordered(notes),
        prev is Some ==> forall|i: int|
            0 <= i < notes.len() ==> (prev->0).tick <= (#[trigger] notes[i]).tick,
    ensures
        ticks_of(notes).finite(),
        prev is None ==> groups_opened(prev, notes) == ticks_of(notes).len(),
        prev is Some ==> groups_opened(prev, notes) == ticks_of(notes).remove((prev->0).tick).len(),
    decreases notes.len(),
{
    lemma_ticks_of(notes);
    if notes.len() == 0 {
        if prev is Some {
            assert(ticks_of(notes).remove((prev->0).tick) =~= Set::<u16>::empty());
        }
    } else {
        let first = notes[0];
        let rest = notes.skip(1);
        assert forall|i: int, j: int| 0 <= i < j < rest.len() implies !note_before(
            #[trigger] rest[j],
            #[trigger] rest[i],
        ) by {
            assert(rest[i] == notes[i + 1] && rest[j] == notes[j + 1]);
        }
        assert forall|i: int| 0 <= i < rest.len() implies first.tick
            <= (#[trigger] rest[i]).tick by {
            assert(rest[i] == notes[i + 1]);
            assert(!note_before(notes[i + 1], notes[0]));
        }
        lemma_groups_are_ticks(Some(first), rest);
        let others = ticks_of(rest).remove(first.tick);
        assert(ticks_of(notes) =~= others.insert(first.tick));
        match prev {
            None => {},
            Some(p) => {
                if p.tick != first.tick {
                    assert(!ticks_of(notes).contains(p.tick)) by {
                        if ticks_of(notes).contains(p.tick) {
                            let i = choose|i: int|
                                0 <= i < notes.len() && (#[trigger] notes[i]).tick == p.tick;
                            assert(!note_before(notes[i], notes[0]));
                        }
                    }
                    assert(ticks_of(notes).remove(p.tick) =~= ticks_of(notes));
                } else {
                    assert(ticks_of(notes).remove(p.tick) =~= others);
                }
            },
        }
    }
}

/// The note stream of `notes`: the notes are sorted, then written one by
/// one.
pub open spec fn note_stream(notes: Seq<Note>) -> Seq<u8> {
    notes_from(None, sorted_notes(notes))
}

/// `found` with `notes` put in front of the notes it holds.
pub open spec fn after_notes(notes: Seq<Note>, found: Option<(Seq<Note>, int)>) -> Option<
    (Seq<Note>, int),
> {
    match found {
        Some((rest, end)) => Some((notes + rest, end)),
        None => None,
    }
}

/// One step of the scan: what `notes_at` is, in terms of the jump at `pos`
/// and of the scan behind it.
pub proof fn lemma_notes_at_step(s: Seq<u8>, pos: int, tick: int, layer: Option<int>)
    ensures
        notes_at(s, pos, tick, layer) == match (u16_at(s, pos), layer) {
            (None, _) => None,
            (Some(jump), None) => if jump == 0 {
                Some((Seq::empty(), pos + 2))
            } else {
                notes_at(s, pos + 2, jump_target(tick, jump) as int, Some(-1))
            },
            (Some(jump), Some(cursor)) => if jump == 0 {
                notes_at(s, pos + 2, tick, None)
            } else if pos + 8 > s.len() {
                None
            } else {
                after_notes(
                    seq![note_at(s, pos + 2, tick as u16, jump_target(cursor, jump))],
                    notes_at(s, pos + 8, tick, Some(jump_target(cursor, jump) as int)),
                )
            },
        },
{
    reveal(notes_at);
}

/// `n` can be written behind `prev` and read back: it comes strictly after
/// `prev`, and the jumps to it are shorter than 65536, the one length that
/// sixteen bits turn into the zero that ends a group or the stream.
pub open spec fn follows(prev: Option<Note>, n: Note) -> bool {
    match prev {
        None => n.tick < 65535 && n.layer < 65535,
        Some(p) => note_before(p, n) && (p.tick != n.tick ==> n.layer < 65535),
    }
}

/// Each of `notes` can be written behind the one before it, the first behind
/// `prev`, and read back.
pub open spec fn readable_from(prev: Option<Note>, notes: Seq<Note>) -> bool
    decreases notes.len(),
{
    notes.len() == 0 || (follows(prev, notes[0]) && readable_from(
        Some(notes[0]),
        notes.skip(1),
    ))
}

/// No jump that is taken to write `notes` in this order is as long as 65536:
/// the first note is not at tick 65535, and no note that opens a tick group
/// is on layer 65535.
pub open spec fn jumps_fit(notes: Seq<Note>) -> bool {
    &&& notes.len() > 0 ==> notes[0].tick < 65535
    &&& forall|i: int|
        0 <= i < notes.len() && (i == 0 || notes[i - 1].tick != notes[i].tick)
            ==> (#[trigger] notes[i]).layer < 65535
}

/// The tick cursor of a scan that has just read `prev`.
pub open spec fn tick_after(prev: Option<Note>) -> int {
    match prev {
        None => -1,
        Some(p) => p.tick as int,
    }
}

/// The layer cursor of a scan that has just read `prev`.
pub open spec fn layer_after(prev: Option<Note>) -> Option<int> {
    match prev {
        None => None,
        Some(p) => Some(p.layer as int),
    }
}

/// The six bytes of data of a note are read back as that note.
pub proof fn lemma_note_fields_read_back(s: Seq<u8>, pos: int, n: Note)
    requires
        holds_at(s, pos, note_fields(n)),
    ensures
        note_fields(n).len() == 6,
        note_at(s, pos, n.tick, n.layer) == n,
{
    let head = seq![n.instrument, n.key, n.velocity, panning_byte(n.panning)];
    lemma_holds_at_parts(s, pos, head, i16_le(n.pitch));
    lemma_i16_written(s, pos + 4, n.pitch);
    lemma_panning_read_back(n.panning);
    lemma_holds_at_byte(s, pos, head, 0);
    lemma_holds_at_byte(s, pos, head, 1);
    lemma_holds_at_byte(s, pos, head, 2);
    lemma_holds_at_byte(s, pos, head, 3);
}

/// Notes in strictly ascending order whose jumps fit can be written one
/// behind the other and read back.
pub proof fn lemma_ascending_is_readable(prev: Option<Note>, notes: Seq<Note>)
    requires
        ascending(notes),
        notes.len() > 0 ==> follows(prev, notes[0]),
        forall|i: int|
            0 < i < notes.len() && notes[i - 1].tick != notes[i].tick
                ==> (#[trigger] notes[i]).layer < 65535,
    ensures
        readable_from(prev, notes),
    decreases notes.len(),
{
    if notes.len() > 0 {
        let rest = notes.skip(1);
        assert forall|i: int, j: int| 0 <= i < j < rest.len() implies note_before(
            #[trigger] rest[i],
            #[trigger] rest[j],
        ) by {
            assert(rest[i] == notes[i + 1] && rest[j] == notes[j + 1]);
        }
        assert forall|i: int|
            0 < i < rest.len() && rest[i - 1].tick != rest[i].tick
            implies (#[trigger] rest[i]).layer < 65535 by {
            assert(rest[i] == notes[i + 1] && rest[i - 1] == notes[i]);
        }
        if rest.len() > 0 {
            assert(rest[0] == notes[1]);
            assert(note_before(notes[0], notes[1]));
        }
        lemma_ascending_is_readable(Some(notes[0]), rest);
    }
}

/// A jump that is longer than 0 and shorter than 65536 is written as it is,
/// and taking it leads to the target.
proof fn lemma_jump_there(cursor: int, target: u16)
    requires
        -1 <= cursor <= 65535,
        0 < target - cursor < 65536,
    ensures
        jump_between(cursor, target) == target - cursor,
        jump_target(cursor, jump_between(cursor, target)) == target,
{
}

/// The record of the first note of a stream is read back.
proof fn lemma_first_record_read_back(s: Seq<u8>, pos: int, n: Note)
    requires
        holds_at(s, pos, note_record(None, n)),
        follows(None, n),
    ensures
        note_record(None, n).len() == 10,
        notes_at(s, pos, -1, None) == after_notes(
            seq![n],
            notes_at(s, pos + 10, n.tick as int, Some(n.layer as int)),
        ),
{
    let tick_jump = jump_between(-1, n.tick);
    let layer_jump = jump_between(-1, n.layer);
    lemma_jump_there(-1, n.tick);
    lemma_jump_there(-1, n.layer);
    lemma_holds_at_parts(s, pos, u16_le(tick_jump) + u16_le(layer_jump), note_fields(n));
    lemma_holds_at_parts(s, pos, u16_le(tick_jump), u16_le(layer_jump));
    lemma_u16_written(s, pos, tick_jump);
    lemma_u16_written(s, pos + 2, layer_jump);
    lemma_note_fields_read_back(s, pos + 4, n);
    lemma_notes_at_step(s, pos, -1, None);
    lemma_notes_at_step(s, pos + 2, n.tick as int, Some(-1));
}

/// The record of a note that opens a tick group behind another group is read
/// back.
proof fn lemma_group_record_read_back(s: Seq<u8>, pos: int, p: Note, n: Note)
    requires
        holds_at(s, pos, note_record(Some(p), n)),
        follows(Some(p), n),
        p.tick != n.tick,
    ensures
        note_record(Some(p), n).len() == 12,
        notes_at(s, pos, p.tick as int, Some(p.layer as int)) == after_notes(
            seq![n],
            notes_at(s, pos + 12, n.tick as int, Some(n.layer as int)),
        ),
{
    let tick_jump = jump_between(p.tick as int, n.tick);
    let layer_jump = jump_between(-1, n.layer);
    lemma_jump_there(p.tick as int, n.tick);
    lemma_jump_there(-1, n.layer);
    lemma_holds_at_parts(
        s,
        pos,
        u16_le(0) + u16_le(tick_jump) + u16_le(layer_jump),
        note_fields(n),
    );
    lemma_holds_at_parts(s, pos, u16_le(0) + u16_le(tick_jump), u16_le(layer_jump));
    lemma_holds_at_parts(s, pos, u16_le(0), u16_le(tick_jump));
    lemma_u16_written(s, pos, 0);
    lemma_u16_written(s, pos + 2, tick_jump);
    lemma_u16_written(s, pos + 4, layer_jump);
    lemma_note_fields_read_back(s, pos + 6, n);
    lemma_notes_at_step(s, pos, p.tick as int, Some(p.layer as int));
    lemma_notes_at_step(s, pos + 2, p.tick as int, None);
    lemma_notes_at_step(s, pos + 4, n.tick as int, Some(-1));
}

/// The record of a note that continues a tick group is read back.
proof fn lemma_layer_record_read_back(s: Seq<u8>, pos: int, p: Note, n: Note)
    requires
        holds_at(s, pos, note_record(Some(p), n)),
        follows(Some(p), n),
        p.tick == n.tick,
    ensures
        note_record(Some(p), n).len() == 8,
        notes_at(s, pos, p.tick as int, Some(p.layer as int)) == after_notes(
            seq![n],
            notes_at(s, pos + 8, n.tick as int, Some(n.layer as int)),
        ),
{
    let layer_jump = jump_between(p.layer as int, n.layer);
    lemma_jump_there(p.layer as int, n.layer);
    lemma_holds_at_parts(s, pos, u16_le(layer_jump), note_fields(n));
    lemma_u16_written(s, pos, layer_jump);
    lemma_note_fields_read_back(s, pos + 2, n);
    lemma_notes_at_step(s, pos, p.tick as int, Some(p.layer as int));
}

/// A scan that has just read `prev` reads back the notes that were written
/// behind `prev`, and stops behind the end of the stream.
pub proof fn lemma_notes_read_back(s: Seq<u8>, pos: int, prev: Option<Note>, notes: Seq<Note>)
    requires
        holds_at(s, pos, notes_from(prev, notes)),
        readable_from(prev, notes),
    ensures
        notes_at(s, pos, tick_after(prev), layer_after(prev)) == Some(
            (notes, pos + notes_from(prev, notes).len()),
        ),
    decreases notes.len(),
{
    if notes.len() == 0 {
        match prev {
            None => {
                lemma_u16_written(s, pos, 0);
                lemma_notes_at_step(s, pos, -1, None);
            },
            Some(p) => {
                lemma_holds_at_parts(s, pos, u16_le(0), u16_le(0));
                lemma_u16_written(s, pos, 0);
                lemma_u16_written(s, pos + 2, 0);
                lemma_notes_at_step(s, pos, p.tick as int, Some(p.layer as int));
                lemma_notes_at_step(s, pos + 2, p.tick as int, None);
            },
        }
        assert(notes =~= Seq::<Note>::empty());
    } else {
        let n = notes[0];
        let rest = notes.skip(1);
        let record = note_record(prev, n);
        lemma_holds_at_parts(s, pos, record, notes_from(Some(n), rest));
        lemma_notes_read_back(s, pos + record.len(), Some(n), rest);
        assert(seq![n] + rest =~= notes);
        match prev {
            None => {
                lemma_first_record_read_back(s, pos, n);
            },
            Some(p) => {
                if p.tick != n.tick {
                    lemma_group_record_read_back(s, pos, p, n);
                } else {
                    lemma_layer_record_read_back(s, pos, p, n);
                }
            },
        }
    }
}

/// Cutting a buffer short behind a note stream leaves the stream as it is;
/// cutting it short inside the stream leaves no stream.
pub proof fn lemma_notes_at_cut(s: Seq<u8>, pos: int, tick: int, layer: Option<int>, k: int)
    requires
        notes_at(s, pos, tick, layer) is Some,
        0 <= k <= s.len(),
    ensures
        pos + 2 <= (notes_at(s, pos, tick, layer)->0).1 <= s.len(),
        notes_at(s.take(k), pos, tick, layer) == if k >= (notes_at(s, pos, tick, layer)->0).1 {
            notes_at(s, pos, tick, layer)
        } else {
            None
        },
    decreases s.len() - pos,
{
    let t = s.take(k);
    let jump = u16_at(s, pos)->0;
    lemma_notes_at_step(s, pos, tick, layer);
    lemma_notes_at_step(t, pos, tick, layer);
    if pos + 2 <= k {
        assert(u16_at(t, pos) == Some(jump));
    }
    match layer {
        None => {
            if jump != 0 {
                lemma_notes_at_cut(s, pos + 2, jump_target(tick, jump) as int, Some(-1), k);
            }
        },
        Some(at) => {
            if jump == 0 {
                lemma_notes_at_cut(s, pos + 2, tick, None, k);
            } else {
                let next = jump_target(at, jump);
                lemma_notes_at_cut(s, pos + 8, tick, Some(next as int), k);
                if pos + 8 <= k {
                    assert(note_at(t, pos + 2, tick as u16, next) == note_at(
                        s,
                        pos + 2,
                        tick as u16,
                        next,
                    ));
                }
            }
        },
    }
}

/// Moves a cursor by a jump.
fn jump_to(cursor: i32, jump: u16) -> (target: u16)
    requires
        -1 <= cursor <= 65535,
    ensures
        target == jump_target(cursor as int, jump),
{
    let sum: i32 = cursor + jump as i32;
    if sum < 0 {
        (sum + 65536) as u16
    } else if sum >= 65536 {
        (sum - 65536) as u16
    } else {
        sum as u16
    }
}

/// The jump to write for a cursor that moves to `target`.
fn jump_from(cursor: i32, target: u16) -> (jump: u16)
    requires
        -1 <= cursor <= 65535,
    ensures
        jump == jump_between(cursor as int, target),
{
    let distance: i32 = target as i32 - cursor;
    if distance < 0 {
        (distance + 65536) as u16
    } else if distance >= 65536 {
        (distance - 65536) as u16
    } else {
        distance as u16
    }
}

impl<'a> NbsParser<'a> {
    /// Reads the six bytes of data of the note in the cell `(tick, layer)`.
    fn read_note(&mut self, tick: u16, layer: u16) -> (r: Result<Note, NbsError>)
        ensures
            final(self).bytes() == old(self).bytes(),
            0 <= old(self).position() <= old(self).bytes().len(),
            if old(self).position() + 6 <= old(self).bytes().len() {
                r == Ok::<Note, NbsError>(
                    note_at(old(self).bytes(), old(self).position(), tick, layer),
                ) && final(self).position() == old(self).position() + 6
            } else {
                r == Err::<Note, NbsError>(NbsError::UnexpectedEndOfData)
                    && final(self).position() == old(self).position()
            },
    {
        if self.remaining() < 6 {
            return Err(NbsError::UnexpectedEndOfData);
        }
        let mut ahead: NbsParser<'a> = *self;
        let instrument: u8 = ahead.read_u8()?;
        let key: u8 = ahead.read_u8()?;
        let velocity: u8 = ahead.read_u8()?;
        let panning: i8 = panning_from_byte(ahead.read_u8()?);
        let pitch: i16 = ahead.read_i16()?;
        *self = ahead;
        Ok(Note { tick, layer, instrument, key, velocity, panning, pitch })
    }

    /// Reads a note stream. The notes come out in the order of the stream:
    /// by tick, and by layer within a tick.
    pub fn parse_notes(&mut self) -> (r: Result<Vec<Note>, NbsError>)
        ensures
            final(self).bytes() == old(self).bytes(),
            match note_stream_at(old(self).bytes(), old(self).position()) {
                Some((notes, end)) => r matches Ok(v) && v@ == notes && final(self).position()
                    == end,
                None => r == Err::<Vec<Note>, NbsError>(NbsError::UnexpectedEndOfData)
                    && final(self).position() == old(self).position(),
            },
    {
        let ghost s = self.bytes();
        let ghost whole = note_stream_at(s, self.position());
        let mut ahead: NbsParser<'a> = *self;
        let mut notes: Vec<Note> = Vec::new();
        let mut tick: i32 = -1;
        proof {
            assert(Seq::<Note>::empty() + (whole->0).0 =~= (whole->0).0);
        }
        loop
            invariant_except_break
                whole == after_notes(notes@, notes_at(s, ahead.position(), tick as int, None)),
            invariant
                *self == *old(self),
                whole == note_stream_at(s, old(self).position()),
                ahead.bytes() == s,
                s == old(self).bytes(),
                -1 <= tick <= 65535,
            ensures
                whole == Some((notes@, ahead.position())),
            decreases s.len() - ahead.position(),
        {
            let ghost mark = ahead.position();
            proof {
                lemma_notes_at_step(s, mark, tick as int, None);
            }
            let tick_jump: u16 = match ahead.read_u16() {
                Ok(jump) => jump,
                Err(e) => {
                    return Err(e);
                },
            };
            if tick_jump == 0 {
                proof {
                    assert(notes@ + Seq::<Note>::empty() =~= notes@);
                }
                break ;
            }
            tick = jump_to(tick, tick_jump) as i32;
            let mut layer: i32 = -1;
            loop
                invariant_except_break
                    whole == after_notes(
                        notes@,
                        notes_at(s, ahead.position(), tick as int, Some(layer as int)),
                    ),
                invariant
                    *self == *old(self),
                    whole == note_stream_at(s, old(self).position()),
                    ahead.bytes() == s,
                    s == old(self).bytes(),
                    mark < ahead.position() <= s.len(),
                    0 <= tick <= 65535,
                    -1 <= layer <= 65535,
                ensures
                    whole == after_notes(notes@, notes_at(s, ahead.position(), tick as int, None)),
                decreases s.len() - ahead.position(),
            {
                let ghost start = ahead.position();
                let ghost before = notes@;
                proof {
                    lemma_notes_at_step(s, start, tick as int, Some(layer as int));
                }
                let layer_jump: u16 = match ahead.read_u16() {
                    Ok(jump) => jump,
                    Err(e) => {
                        return Err(e);
                    },
                };
                if layer_jump == 0 {
                    break ;
                }
                let at: u16 = jump_to(layer, layer_jump);
                let note: Note = match ahead.read_note(tick as u16, at) {
                    Ok(note) => note,
                    Err(e) => {
                        return Err(e);
                    },
                };
                layer = at as i32;
                notes.push(note);
                proof {
                    let rest = notes_at(s, start + 8, tick as int, Some(at as int));
                    if rest is Some {
                        let found = (rest->0).0;
                        assert(before + (seq![note] + found) =~= before.push(note) + found);
                    }
                }
            }
        }
        *self = ahead;
        Ok(notes)
    }
}

impl NbsWriter {
    /// Writes the record of `note` behind that of `prev`, or at the start of
    /// the stream where `prev` is `None`.
    fn write_note(&mut self, prev: Option<Note>, note: Note)
        ensures
            final(self)@ == old(self)@ + note_record(prev, note),
    {
        match prev {
            None => {
                self.write_u16(jump_from(-1, note.tick));
                self.write_u16(jump_from(-1, note.layer));
            },
            Some(p) => {
                if p.tick != note.tick {
                    self.write_u16(0);
                    self.write_u16(jump_from(p.tick as i32, note.tick));
                    self.write_u16(jump_from(-1, note.layer));
                } else {
                    self.write_u16(jump_from(p.layer as i32, note.layer));
                }
            },
        }
        let ghost head = self@;
        self.write_u8(note.instrument);
        self.write_u8(note.key);
        self.write_u8(note.velocity);
        self.write_u8(panning_to_byte(note.panning));
        self.write_i16(note.pitch);
        assert(self@ =~= head + note_fields(note));
        assert(self@ =~= old(self)@ + note_record(prev, note));
    }

    /// Writes the notes as a note stream, sorted by tick and by layer within a
    /// tick. Where two notes share a cell, the second is written with a layer
    /// jump of zero, which a reader takes for the end of the tick group.
    pub fn write_notes(&mut self, notes: &Vec<Note>)
        ensures
            final(self)@ == old(self)@ + note_stream(notes@),
    {
        let sorted: Vec<Note> = sort_notes(notes);
        let ghost whole = old(self)@ + note_stream(notes@);
        let mut prev: Option<Note> = None;
        let mut i: usize = 0;
        proof {
            assert(sorted@.skip(0) =~= sorted@);
        }
        while i < sorted.len()
            invariant
                i <= sorted.len(),
                whole == self@ + notes_from(prev, sorted@.skip(i as int)),
            decreases sorted.len() - i,
        {
            let ghost written = self@;
            let note: Note = sorted[i];
            self.write_note(prev, note);
            proof {
                let rest = sorted@.skip(i as int);
                assert(rest[0] == note);
                assert(rest.skip(1) =~= sorted@.skip(i + 1));
                let tail = notes_from(Some(note), sorted@.skip(i + 1));
                assert(written + (note_record(prev, note) + tail) =~= self@ + tail);
            }
            prev = Some(note);
            i += 1;
        }
        let ghost written = self@;
        if prev.is_some() {
            self.write_u16(0);
        }
        self.write_u16(0);
        proof {
            assert(self@ =~= written + notes_from(prev, sorted@.skip(i as int)));
        }
    }
}

} // verus!
