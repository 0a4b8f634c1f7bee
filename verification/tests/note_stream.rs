//! The note stream, byte by byte.

use nbs::{NbsError, NbsParser, NbsWriter, Note};

fn note(tick: u16, layer: u16) -> Note {
    Note { tick, layer, instrument: 7, key: 45, velocity: 90, panning: -20, pitch: -300 }
}

/// The six bytes of data of the notes that `note` makes: -20 is 0xEC, and
/// -300 is 0xFED4.
const FIELDS: [u8; 6] = [7, 45, 90, 0xEC, 0xD4, 0xFE];

fn stream_of(notes: &Vec<Note>) -> Vec<u8> {
    let mut writer = NbsWriter::new();
    writer.write_notes(notes);
    writer.as_bytes().to_vec()
}

fn notes_of(bytes: &[u8]) -> Result<Vec<Note>, NbsError> {
    NbsParser::new(bytes).parse_notes()
}

fn jumps_and_fields(parts: &[&[u8]]) -> Vec<u8> {
    parts.concat()
}

#[test]
fn empty_note_stream_is_one_zero() {
    assert_eq!(stream_of(&Vec::new()), vec![0u8, 0]);
    assert_eq!(notes_of(&[0, 0]), Ok(Vec::new()));
}

#[test]
fn single_note_at_the_origin() {
    let expected = jumps_and_fields(&[&[1, 0], &[1, 0], &FIELDS, &[0, 0], &[0, 0]]);
    assert_eq!(stream_of(&vec![note(0, 0)]), expected);
    assert_eq!(notes_of(&expected), Ok(vec![note(0, 0)]));
}

#[test]
fn two_notes_on_one_tick() {
    let expected =
        jumps_and_fields(&[&[6, 0], &[3, 0], &FIELDS, &[5, 0], &FIELDS, &[0, 0], &[0, 0]]);
    assert_eq!(stream_of(&vec![note(5, 2), note(5, 7)]), expected);
    assert_eq!(notes_of(&expected), Ok(vec![note(5, 2), note(5, 7)]));
}

#[test]
fn two_notes_on_two_ticks() {
    let expected = jumps_and_fields(&[
        &[1, 0],
        &[1, 0],
        &FIELDS,
        &[0, 0],
        &[3, 0],
        &[1, 0],
        &FIELDS,
        &[0, 0],
        &[0, 0],
    ]);
    assert_eq!(stream_of(&vec![note(0, 0), note(3, 0)]), expected);
    assert_eq!(notes_of(&expected), Ok(vec![note(0, 0), note(3, 0)]));
}

#[test]
fn notes_are_written_in_order_of_tick_and_layer() {
    let shuffled = vec![note(3, 0), note(5, 7), note(0, 0), note(5, 2), note(3, 9)];
    let sorted = vec![note(0, 0), note(3, 0), note(3, 9), note(5, 2), note(5, 7)];
    assert_eq!(stream_of(&shuffled), stream_of(&sorted));
    assert_eq!(notes_of(&stream_of(&shuffled)), Ok(sorted));
}

#[test]
fn jumps_are_little_endian() {
    let bytes = stream_of(&vec![note(0x1233, 0x00FF)]);
    assert_eq!(&bytes[0..2], &[0x34, 0x12]);
    assert_eq!(&bytes[2..4], &[0x00, 0x01]);
    assert_eq!(notes_of(&bytes), Ok(vec![note(0x1233, 0x00FF)]));
}

#[test]
fn layers_add_up_within_a_tick() {
    // Tick jump 2, then layer jumps 1, 2 and 4: layers 0, 2 and 6 of tick 1.
    let bytes = jumps_and_fields(&[
        &[2, 0],
        &[1, 0],
        &FIELDS,
        &[2, 0],
        &FIELDS,
        &[4, 0],
        &FIELDS,
        &[0, 0],
        &[0, 0],
    ]);
    assert_eq!(notes_of(&bytes), Ok(vec![note(1, 0), note(1, 2), note(1, 6)]));
}

#[test]
fn layer_cursor_starts_again_on_each_tick() {
    let bytes = jumps_and_fields(&[
        &[1, 0],
        &[10, 0],
        &FIELDS,
        &[0, 0],
        &[1, 0],
        &[2, 0],
        &FIELDS,
        &[0, 0],
        &[0, 0],
    ]);
    assert_eq!(notes_of(&bytes), Ok(vec![note(0, 9), note(1, 1)]));
}

#[test]
fn tick_group_without_notes_is_read() {
    // A writer never makes an empty group, but a reader takes it.
    let bytes = jumps_and_fields(&[&[4, 0], &[0, 0], &[1, 0], &[1, 0], &FIELDS, &[0, 0], &[0, 0]]);
    assert_eq!(notes_of(&bytes), Ok(vec![note(4, 0)]));
}

#[test]
fn reader_stops_behind_the_stream() {
    let mut bytes = stream_of(&vec![note(2, 1)]);
    let length = bytes.len();
    bytes.extend_from_slice(&[9, 9, 9]);
    let mut parser = NbsParser::new(&bytes);
    assert_eq!(parser.parse_notes(), Ok(vec![note(2, 1)]));
    assert_eq!(parser.remaining(), 3);
    assert_eq!(length, 14);
}

#[test]
fn cut_note_stream_is_refused() {
    let bytes = stream_of(&vec![note(0, 0), note(0, 4), note(9, 1)]);
    for length in 0..bytes.len() {
        let mut parser = NbsParser::new(&bytes[..length]);
        assert_eq!(parser.parse_notes(), Err(NbsError::UnexpectedEndOfData));
        assert_eq!(parser.remaining(), length);
    }
    assert!(notes_of(&bytes).is_ok());
}

#[test]
fn highest_cell_that_can_be_written() {
    // The first note of a stream can sit at tick 65534, and the first note of
    // a tick at layer 65534: their jumps are 65535.
    let notes = vec![note(65534, 65534), note(65534, 65535)];
    let bytes = stream_of(&notes);
    assert_eq!(&bytes[0..4], &[0xFF, 0xFF, 0xFF, 0xFF]);
    assert_eq!(notes_of(&bytes), Ok(notes));
}

#[test]
fn last_tick_is_reached_from_an_earlier_one() {
    let notes = vec![note(0, 0), note(65535, 0)];
    let bytes = stream_of(&notes);
    assert_eq!(&bytes[12..14], &[0xFF, 0xFF]);
    assert_eq!(notes_of(&bytes), Ok(notes));
}

#[test]
fn jump_of_65536_is_written_as_zero() {
    // A first note at tick 65535 needs a jump of 65536, which sixteen bits
    // turn into the zero that ends the stream.
    let bytes = stream_of(&vec![note(65535, 0)]);
    assert_eq!(&bytes[0..2], &[0, 0]);
    assert_eq!(notes_of(&bytes), Ok(Vec::new()));

    let bytes = stream_of(&vec![note(3, 65535)]);
    assert_eq!(&bytes[0..4], &[4, 0, 0, 0]);
}

#[test]
fn second_note_of_a_cell_is_written_with_a_zero_jump() {
    let mut second = note(1, 1);
    second.key = 46;
    let bytes = stream_of(&vec![note(1, 1), second]);
    assert_eq!(&bytes[0..4], &[2, 0, 2, 0]);
    assert_eq!(&bytes[10..12], &[0, 0]);
    assert_eq!(bytes.len(), 4 + 6 + 2 + 6 + 4);
}

#[test]
fn tick_cursor_wraps_around() {
    // Jumps of 65535 and 2 from -1 lead to tick 0.
    let bytes = jumps_and_fields(&[
        &[0xFF, 0xFF],
        &[1, 0],
        &FIELDS,
        &[0, 0],
        &[2, 0],
        &[1, 0],
        &FIELDS,
        &[0, 0],
        &[0, 0],
    ]);
    assert_eq!(notes_of(&bytes), Ok(vec![note(65534, 0), note(0, 0)]));
}

#[test]
fn note_data_is_not_checked() {
    let bytes = jumps_and_fields(&[&[1, 0], &[1, 0], &[255, 200, 255, 0x80, 0, 0x80], &[0; 4]]);
    let notes = notes_of(&bytes).unwrap();
    assert_eq!(
        notes,
        vec![Note {
            tick: 0,
            layer: 0,
            instrument: 255,
            key: 200,
            velocity: 255,
            panning: -128,
            pitch: -32768
        }]
    );
    assert_eq!(stream_of(&notes), bytes);
}

#[test]
fn stream_takes_eight_bytes_a_note_and_four_a_tick() {
    assert_eq!(stream_of(&Vec::new()).len(), 2);
    assert_eq!(stream_of(&vec![note(0, 0)]).len(), 8 + 4 + 2);
    assert_eq!(stream_of(&vec![note(5, 2), note(5, 7)]).len(), 2 * 8 + 4 + 2);
    assert_eq!(stream_of(&vec![note(0, 0), note(3, 0)]).len(), 2 * 8 + 2 * 4 + 2);
    let shuffled = vec![note(3, 0), note(5, 7), note(0, 0), note(5, 2), note(3, 9), note(3, 4)];
    assert_eq!(stream_of(&shuffled).len(), 6 * 8 + 3 * 4 + 2);
}
