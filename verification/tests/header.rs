//! The header, and bringing it up to date.

use nbs::{
    Header, Instrument, Layer, NbsError, NbsFile, NbsParser, NbsWriter, Note, CURRENT_NBS_VERSION,
};

fn header_bytes(header: &Header) -> Vec<u8> {
    let mut writer = NbsWriter::new();
    writer.write_header(header);
    writer.as_bytes().to_vec()
}

fn sample() -> Header {
    let mut header = Header::new();
    header.default_instruments = 16;
    header.song_length = 0x0102;
    header.song_layers = 3;
    header.song_name = b"Song".to_vec();
    header.song_author = b"Me".to_vec();
    header.original_author = b"".to_vec();
    header.description = b"D".to_vec();
    header.tempo = 1000;
    header.auto_save = true;
    header.auto_save_duration = 9;
    header.time_signature = 3;
    header.minutes_spent = 1;
    header.left_clicks = 0x0A0B_0C0D;
    header.right_clicks = 3;
    header.blocks_added = 4;
    header.blocks_removed = 5;
    header.song_origin = b"a.mid".to_vec();
    header.loop_flag = true;
    header.max_loop_count = 2;
    header.loop_start = 0x0304;
    header
}

fn sample_bytes() -> Vec<u8> {
    vec![
        0, 0, 5, 16, 0x02, 0x01, 3, 0, // marker, version, instruments, length, layers
        4, 0, 0, 0, b'S', b'o', b'n', b'g', // name
        2, 0, 0, 0, b'M', b'e', // author
        0, 0, 0, 0, // first author
        1, 0, 0, 0, b'D', // description
        0xE8, 0x03, 1, 9, 3, // tempo, auto-save, interval, time signature
        1, 0, 0, 0, 0x0D, 0x0C, 0x0B, 0x0A, 3, 0, 0, 0, 4, 0, 0, 0, 5, 0, 0, 0, // counters
        5, 0, 0, 0, b'a', b'.', b'm', b'i', b'd', // origin
        1, 2, 0x04, 0x03, // loop
    ]
}

#[test]
fn new_header_has_the_defaults() {
    let header = Header::new();
    assert_eq!(header.version, 5);
    assert_eq!(header.version, CURRENT_NBS_VERSION);
    assert_eq!(header.default_instruments, 16);
    assert_eq!(header.song_length, 0);
    assert_eq!(header.song_layers, 0);
    assert!(header.song_name.is_empty());
    assert!(header.song_author.is_empty());
    assert!(header.original_author.is_empty());
    assert!(header.description.is_empty());
    assert_eq!(header.tempo, 0);
    assert!(!header.auto_save);
    assert_eq!(header.auto_save_duration, 10);
    assert_eq!(header.time_signature, 4);
    assert_eq!(header.minutes_spent, 0);
    assert_eq!(header.left_clicks, 0);
    assert_eq!(header.right_clicks, 0);
    assert_eq!(header.blocks_added, 0);
    assert_eq!(header.blocks_removed, 0);
    assert!(header.song_origin.is_empty());
    assert!(!header.loop_flag);
    assert_eq!(header.max_loop_count, 0);
    assert_eq!(header.loop_start, 0);
}

#[test]
fn header_is_written_field_by_field() {
    assert_eq!(header_bytes(&sample()), sample_bytes());
    assert_eq!(header_bytes(&Header::new()).len(), 57);
}

#[test]
fn header_is_read_field_by_field() {
    let bytes = sample_bytes();
    let mut parser = NbsParser::new(&bytes);
    assert_eq!(parser.parse_header(), Ok(sample()));
    assert_eq!(parser.remaining(), 0);
}

#[test]
fn version_of_the_file_is_dropped() {
    for claimed in [0u8, 1, 4, 6, 255] {
        let mut bytes = sample_bytes();
        bytes[2] = claimed;
        let header = NbsParser::new(&bytes).parse_header().unwrap();
        assert_eq!(header.version, 5);
        assert_eq!(header, sample());
    }
}

#[test]
fn version_of_the_codec_is_written() {
    let mut header = sample();
    header.version = 3;
    assert_eq!(header_bytes(&header), sample_bytes());
}

#[test]
fn any_nonzero_flag_byte_is_true() {
    let mut bytes = sample_bytes();
    bytes[33] = 2;
    bytes[65] = 255;
    let header = NbsParser::new(&bytes).parse_header().unwrap();
    assert!(header.auto_save);
    assert!(header.loop_flag);
    bytes[33] = 0;
    bytes[65] = 0;
    let header = NbsParser::new(&bytes).parse_header().unwrap();
    assert!(!header.auto_save);
    assert!(!header.loop_flag);
}

#[test]
fn older_layout_is_refused() {
    let mut bytes = sample_bytes();
    bytes[0] = 10;
    let mut parser = NbsParser::new(&bytes);
    assert_eq!(parser.parse_header(), Err(NbsError::UnsupportedFormatVariant));
    assert_eq!(parser.remaining(), bytes.len());
    assert_eq!(NbsParser::new(&bytes).parse(), Err(NbsError::UnsupportedFormatVariant));

    bytes[0] = 0;
    bytes[1] = 1;
    assert_eq!(
        NbsParser::new(&bytes).parse_header(),
        Err(NbsError::UnsupportedFormatVariant)
    );
}

#[test]
fn marker_is_judged_as_soon_as_it_is_read() {
    assert_eq!(
        NbsParser::new(&[1, 0]).parse_header(),
        Err(NbsError::UnsupportedFormatVariant)
    );
    assert_eq!(NbsParser::new(&[1]).parse_header(), Err(NbsError::UnexpectedEndOfData));
    assert_eq!(NbsParser::new(&[]).parse_header(), Err(NbsError::UnexpectedEndOfData));
    assert_eq!(NbsParser::new(&[0, 0]).parse_header(), Err(NbsError::UnexpectedEndOfData));
}

#[test]
fn cut_header_is_refused() {
    let bytes = sample_bytes();
    for length in 0..bytes.len() {
        let mut parser = NbsParser::new(&bytes[..length]);
        assert_eq!(parser.parse_header(), Err(NbsError::UnexpectedEndOfData));
        assert_eq!(parser.remaining(), length);
    }
}

fn note_at(tick: u16) -> Note {
    Note::new(tick, 0, 0, 45, None, None, None)
}

fn layer() -> Layer {
    Layer { id: 0, name: Vec::new(), lock: false, volume: 100, panning: 0 }
}

#[test]
fn song_length_is_the_largest_tick() {
    let notes = vec![note_at(7), note_at(300), note_at(12)];
    let mut file = NbsFile::new(Header::new(), notes, vec![layer(), layer()], Vec::new());
    file.header.song_length = 9999;
    file.header.song_layers = 77;
    file.normalize_header();
    assert_eq!(file.header.song_length, 300);
    assert_eq!(file.header.song_layers, 2);
}

#[test]
fn song_without_notes_has_length_zero() {
    let mut file = NbsFile::new(Header::new(), Vec::new(), Vec::new(), Vec::new());
    file.header.song_length = 5;
    file.header.song_layers = 5;
    file.normalize_header();
    assert_eq!(file.header.song_length, 0);
    assert_eq!(file.header.song_layers, 0);
}

#[test]
fn layer_count_is_cut_to_sixteen_bits() {
    let mut file = NbsFile::new(Header::new(), Vec::new(), vec![layer(); 65535], Vec::new());
    file.normalize_header();
    assert_eq!(file.header.song_layers, 65535);
    file.layers.push(layer());
    file.normalize_header();
    assert_eq!(file.header.song_layers, 0);
    file.layers.push(layer());
    file.normalize_header();
    assert_eq!(file.header.song_layers, 1);
}

#[test]
fn normalizing_twice_is_normalizing_once() {
    let notes = vec![note_at(65535), note_at(1)];
    let mut file = NbsFile::new(sample(), notes, vec![layer()], Vec::new());
    file.normalize_header();
    let once = file.clone();
    file.normalize_header();
    assert_eq!(file, once);
    assert_eq!(file.header.song_length, 65535);
}

#[test]
fn normalizing_touches_two_fields_only() {
    let mut file = NbsFile::new(sample(), vec![note_at(4)], vec![layer()], Vec::new());
    file.normalize_header();
    let mut expected = sample();
    expected.song_length = 4;
    expected.song_layers = 1;
    assert_eq!(file.header, expected);
    assert_eq!(file.notes, vec![note_at(4)]);
    assert_eq!(file.layers, vec![layer()]);
}

#[test]
fn update_header_touches_two_fields_only() {
    let mut file = NbsFile::new(sample(), vec![note_at(4)], vec![layer()], Vec::new());
    file.update_header(4);
    let mut expected = sample();
    expected.song_length = 4;
    expected.song_layers = 1;
    assert_eq!(file.header, expected);
    assert_eq!(file.header.version, 5);
    assert_eq!(file.notes, vec![note_at(4)]);
    assert_eq!(file.layers, vec![layer()]);
    assert!(file.instruments.is_empty());
    file.update_header(4);
    assert_eq!(file.header, expected);
}

#[test]
fn update_header_keeps_the_version_it_finds() {
    let mut header = sample();
    header.version = 3;
    let mut file = NbsFile::new(header, vec![note_at(9)], Vec::new(), Vec::new());
    file.update_header(5);
    assert_eq!(file.header.version, 3);
    assert_eq!(file.header.song_length, 9);
    file.update_header(0);
    assert_eq!(file.header.version, 3);
}

#[test]
fn update_header_is_normalize_header() {
    let notes = vec![note_at(7), note_at(300), note_at(12)];
    let mut one = NbsFile::new(sample(), notes, vec![layer(), layer()], Vec::new());
    let mut other = one.clone();
    one.update_header(200);
    other.normalize_header();
    assert_eq!(one, other);
}

#[test]
fn note_has_its_defaults() {
    let note = Note::new(3, 4, 5, 6, None, None, None);
    assert_eq!(
        note,
        Note { tick: 3, layer: 4, instrument: 5, key: 6, velocity: 100, panning: 100, pitch: 0 }
    );
    let note = Note::new(3, 4, 5, 6, Some(50), Some(-100), Some(-1200));
    assert_eq!(
        note,
        Note { tick: 3, layer: 4, instrument: 5, key: 6, velocity: 50, panning: -100, pitch: -1200 }
    );
}

#[test]
fn instrument_keeps_what_it_is_given() {
    let instrument = Instrument::new(45, b"Tom".to_vec(), b"tom.ogg".to_vec(), 1);
    assert_eq!(instrument.key, 45);
    assert_eq!(instrument.name, b"Tom");
    assert_eq!(instrument.file, b"tom.ogg");
    assert_eq!(instrument.press_key, 1);
}
