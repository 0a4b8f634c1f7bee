//! A complete song, assembled byte by byte, is loaded and written back.

use nbs::{NbsParser, NbsWriter};

fn put_text(out: &mut Vec<u8>, text: &[u8]) {
    out.extend_from_slice(&(text.len() as u32).to_le_bytes());
    out.extend_from_slice(text);
}

fn put_note(out: &mut Vec<u8>, instrument: u8, key: u8) {
    out.push(instrument);
    out.push(key);
    out.push(100);
    out.push(0);
    out.extend_from_slice(&0i16.to_le_bytes());
}

/// The song "Nyan Cat": 1021 notes on ticks 0 to 670, 36 layers and 3 custom
/// instruments.
fn nyan_cat() -> Vec<u8> {
    let mut out = Vec::new();
    out.extend_from_slice(&0u16.to_le_bytes());
    out.push(5);
    out.push(16);
    out.extend_from_slice(&670u16.to_le_bytes());
    out.extend_from_slice(&36u16.to_le_bytes());
    put_text(&mut out, b"Nyan Cat");
    put_text(&mut out, b"chenxi050402");
    put_text(&mut out, b"");
    put_text(&mut out, b"\"Nyan Cat\" recreated in note blocks by chenxi050402.");
    out.extend_from_slice(&1893u16.to_le_bytes());
    out.push(0);
    out.push(10);
    out.push(8);
    out.extend_from_slice(&32u32.to_le_bytes());
    out.extend_from_slice(&1207u32.to_le_bytes());
    out.extend_from_slice(&32u32.to_le_bytes());
    out.extend_from_slice(&212u32.to_le_bytes());
    out.extend_from_slice(&27u32.to_le_bytes());
    put_text(&mut out, b"");
    out.push(1);
    out.push(0);
    out.extend_from_slice(&160u16.to_le_bytes());

    // One note on layer 0 of every tick, and a second one on layer 3 of the
    // first 350 ticks: 671 + 350 notes.
    for tick in 0u16..=670 {
        out.extend_from_slice(&1u16.to_le_bytes());
        out.extend_from_slice(&1u16.to_le_bytes());
        put_note(&mut out, (tick % 16) as u8, 33 + (tick % 25) as u8);
        if tick < 350 {
            out.extend_from_slice(&3u16.to_le_bytes());
            put_note(&mut out, 16, 45);
        }
        out.extend_from_slice(&0u16.to_le_bytes());
    }
    out.extend_from_slice(&0u16.to_le_bytes());

    for layer in 0..36 {
        put_text(&mut out, format!("Layer {}", layer).as_bytes());
        out.push(0);
        out.push(100);
        out.push(0);
    }

    out.push(3);
    for name in ["Tom", "Cymbal", "Clap"] {
        put_text(&mut out, name.as_bytes());
        put_text(&mut out, format!("{}.ogg", name).as_bytes());
        out.push(45);
        out.push(1);
    }
    out
}

#[test]
fn load_nbs_file() {
    let file_data = nyan_cat();
    let mut parser = NbsParser::new(&file_data);

    let file = parser.parse().unwrap();

    assert_eq!(file.header.version, 5);
    assert_eq!(file.header.song_name, b"Nyan Cat");
    assert_eq!(file.header.song_author, b"chenxi050402");
    assert_eq!(
        file.header.description,
        b"\"Nyan Cat\" recreated in note blocks by chenxi050402."
    );
    assert_eq!(file.header.original_author, b"");
    assert_eq!(file.header.song_origin, b"");

    assert_eq!(file.header.auto_save, false);
    assert_eq!(file.header.loop_flag, true);

    assert_eq!(file.header.default_instruments, 16);
    assert_eq!(file.header.auto_save_duration, 10);
    assert_eq!(file.header.time_signature, 8);
    assert_eq!(file.header.max_loop_count, 0);

    assert_eq!(file.header.song_length, 670);
    assert_eq!(file.header.song_layers, 36);
    assert_eq!(file.header.tempo, 1893);
    assert_eq!(file.header.loop_start, 160);

    assert_eq!(file.header.minutes_spent, 32);
    assert_eq!(file.header.left_clicks, 1207);
    assert_eq!(file.header.right_clicks, 32);
    assert_eq!(file.header.blocks_added, 212);
    assert_eq!(file.header.blocks_removed, 27);

    assert_eq!(file.notes.len(), 1021);
    assert_eq!(file.instruments.len(), 3);
}

#[test]
fn write_nbs_file() {
    let file_data = nyan_cat();
    let mut parser = NbsParser::new(&file_data);
    let file = parser.parse().unwrap();

    let mut writer = NbsWriter::new();
    let data = writer.get_file_bytes(&file);
    assert_eq!(data.len(), file_data.len());
}

#[test]
fn written_song_is_the_loaded_bytes() {
    let file_data = nyan_cat();
    let file = NbsParser::new(&file_data).parse().unwrap();
    assert_eq!(NbsWriter::new().get_file_bytes(&file), file_data);
}

#[test]
fn loaded_song_has_its_notes_layers_and_instruments() {
    let file_data = nyan_cat();
    let file = NbsParser::new(&file_data).parse().unwrap();

    assert_eq!(file.layers.len(), 36);
    for (place, layer) in file.layers.iter().enumerate() {
        assert_eq!(layer.id as usize, place);
        assert_eq!(layer.name, format!("Layer {}", place).as_bytes());
        assert_eq!(layer.volume, 100);
        assert!(!layer.lock);
    }
    assert_eq!(file.notes[0].tick, 0);
    assert_eq!(file.notes[0].layer, 0);
    assert_eq!(file.notes[1].tick, 0);
    assert_eq!(file.notes[1].layer, 3);
    assert_eq!(file.notes[1].instrument, 16);
    assert_eq!(file.notes[1020].tick, 670);
    assert_eq!(file.notes[1020].layer, 0);
    assert_eq!(file.instruments[1].name, b"Cymbal");
    assert_eq!(file.instruments[1].file, b"Cymbal.ogg");
    assert_eq!(file.instruments[1].key, 45);
    assert_eq!(file.instruments[1].press_key, 1);
}
