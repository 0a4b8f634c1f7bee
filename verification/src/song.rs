//! The song as it is held in memory, and the mathematical view of each part.
//!
//! Byte strings (names, descriptions, file names) are kept as raw bytes: the
//! format does not promise that they are valid text, and the codec never
//! changes them.

use vstd::prelude::*;

verus! {

/// The one revision of the format that this codec reads and writes.
pub const CURRENT_NBS_VERSION: u8 = 5;

/// A custom instrument: a named sample with a base pitch.
#[derive(Debug, Clone, PartialEq, Eq)]
pub struct Instrument {
    pub name: Vec<u8>,
    pub file: Vec<u8>,
    pub key: u8,
    pub press_key: u8,
}

/// What an [`Instrument`] holds.
pub struct InstrumentView {
    pub name: Seq<u8>,
    pub file: Seq<u8>,
    pub key: u8,
    pub press_key: u8,
}

impl View for Instrument {
    type V = InstrumentView;

    open spec fn view(&self) -> InstrumentView {
        InstrumentView {
            name: self.name@,
            file: self.file@,
            key: self.key,
            press_key: self.press_key,
        }
    }
}

/// What a list of instruments holds.
pub open spec fn instrument_views(instruments: Seq<Instrument>) -> Seq<InstrumentView> {
    instruments.map_values(|i: Instrument| i@)
}

impl Instrument {
    /// An instrument with the given key, names and flag.
    pub fn new(key: u8, name: Vec<u8>, file: Vec<u8>, press_key: u8) -> (instrument: Instrument)
        ensures
            instrument.key == key,
            instrument.name == name,
            instrument.file == file,
            instrument.press_key == press_key,
    {
        Instrument { name, file, key, press_key }
    }
}

/// One note: the cell of the grid it sits in, and how it sounds.
///
/// A note is plain data, so it serves as its own mathematical view.
#[derive(Debug, Clone, Copy, PartialEq, Eq, Structural)]
pub struct Note {
    pub tick: u16,
    pub layer: u16,
    pub instrument: u8,
    pub key: u8,
    pub velocity: u8,
    pub panning: i8,
    pub pitch: i16,
}

impl Note {
    /// A note with full velocity, a panning of 100 and no fine tuning where
    /// these are not given.
    pub fn new(
        tick: u16,
        layer: u16,
        instrument: u8,
        key: u8,
        velocity: Option<u8>,
        panning: Option<i8>,
        pitch: Option<i16>,
    ) -> (note: Note)
        ensures
            note == (Note {
                tick,
                layer,
                instrument,
                key,
                velocity: if velocity is Some { velocity->0 } else { 100 },
                panning: if panning is Some { panning->0 } else { 100 },
                pitch: if pitch is Some { pitch->0 } else { 0 },
            }),
    {
        Note {
            tick,
            layer,
            instrument,
            key,
            velocity: match velocity {
                Some(v) => v,
                None => 100,
            },
            panning: match panning {
                Some(p) => p,
                None => 100,
            },
            pitch: match pitch {
                Some(p) => p,
                None => 0,
            },
        }
    }
}

/// A layer: one named row of the grid, with its own volume and panning.
#[derive(Debug, Clone, PartialEq, Eq)]
pub struct Layer {
    /// The position of the layer in the list. It is not stored in a file.
    pub id: u16,
    pub name: Vec<u8>,
    pub lock: bool,
    pub volume: u8,
    pub panning: i8,
}

/// What a [`Layer`] holds.
pub struct LayerView {
    pub id: u16,
    pub name: Seq<u8>,
    pub lock: bool,
    pub volume: u8,
    pub panning: i8,
}

impl View for Layer {
    type V = LayerView;

    open spec fn view(&self) -> LayerView {
        LayerView {
            id: self.id,
            name: self.name@,
            lock: self.lock,
            volume: self.volume,
            panning: self.panning,
        }
    }
}

/// What a list of layers holds.
pub open spec fn layer_views(layers: Seq<Layer>) -> Seq<LayerView> {
    layers.map_values(|l: Layer| l@)
}

/// The metadata at the start of a song.
#[derive(Debug, Clone, PartialEq, Eq)]
pub struct Header {
    pub version: u8,
    pub default_instruments: u8,
    pub song_length: u16,
    pub song_layers: u16,
    pub song_name: Vec<u8>,
    pub song_author: Vec<u8>,
    pub original_author: Vec<u8>,
    pub description: Vec<u8>,
    /// Ticks per second, times 100.
    pub tempo: u16,
    pub auto_save: bool,
    pub auto_save_duration: u8,
    pub time_signature: u8,
    pub minutes_spent: u32,
    pub left_clicks: u32,
    pub right_clicks: u32,
    pub blocks_added: u32,
    pub blocks_removed: u32,
    pub song_origin: Vec<u8>,
    pub loop_flag: bool,
    pub max_loop_count: u8,
    pub loop_start: u16,
}

/// What a [`Header`] holds.
pub struct HeaderView {
    pub version: u8,
    pub default_instruments: u8,
    pub song_length: u16,
    pub song_layers: u16,
    pub song_name: Seq<u8>,
    pub song_author: Seq<u8>,
    pub original_author: Seq<u8>,
    pub description: Seq<u8>,
    pub tempo: u16,
    pub auto_save: bool,
    pub auto_save_duration: u8,
    pub time_signature: u8,
    pub minutes_spent: u32,
    pub left_clicks: u32,
    pub right_clicks: u32,
    pub blocks_added: u32,
    pub blocks_removed: u32,
    pub song_origin: Seq<u8>,
    pub loop_flag: bool,
    pub max_loop_count: u8,
    pub loop_start: u16,
}

impl View for Header {
    type V = HeaderView;

    open spec fn view(&self) -> HeaderView {
        HeaderView {
            version: self.version,
            default_instruments: self.default_instruments,
            song_length: self.song_length,
            song_layers: self.song_layers,
            song_name: self.song_name@,
            song_author: self.song_author@,
            original_author: self.original_author@,
            description: self.description@,
            tempo: self.tempo,
            auto_save: self.auto_save,
            auto_save_duration: self.auto_save_duration,
            time_signature: self.time_signature,
            minutes_spent: self.minutes_spent,
            left_clicks: self.left_clicks,
            right_clicks: self.right_clicks,
            blocks_added: self.blocks_added,
            blocks_removed: self.blocks_removed,
            song_origin: self.song_origin@,
            loop_flag: self.loop_flag,
            max_loop_count: self.max_loop_count,
            loop_start: self.loop_start,
        }
    }
}

impl HeaderView {
    /// The header of a song that has just been created: no notes, no layers,
    /// sixteen built-in instruments, common time.
    pub open spec fn blank() -> HeaderView {
        HeaderView {
            version: CURRENT_NBS_VERSION,
            default_instruments: 16,
            song_length: 0,
            song_layers: 0,
            song_name: Seq::empty(),
            song_author: Seq::empty(),
            original_author: Seq::empty(),
            description: Seq::empty(),
            tempo: 0,
            auto_save: false,
            auto_save_duration: 10,
            time_signature: 4,
            minutes_spent: 0,
            left_clicks: 0,
            right_clicks: 0,
            blocks_added: 0,
            blocks_removed: 0,
            song_origin: Seq::empty(),
            loop_flag: false,
            max_loop_count: 0,
            loop_start: 0,
        }
    }
}

impl Header {
    /// The header of a song that has just been created.
    pub fn new() -> (header: Header)
        ensures
            header@ == HeaderView::blank(),
    {
        Header {
            version: CURRENT_NBS_VERSION,
            default_instruments: 16,
            song_length: 0,
            song_layers: 0,
            song_name: Vec::new(),
            song_author: Vec::new(),
            original_author: Vec::new(),
            description: Vec::new(),
            tempo: 0,
            auto_save: false,
            auto_save_duration: 10,
            time_signature: 4,
            minutes_spent: 0,
            left_clicks: 0,
            right_clicks: 0,
            blocks_added: 0,
            blocks_removed: 0,
            song_origin: Vec::new(),
            loop_flag: false,
            max_loop_count: 0,
            loop_start: 0,
        }
    }
}

/// A whole song.
#[derive(Debug, Clone, PartialEq, Eq)]
pub struct NbsFile {
    pub header: Header,
    pub notes: Vec<Note>,
    pub layers: Vec<Layer>,
    pub instruments: Vec<Instrument>,
}

/// What an [`NbsFile`] holds.
pub struct NbsFileView {
    pub header: HeaderView,
    pub notes: Seq<Note>,
    pub layers: Seq<LayerView>,
    pub instruments: Seq<InstrumentView>,
}

impl View for NbsFile {
    type V = NbsFileView;

    open spec fn view(&self) -> NbsFileView {
        NbsFileView {
            header: self.header@,
            notes: self.notes@,
            layers: layer_views(self.layers@),
            instruments: instrument_views(self.instruments@),
        }
    }
}

/// The largest tick among `notes`, or 0 where there is no note.
pub open spec fn max_tick(notes: Seq<Note>) -> u16
    decreases notes.len(),
{
    if notes.len() == 0 {
        0
    } else {
        let before = max_tick(notes.drop_last());
        if notes.last().tick > before {
            notes.last().tick
        } else {
            before
        }
    }
}

/// `max_tick` is an upper bound of every tick, and some note has it.
pub proof fn lemma_max_tick(notes: Seq<Note>)
    ensures
        forall|i: int| 0 <= i < notes.len() ==> (#[trigger] notes[i]).tick <= max_tick(notes),
        notes.len() > 0 ==> exists|i: int|
            0 <= i < notes.len() && (#[trigger] notes[i]).tick == max_tick(notes),
    decreases notes.len(),
{
    if notes.len() > 0 {
        let front = notes.drop_last();
        lemma_max_tick(front);
        assert forall|i: int| 0 <= i < notes.len() implies (#[trigger] notes[i]).tick
            <= max_tick(notes) by {
            if i < front.len() {
                assert(front[i] == notes[i]);
            }
        }
        if notes.last().tick > max_tick(front) || front.len() == 0 {
            assert(notes[notes.len() - 1].tick == max_tick(notes));
        } else {
            let i = choose|i: int|
                0 <= i < front.len() && (#[trigger] front[i]).tick == max_tick(front);
            assert(notes[i] == front[i]);
        }
    }
}

impl NbsFileView {
    /// The song with its header brought up to date: the song length is the
    /// largest tick that holds a note, and the layer count is the number of
    /// layers, as far as sixteen bits hold it.
    pub open spec fn normalized(self) -> NbsFileView {
        NbsFileView {
            header: HeaderView {
                song_length: max_tick(self.notes),
                song_layers: (self.layers.len() % 65536) as u16,
                ..self.header
            },
            ..self
        }
    }
}

impl NbsFile {
    /// A song made of the four parts, as they are. The header is not brought
    /// up to date.
    pub fn new(
        header: Header,
        notes: Vec<Note>,
        layers: Vec<Layer>,
        instruments: Vec<Instrument>,
    ) -> (file: NbsFile)
        ensures
            file.header == header,
            file.notes == notes,
            file.layers == layers,
            file.instruments == instruments,
    {
        NbsFile { header, notes, layers, instruments }
    }

    /// Recomputes the two header fields that describe the content: the song
    /// length and the layer count. Nothing does this implicitly; a song that
    /// was built or changed by hand carries a stale header until this is
    /// called.
    pub fn normalize_header(&mut self)
        ensures
            final(self)@ == old(self)@.normalized(),
            forall|i: int|
                0 <= i < old(self).notes.len() ==> (#[trigger] old(self).notes[i]).tick
                    <= final(self).header.song_length,
            old(self).notes.len() == 0 ==> final(self).header.song_length == 0,
            old(self).notes.len() > 0 ==> exists|i: int|
                0 <= i < old(self).notes.len() && (#[trigger] old(self).notes[i]).tick
                    == final(self).header.song_length,
    {
        let mut longest: u16 = 0;
        let mut i: usize = 0;
        while i < self.notes.len()
            invariant
                i <= self.notes.len(),
                longest == max_tick(self.notes@.take(i as int)),
                *self == *old(self),
            decreases self.notes.len() - i,
        {
            proof {
                assert(self.notes@.take(i + 1).drop_last() =~= self.notes@.take(i as int));
            }
            if self.notes[i].tick > longest {
                longest = self.notes[i].tick;
            }
            i += 1;
        }
        proof {
            assert(self.notes@.take(i as int) =~= self.notes@);
            lemma_max_tick(self.notes@);
        }
        self.header.song_length = longest;
        self.header.song_layers = (self.layers.len() % 65536) as u16;
    }

    /// Brings the header up to date, as
    /// [`normalize_header`](NbsFile::normalize_header) does: the song length
    /// and the layer count are recomputed, and nothing else changes.
    ///
    /// The version of the header stays as it is, whatever `_version` asks
    /// for. A file is always written with the version of the codec, so the
    /// stored version decides nothing.
    pub fn update_header(&mut self, _version: u8)
        ensures
            final(self)@ == old(self)@.normalized(),
            forall|i: int|
                0 <= i < old(self).notes.len() ==> (#[trigger] old(self).notes[i]).tick
                    <= final(self).header.song_length,
            old(self).notes.len() == 0 ==> final(self).header.song_length == 0,
            old(self).notes.len() > 0 ==> exists|i: int|
                0 <= i < old(self).notes.len() && (#[trigger] old(self).notes[i]).tick
                    == final(self).header.song_length,
    {
        self.normalize_header();
    }
}

} // verus!
