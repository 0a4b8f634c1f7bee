//! The whole file: header, note stream, layer list, instrument list, in that
//! order and with nothing in between.

use crate::cursor::{holds_at, lemma_holds_at_parts, NbsParser, NbsWriter};
use crate::error::NbsError;
use crate::header::{
    header_at, header_bytes, lemma_header_at_cut, lemma_header_read_back, texts_fit,
};
use crate::instruments::{
    instrument_list_at, instrument_list_bytes, instrument_names_fit,
    lemma_instrument_list_at_cut, lemma_instrument_list_read_back,
};
use crate::layers::{
    layer_list_bytes, layer_names_fit, layers_at, lemma_layers_at_cut, lemma_layers_read_back,
    renumbered,
};
use crate::notes::{
    lemma_notes_at_cut, lemma_notes_read_back, note_stream, note_stream_at, readable_from,
};
use crate::order::sorted_notes;
use crate::song::{
    Header, HeaderView, Instrument, Layer, NbsFile, NbsFileView, Note, CURRENT_NBS_VERSION,
};
use vstd::prelude::*;
use vstd::slice::slice_to_vec;

verus! {

/// A song as it is written. The header is written as it stands: it is for
/// the caller to bring it up to date first.
pub open spec fn file_bytes(f: NbsFileView) -> Seq<u8> {
    header_bytes(f.header) + note_stream(f.notes) + layer_list_bytes(f.layers)
        + instrument_list_bytes(f.instruments)
}

/// The song that starts at `pos`, and the position behind it. The first part
/// that cannot be read decides the error. The layer list has as many layers
/// as the header says.
pub open spec fn file_at(s: Seq<u8>, pos: int) -> Result<(NbsFileView, int), NbsError> {
    match header_at(s, pos) {
        Err(e) => Err(e),
        Ok((header, notes_start)) => match note_stream_at(s, notes_start) {
            None => Err(NbsError::UnexpectedEndOfData),
            Some((notes, layers_start)) => match layers_at(
                s,
                layers_start,
                0,
                header.song_layers as nat,
            ) {
                None => Err(NbsError::UnexpectedEndOfData),
                Some((layers, instruments_start)) => match instrument_list_at(
                    s,
                    instruments_start,
                ) {
                    None => Err(NbsError::UnexpectedEndOfData),
                    Some((instruments, end)) => Ok(
                        (NbsFileView { header, notes, layers, instruments }, end),
                    ),
                },
            },
        },
    }
}

/// The song that a buffer holds. Bytes behind the song are ignored.
pub open spec fn decoded(bytes: Seq<u8>) -> Result<NbsFileView, NbsError> {
    match file_at(bytes, 0) {
        Ok((file, _)) => Ok(file),
        Err(e) => Err(e),
    }
}

/// Every count and every length of the song fits in the field that holds
/// it: at most 65535 layers, at most 255 instruments, and no text longer than
/// 32 bits can say.
pub open spec fn fits_format(f: NbsFileView) -> bool {
    &&& texts_fit(f.header)
    &&& f.layers.len() <= 65535
    &&& layer_names_fit(f.layers)
    &&& f.instruments.len() <= 255
    &&& instrument_names_fit(f.instruments)
}

/// What is read from a written song: the song with the version of the codec
/// in its header, with its notes sorted, and with its layers numbered in
/// order. Everything else is as it was.
pub open spec fn read_back(f: NbsFileView) -> NbsFileView {
    NbsFileView {
        header: HeaderView { version: CURRENT_NBS_VERSION, ..f.header },
        notes: sorted_notes(f.notes),
        layers: renumbered(f.layers, 0),
        instruments: f.instruments,
    }
}

/// Where a written song stands, each of its four parts stands in its place.
proof fn lemma_file_parts(s: Seq<u8>, pos: int, f: NbsFileView)
    requires
        holds_at(s, pos, file_bytes(f)),
    ensures
        holds_at(s, pos, header_bytes(f.header)),
        holds_at(s, pos + header_bytes(f.header).len(), note_stream(f.notes)),
        holds_at(
            s,
            pos + header_bytes(f.header).len() + note_stream(f.notes).len(),
            layer_list_bytes(f.layers),
        ),
        holds_at(
            s,
            pos + header_bytes(f.header).len() + note_stream(f.notes).len() + layer_list_bytes(
                f.layers,
            ).len(),
            instrument_list_bytes(f.instruments),
        ),
        file_bytes(f).len() == header_bytes(f.header).len() + note_stream(f.notes).len()
            + layer_list_bytes(f.layers).len() + instrument_list_bytes(f.instruments).len(),
{
    let a = header_bytes(f.header);
    let b = note_stream(f.notes);
    let c = layer_list_bytes(f.layers);
    let d = instrument_list_bytes(f.instruments);
    lemma_holds_at_parts(s, pos, a + b + c, d);
    lemma_holds_at_parts(s, pos, a + b, c);
    lemma_holds_at_parts(s, pos, a, b);
}

/// A written song is read back from where it stands, provided that its
/// header counts its layers, that its sorted notes can be read back, and that
/// it fits the format.
#[verifier::rlimit(50)]
pub proof fn lemma_file_read_back(s: Seq<u8>, pos: int, f: NbsFileView)
    requires
        holds_at(s, pos, file_bytes(f)),
        f.header.song_layers == f.layers.len(),
        readable_from(None, sorted_notes(f.notes)),
        fits_format(f),
    ensures
        file_at(s, pos) == Ok::<(NbsFileView, int), NbsError>(
            (read_back(f), pos + file_bytes(f).len()),
        ),
{
    let notes_start = pos + header_bytes(f.header).len();
    let layers_start = notes_start + note_stream(f.notes).len();
    let instruments_start = layers_start + layer_list_bytes(f.layers).len();
    lemma_file_parts(s, pos, f);
    lemma_header_read_back(s, pos, f.header);
    lemma_notes_read_back(s, notes_start, None, sorted_notes(f.notes));
    lemma_layers_read_back(s, layers_start, f.layers, 0);
    lemma_instrument_list_read_back(s, instruments_start, f.instruments);
}

/// Cutting a buffer short behind a song leaves the song as it is; cutting it
/// short anywhere inside the song leaves a buffer that ends too early.
pub proof fn lemma_file_at_cut(s: Seq<u8>, pos: int, k: int)
    requires
        file_at(s, pos) is Ok,
        0 <= k <= s.len(),
    ensures
        pos <= (file_at(s, pos)->Ok_0).1 <= s.len(),
        file_at(s.take(k), pos) == if k >= (file_at(s, pos)->Ok_0).1 {
            file_at(s, pos)
        } else {
            Err(NbsError::UnexpectedEndOfData)
        },
{
    let (header, notes_start) = header_at(s, pos)->Ok_0;
    let (notes, layers_start) = note_stream_at(s, notes_start)->0;
    let count = header.song_layers as nat;
    let (layers, instruments_start) = layers_at(s, layers_start, 0, count)->0;
    lemma_header_at_cut(s, pos, k);
    lemma_notes_at_cut(s, notes_start, -1, None, k);
    lemma_layers_at_cut(s, layers_start, 0, count, s.len() as int);
    lemma_instrument_list_at_cut(s, instruments_start, k);
    if k >= layers_start {
        lemma_layers_at_cut(s, layers_start, 0, count, k);
    }
}

impl<'a> NbsParser<'a> {
    /// Reads a whole song. Either all of it is read, or nothing is: after an
    /// error the reader stands where it stood.
    pub fn parse(&mut self) -> (r: Result<NbsFile, NbsError>)
        ensures
            final(self).bytes() == old(self).bytes(),
            match file_at(old(self).bytes(), old(self).position()) {
                Ok((file, end)) => r matches Ok(f) && f@ == file && final(self).position() == end,
                Err(e) => r == Err::<NbsFile, NbsError>(e)
                    && final(self).position() == old(self).position(),
            },
    {
        let mut ahead: NbsParser<'a> = *self;
        let header: Header = ahead.parse_header()?;
        let notes: Vec<Note> = ahead.parse_notes()?;
        let layers: Vec<Layer> = ahead.parse_layers(&header)?;
        let instruments: Vec<Instrument> = ahead.parse_instruments()?;
        *self = ahead;
        Ok(NbsFile::new(header, notes, layers, instruments))
    }
}

/// Reads the song that `bytes` holds. Bytes behind the song are ignored.
pub fn decode(bytes: &[u8]) -> (r: Result<NbsFile, NbsError>)
    ensures
        match decoded(bytes@) {
            Ok(file) => r matches Ok(f) && f@ == file,
            Err(e) => r == Err::<NbsFile, NbsError>(e),
        },
{
    let mut parser = NbsParser::new(bytes);
    parser.parse()
}

/// The bytes of `file`. The header is written as it stands.
pub fn encode(file: &NbsFile) -> (bytes: Vec<u8>)
    ensures
        bytes@ == file_bytes(file@),
{
    let mut writer = NbsWriter::new();
    writer.get_file_bytes(file)
}

impl NbsWriter {
    /// The bytes of `file`, and nothing else: what the writer held before is
    /// dropped first, so that the result depends on the song alone. The
    /// writer holds the same bytes afterwards.
    pub fn get_file_bytes(&mut self, file: &NbsFile) -> (bytes: Vec<u8>)
        ensures
            bytes@ == file_bytes(file@),
            final(self)@ == file_bytes(file@),
    {
        self.clear();
        self.write_header(&file.header);
        self.write_notes(&file.notes);
        self.write_layers(&file.layers);
        self.write_instruments(&file.instruments);
        assert(self@ =~= file_bytes(file@));
        slice_to_vec(self.as_bytes())
    }
}

} // verus!
