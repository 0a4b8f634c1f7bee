//! The list of custom instruments: a count in one byte, then one record per
//! instrument.
//!
//! A record is the name of the instrument, the file name of its sample, its
//! key and a byte that says whether a piano key is shown as pressed.

use crate::cursor::{
    bytes_at, holds_at, lemma_bytes_at_cut, lemma_bytes_written, lemma_holds_at_byte,
    lemma_holds_at_parts, length_prefixed, u8_at, NbsParser, NbsWriter,
};
use crate::error::NbsError;
use crate::song::{instrument_views, Instrument, InstrumentView};
use vstd::prelude::*;

verus! {

/// An instrument as it is written.
pub open spec fn instrument_bytes(i: InstrumentView) -> Seq<u8> {
    length_prefixed(i.name) + length_prefixed(i.file) + seq![i.key, i.press_key]
}

/// The records of a list of instruments, one after the other.
pub open spec fn instrument_records(instruments: Seq<InstrumentView>) -> Seq<u8>
    decreases instruments.len(),
{
    if instruments.len() == 0 {
        Seq::empty()
    } else {
        instrument_bytes(instruments[0]) + instrument_records(instruments.skip(1))
    }
}

/// A list of instruments as it is written: the count, as far as one byte
/// holds it, then the records.
pub open spec fn instrument_list_bytes(instruments: Seq<InstrumentView>) -> Seq<u8> {
    seq![(instruments.len() % 256) as u8] + instrument_records(instruments)
}

/// The instrument whose record starts at `pos`, and the position behind it.
pub open spec fn instrument_at(s: Seq<u8>, pos: int) -> Option<(InstrumentView, int)> {
    let name = bytes_at(s, pos);
    let file_at = pos + 4 + (name->0).len();
    let file = bytes_at(s, file_at);
    let rest = file_at + 4 + (file->0).len();
    if name is None || file is None || rest + 2 > s.len() {
        None
    } else {
        Some(
            (InstrumentView { name: name->0, file: file->0, key: s[rest], press_key: s[rest + 1] },
                rest + 2),
        )
    }
}

/// The `count` instruments whose records start at `pos`, and the position
/// behind them.
pub open spec fn instruments_at(s: Seq<u8>, pos: int, count: nat) -> Option<
    (Seq<InstrumentView>, int),
>
    decreases count,
{
    if count == 0 {
        Some((Seq::empty(), pos))
    } else {
        match instrument_at(s, pos) {
            None => None,
            Some((instrument, next)) => match instruments_at(s, next, (count - 1) as nat) {
                None => None,
                Some((rest, end)) => Some((seq![instrument] + rest, end)),
            },
        }
    }
}

/// The list of instruments that starts at `pos` with its count, and the
/// position behind it.
pub open spec fn instrument_list_at(s: Seq<u8>, pos: int) -> Option<(Seq<InstrumentView>, int)> {
    match u8_at(s, pos) {
        None => None,
        Some(count) => instruments_at(s, pos + 1, count as nat),
    }
}

/// `found` with `instruments` put in front of the instruments it holds.
pub open spec fn after_instruments(
    instruments: Seq<InstrumentView>,
    found: Option<(Seq<InstrumentView>, int)>,
) -> Option<(Seq<InstrumentView>, int)> {
    match found {
        Some((rest, end)) => Some((instruments + rest, end)),
        None => None,
    }
}

/// The lengths of each instrument's name and file name fit in 32 bits.
pub open spec fn instrument_names_fit(instruments: Seq<InstrumentView>) -> bool {
    forall|i: int|
        0 <= i < instruments.len() ==> (#[trigger] instruments[i]).name.len() <= u32::MAX
            && instruments[i].file.len() <= u32::MAX
}

/// A written instrument is read back as it was.
pub proof fn lemma_instrument_read_back(s: Seq<u8>, pos: int, i: InstrumentView)
    requires
        holds_at(s, pos, instrument_bytes(i)),
        i.name.len() <= u32::MAX,
        i.file.len() <= u32::MAX,
    ensures
        instrument_at(s, pos) == Some((i, pos + instrument_bytes(i).len())),
{
    let name = length_prefixed(i.name);
    let file = length_prefixed(i.file);
    let tail = seq![i.key, i.press_key];
    lemma_holds_at_parts(s, pos, name + file, tail);
    lemma_holds_at_parts(s, pos, name, file);
    lemma_bytes_written(s, pos, i.name);
    lemma_bytes_written(s, pos + name.len(), i.file);
    let rest = pos + 8 + i.name.len() + i.file.len();
    lemma_holds_at_byte(s, rest, tail, 0);
    lemma_holds_at_byte(s, rest, tail, 1);
}

/// Written instrument records are read back as they were.
pub proof fn lemma_instruments_read_back(s: Seq<u8>, pos: int, instruments: Seq<InstrumentView>)
    requires
        holds_at(s, pos, instrument_records(instruments)),
        instrument_names_fit(instruments),
    ensures
        instruments_at(s, pos, instruments.len()) == Some(
            (instruments, pos + instrument_records(instruments).len()),
        ),
    decreases instruments.len(),
{
    if instruments.len() == 0 {
        assert(instruments =~= Seq::<InstrumentView>::empty());
    } else {
        let rest = instruments.skip(1);
        let record = instrument_bytes(instruments[0]);
        lemma_holds_at_parts(s, pos, record, instrument_records(rest));
        lemma_instrument_read_back(s, pos, instruments[0]);
        assert forall|i: int| 0 <= i < rest.len() implies (#[trigger] rest[i]).name.len()
            <= u32::MAX && rest[i].file.len() <= u32::MAX by {
            assert(rest[i] == instruments[i + 1]);
        }
        lemma_instruments_read_back(s, pos + record.len(), rest);
        assert(seq![instruments[0]] + rest =~= instruments);
    }
}

/// A written list of at most 255 instruments is read back as it was.
pub proof fn lemma_instrument_list_read_back(
    s: Seq<u8>,
    pos: int,
    instruments: Seq<InstrumentView>,
)
    requires
        holds_at(s, pos, instrument_list_bytes(instruments)),
        instrument_names_fit(instruments),
        instruments.len() <= 255,
    ensures
        instrument_list_at(s, pos) == Some(
            (instruments, pos + instrument_list_bytes(instruments).len()),
        ),
{
    let count = seq![(instruments.len() % 256) as u8];
    lemma_holds_at_parts(s, pos, count, instrument_records(instruments));
    lemma_holds_at_byte(s, pos, count, 0);
    lemma_instruments_read_back(s, pos + 1, instruments);
}

/// Cutting a buffer short behind an instrument leaves the instrument as it
/// is; cutting it short inside the instrument leaves none.
proof fn lemma_instrument_at_cut(s: Seq<u8>, pos: int, k: int)
    requires
        instrument_at(s, pos) is Some,
        0 <= k <= s.len(),
    ensures
        pos <= (instrument_at(s, pos)->0).1 <= s.len(),
        instrument_at(s.take(k), pos) == if k >= (instrument_at(s, pos)->0).1 {
            instrument_at(s, pos)
        } else {
            None
        },
{
    let t = s.take(k);
    let file_at = pos + 4 + (bytes_at(s, pos)->0).len();
    let rest = file_at + 4 + (bytes_at(s, file_at)->0).len();
    lemma_bytes_at_cut(s, pos, k);
    if k >= file_at {
        lemma_bytes_at_cut(s, file_at, k);
        if k >= rest + 2 {
            assert(t[rest] == s[rest] && t[rest + 1] == s[rest + 1]);
        }
    }
}

/// Cutting a buffer short behind a run of instruments leaves the run as it
/// is; cutting it short inside the run leaves none.
proof fn lemma_instruments_at_cut(s: Seq<u8>, pos: int, count: nat, k: int)
    requires
        instruments_at(s, pos, count) is Some,
        0 <= pos <= k <= s.len(),
    ensures
        pos <= (instruments_at(s, pos, count)->0).1 <= s.len(),
        instruments_at(s.take(k), pos, count) == if k >= (instruments_at(s, pos, count)->0).1 {
            instruments_at(s, pos, count)
        } else {
            None
        },
    decreases count,
{
    if count > 0 {
        let first = instrument_at(s, pos)->0;
        lemma_instrument_at_cut(s, pos, k);
        if k >= first.1 {
            lemma_instruments_at_cut(s, first.1, (count - 1) as nat, k);
        } else {
            lemma_instruments_at_cut(s, first.1, (count - 1) as nat, s.len() as int);
        }
    }
}

/// Cutting a buffer short behind a list of instruments leaves the list as it
/// is; cutting it short inside the list leaves none.
pub proof fn lemma_instrument_list_at_cut(s: Seq<u8>, pos: int, k: int)
    requires
        instrument_list_at(s, pos) is Some,
        0 <= k <= s.len(),
    ensures
        pos + 1 <= (instrument_list_at(s, pos)->0).1 <= s.len(),
        instrument_list_at(s.take(k), pos) == if k >= (instrument_list_at(s, pos)->0).1 {
            instrument_list_at(s, pos)
        } else {
            None
        },
{
    let t = s.take(k);
    let count = u8_at(s, pos)->0;
    if k >= pos + 1 {
        lemma_instruments_at_cut(s, pos + 1, count as nat, k);
        assert(u8_at(t, pos) == u8_at(s, pos));
    } else {
        lemma_instruments_at_cut(s, pos + 1, count as nat, s.len() as int);
    }
}

impl<'a> NbsParser<'a> {
    /// Reads one instrument record.
    fn read_instrument(&mut self) -> (r: Result<Instrument, NbsError>)
        ensures
            final(self).bytes() == old(self).bytes(),
            match instrument_at(old(self).bytes(), old(self).position()) {
                Some((instrument, end)) => r matches Ok(i) && i@ == instrument
                    && final(self).position() == end,
                None => r == Err::<Instrument, NbsError>(NbsError::UnexpectedEndOfData)
                    && final(self).position() == old(self).position(),
            },
    {
        let mut ahead: NbsParser<'a> = *self;
        let name: Vec<u8> = ahead.read_string()?;
        let file: Vec<u8> = ahead.read_string()?;
        let key: u8 = ahead.read_u8()?;
        let press_key: u8 = ahead.read_u8()?;
        *self = ahead;
        Ok(Instrument { name, file, key, press_key })
    }

    /// Reads the list of custom instruments: its count, then that many
    /// records.
    pub fn parse_instruments(&mut self) -> (r: Result<Vec<Instrument>, NbsError>)
        ensures
            final(self).bytes() == old(self).bytes(),
            match instrument_list_at(old(self).bytes(), old(self).position()) {
                Some((instruments, end)) => r matches Ok(v) && instrument_views(v@)
                    == instruments && final(self).position() == end,
                None => r == Err::<Vec<Instrument>, NbsError>(NbsError::UnexpectedEndOfData)
                    && final(self).position() == old(self).position(),
            },
    {
        let ghost s = self.bytes();
        let ghost whole = instrument_list_at(s, self.position());
        let mut ahead: NbsParser<'a> = *self;
        let count: u8 = ahead.read_u8()?;
        let mut instruments: Vec<Instrument> = Vec::new();
        let mut i: u8 = 0;
        proof {
            assert(instrument_views(instruments@) + (whole->0).0 =~= (whole->0).0);
        }
        while i < count
            invariant
                *self == *old(self),
                s == old(self).bytes(),
                ahead.bytes() == s,
                i <= count,
                whole == instrument_list_at(s, old(self).position()),
                whole == after_instruments(
                    instrument_views(instruments@),
                    instruments_at(s, ahead.position(), (count - i) as nat),
                ),
            decreases count - i,
        {
            let ghost before = instrument_views(instruments@);
            let instrument: Instrument = match ahead.read_instrument() {
                Ok(instrument) => instrument,
                Err(e) => {
                    return Err(e);
                },
            };
            proof {
                let rest = instruments_at(s, ahead.position(), (count - i - 1) as nat);
                assert(instrument_views(instruments@.push(instrument)) =~= before.push(
                    instrument@,
                ));
                if rest is Some {
                    let found = (rest->0).0;
                    assert(before + (seq![instrument@] + found) =~= before.push(instrument@)
                        + found);
                }
            }
            instruments.push(instrument);
            i += 1;
        }
        proof {
            assert(instrument_views(instruments@) + Seq::<InstrumentView>::empty()
                =~= instrument_views(instruments@));
        }
        *self = ahead;
        Ok(instruments)
    }
}

impl NbsWriter {
    /// Writes the count of the instruments, as far as one byte holds it, and
    /// then every instrument.
    pub fn write_instruments(&mut self, instruments: &Vec<Instrument>)
        ensures
            final(self)@ == old(self)@ + instrument_list_bytes(instrument_views(instruments@)),
    {
        let ghost views = instrument_views(instruments@);
        let ghost whole = old(self)@ + instrument_list_bytes(views);
        self.write_u8((instruments.len() % 256) as u8);
        let mut i: usize = 0;
        proof {
            assert(views.skip(0) =~= views);
            assert(whole =~= self@ + instrument_records(views));
        }
        while i < instruments.len()
            invariant
                i <= instruments.len(),
                views == instrument_views(instruments@),
                whole == self@ + instrument_records(views.skip(i as int)),
            decreases instruments.len() - i,
        {
            let ghost written = self@;
            let instrument: &Instrument = &instruments[i];
            self.write_string(instrument.name.as_slice());
            self.write_string(instrument.file.as_slice());
            self.write_u8(instrument.key);
            self.write_u8(instrument.press_key);
            proof {
                let rest = views.skip(i as int);
                assert(rest[0] == instrument@);
                assert(rest.skip(1) =~= views.skip(i + 1));
                let tail = instrument_records(views.skip(i + 1));
                assert(self@ =~= written + instrument_bytes(instrument@));
                assert(written + (instrument_bytes(instrument@) + tail) =~= self@ + tail);
            }
            i += 1;
        }
        proof {
            assert(self@ + instrument_records(views.skip(i as int)) =~= self@);
        }
    }
}

} // verus!
