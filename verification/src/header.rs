//! The header: a fixed sequence of fields at the start of a song file.
//!
//! ```text
//! u16 marker, always 0        u8 version          u8 default instruments
//! u16 song length             u16 layer count
//! song name, song author, first author, description
//! u16 tempo                   u8 auto-save flag   u8 auto-save interval
//! u8 time signature           u32 minutes spent   u32 left clicks
//! u32 right clicks            u32 blocks added    u32 blocks removed
//! origin file name
//! u8 loop flag                u8 loop count       u16 loop start
//! ```
//!
//! Numbers are little-endian; a text is a `u32` length and that many bytes.

use crate::cursor::{
    bytes_at, flag_byte, holds_at, lemma_bytes_at_cut, lemma_bytes_written, lemma_holds_at_parts,
    lemma_holds_at_stretch, lemma_stretch_cut, length_prefixed, u16_at, NbsParser, NbsWriter,
};
use crate::endian::{
    lemma_u16_from_its_bytes, lemma_u32_from_its_bytes, u16_from_le, u16_le, u32_from_le, u32_le,
};
use crate::error::NbsError;
use crate::song::{Header, HeaderView, CURRENT_NBS_VERSION};
use vstd::prelude::*;

verus! {

/// The eight bytes in front of the texts: marker, version, count of built-in
/// instruments, song length, layer count. The version written is that of the
/// codec, whatever the header holds.
pub open spec fn header_start(h: HeaderView) -> Seq<u8> {
    u16_le(0) + seq![CURRENT_NBS_VERSION, h.default_instruments] + u16_le(h.song_length) + u16_le(
        h.song_layers,
    )
}

/// The four texts that follow: song name, author, first author, description.
pub open spec fn header_texts(h: HeaderView) -> Seq<u8> {
    length_prefixed(h.song_name) + length_prefixed(h.song_author) + length_prefixed(
        h.original_author,
    ) + length_prefixed(h.description)
}

/// The 25 bytes between the description and the origin: tempo, auto-save
/// settings, time signature and the five counters.
pub open spec fn header_stats(h: HeaderView) -> Seq<u8> {
    u16_le(h.tempo) + seq![flag_byte(h.auto_save), h.auto_save_duration, h.time_signature]
        + u32_le(h.minutes_spent) + u32_le(h.left_clicks) + u32_le(h.right_clicks) + u32_le(
        h.blocks_added,
    ) + u32_le(h.blocks_removed)
}

/// The last four bytes: loop flag, loop count, loop start.
pub open spec fn header_loop(h: HeaderView) -> Seq<u8> {
    seq![flag_byte(h.loop_flag), h.max_loop_count] + u16_le(h.loop_start)
}

/// The header as it is written.
pub open spec fn header_bytes(h: HeaderView) -> Seq<u8> {
    header_start(h) + header_texts(h) + header_stats(h) + length_prefixed(h.song_origin)
        + header_loop(h)
}

/// The header that is made of its eight leading bytes `start`, its five
/// texts, its 25 bytes `stats` of settings and counters and its four bytes
/// `tail` of loop settings. Its version is that of the codec, whatever
/// `start` claims.
pub open spec fn header_of(
    start: Seq<u8>,
    song_name: Seq<u8>,
    song_author: Seq<u8>,
    original_author: Seq<u8>,
    description: Seq<u8>,
    stats: Seq<u8>,
    song_origin: Seq<u8>,
    tail: Seq<u8>,
) -> HeaderView {
    HeaderView {
        version: CURRENT_NBS_VERSION,
        default_instruments: start[3],
        song_length: u16_from_le(start[4], start[5]),
        song_layers: u16_from_le(start[6], start[7]),
        song_name,
        song_author,
        original_author,
        description,
        tempo: u16_from_le(stats[0], stats[1]),
        auto_save: stats[2] != 0,
        auto_save_duration: stats[3],
        time_signature: stats[4],
        minutes_spent: u32_from_le(stats[5], stats[6], stats[7], stats[8]),
        left_clicks: u32_from_le(stats[9], stats[10], stats[11], stats[12]),
        right_clicks: u32_from_le(stats[13], stats[14], stats[15], stats[16]),
        blocks_added: u32_from_le(stats[17], stats[18], stats[19], stats[20]),
        blocks_removed: u32_from_le(stats[21], stats[22], stats[23], stats[24]),
        song_origin,
        loop_flag: tail[0] != 0,
        max_loop_count: tail[1],
        loop_start: u16_from_le(tail[2], tail[3]),
    }
}

/// The header that starts at `pos`, and the position behind it.
///
/// A nonzero marker is refused as soon as it has been read. Everything else
/// that can go wrong is that the bytes run out.
#[verifier::opaque]
pub open spec fn header_at(s: Seq<u8>, pos: int) -> Result<(HeaderView, int), NbsError> {
    let marker = u16_at(s, pos);
    let song_name = bytes_at(s, pos + 8);
    let author_at = pos + 12 + (song_name->0).len();
    let song_author = bytes_at(s, author_at);
    let first_at = author_at + 4 + (song_author->0).len();
    let original_author = bytes_at(s, first_at);
    let description_at = first_at + 4 + (original_author->0).len();
    let description = bytes_at(s, description_at);
    let stats = description_at + 4 + (description->0).len();
    let song_origin = bytes_at(s, stats + 25);
    let tail = stats + 29 + (song_origin->0).len();
    if marker is None {
        Err(NbsError::UnexpectedEndOfData)
    } else if marker != Some(0u16) {
        Err(NbsError::UnsupportedFormatVariant)
    } else if pos + 8 > s.len() || song_name is None || song_author is None
        || original_author is None || description is None || stats + 25 > s.len()
        || song_origin is None || tail + 4 > s.len() {
        Err(NbsError::UnexpectedEndOfData)
    } else {
        Ok(
            (
                header_of(
                    s.subrange(pos, pos + 8),
                    song_name->0,
                    song_author->0,
                    original_author->0,
                    description->0,
                    s.subrange(stats, stats + 25),
                    song_origin->0,
                    s.subrange(tail, tail + 4),
                ),
                tail + 4,
            ),
        )
    }
}

/// The length of each text of `h` fits in 32 bits, so that it is written in
/// full.
pub open spec fn texts_fit(h: HeaderView) -> bool {
    &&& h.song_name.len() <= u32::MAX
    &&& h.song_author.len() <= u32::MAX
    &&& h.original_author.len() <= u32::MAX
    &&& h.description.len() <= u32::MAX
    &&& h.song_origin.len() <= u32::MAX
}

/// The eight leading bytes of a header, one by one.
proof fn lemma_header_start_bytes(h: HeaderView)
    ensures
        header_start(h) == seq![
            0u8,
            0u8,
            CURRENT_NBS_VERSION,
            h.default_instruments,
            u16_le(h.song_length)[0],
            u16_le(h.song_length)[1],
            u16_le(h.song_layers)[0],
            u16_le(h.song_layers)[1],
        ],
{
    assert(header_start(h) =~= seq![
        0u8,
        0u8,
        CURRENT_NBS_VERSION,
        h.default_instruments,
        u16_le(h.song_length)[0],
        u16_le(h.song_length)[1],
        u16_le(h.song_layers)[0],
        u16_le(h.song_layers)[1],
    ]);
}

/// The 25 bytes of settings and counters of a header: each field stands at
/// its offset.
proof fn lemma_header_stats_bytes(h: HeaderView)
    ensures
        header_stats(h).len() == 25,
        header_stats(h).subrange(0, 2) == u16_le(h.tempo),
        header_stats(h)[2] == flag_byte(h.auto_save),
        header_stats(h)[3] == h.auto_save_duration,
        header_stats(h)[4] == h.time_signature,
        header_stats(h).subrange(5, 9) == u32_le(h.minutes_spent),
        header_stats(h).subrange(9, 13) == u32_le(h.left_clicks),
        header_stats(h).subrange(13, 17) == u32_le(h.right_clicks),
        header_stats(h).subrange(17, 21) == u32_le(h.blocks_added),
        header_stats(h).subrange(21, 25) == u32_le(h.blocks_removed),
{
    let stats = header_stats(h);
    assert(stats.subrange(0, 2) =~= u16_le(h.tempo));
    assert(stats.subrange(5, 9) =~= u32_le(h.minutes_spent));
    assert(stats.subrange(9, 13) =~= u32_le(h.left_clicks));
    assert(stats.subrange(13, 17) =~= u32_le(h.right_clicks));
    assert(stats.subrange(17, 21) =~= u32_le(h.blocks_added));
    assert(stats.subrange(21, 25) =~= u32_le(h.blocks_removed));
}

/// The number read from four bytes of `s` that are the bytes of `v` is `v`.
proof fn lemma_u32_in(s: Seq<u8>, at: int, v: u32)
    requires
        0 <= at && at + 4 <= s.len(),
        s.subrange(at, at + 4) == u32_le(v),
    ensures
        u32_from_le(s[at], s[at + 1], s[at + 2], s[at + 3]) == v,
{
    let part = s.subrange(at, at + 4);
    lemma_u32_from_its_bytes(v);
    assert(part[0] == s[at] && part[1] == s[at + 1] && part[2] == s[at + 2] && part[3] == s[at
        + 3]);
}

/// The parts of a written header make up the header again, with the version
/// of the codec in place of its own.
proof fn lemma_header_of_written(h: HeaderView)
    ensures
        header_start(h).len() == 8,
        header_stats(h).len() == 25,
        header_loop(h).len() == 4,
        header_of(
            header_start(h),
            h.song_name,
            h.song_author,
            h.original_author,
            h.description,
            header_stats(h),
            h.song_origin,
            header_loop(h),
        ) == (HeaderView { version: CURRENT_NBS_VERSION, ..h }),
{
    let stats = header_stats(h);
    lemma_header_start_bytes(h);
    lemma_header_stats_bytes(h);
    lemma_u16_from_its_bytes(h.song_length);
    lemma_u16_from_its_bytes(h.song_layers);
    lemma_u16_from_its_bytes(h.tempo);
    lemma_u16_from_its_bytes(h.loop_start);
    assert(stats.subrange(0, 2)[0] == stats[0] && stats.subrange(0, 2)[1] == stats[1]);
    lemma_u32_in(stats, 5, h.minutes_spent);
    lemma_u32_in(stats, 9, h.left_clicks);
    lemma_u32_in(stats, 13, h.right_clicks);
    lemma_u32_in(stats, 17, h.blocks_added);
    lemma_u32_in(stats, 21, h.blocks_removed);
}

/// Where a written header stands, each of its five parts stands in its
/// place.
proof fn lemma_header_parts(s: Seq<u8>, pos: int, h: HeaderView)
    requires
        holds_at(s, pos, header_bytes(h)),
    ensures
        holds_at(s, pos, header_start(h)),
        holds_at(s, pos + header_start(h).len(), header_texts(h)),
        holds_at(s, pos + header_start(h).len() + header_texts(h).len(), header_stats(h)),
        holds_at(
            s,
            pos + header_start(h).len() + header_texts(h).len() + header_stats(h).len(),
            length_prefixed(h.song_origin),
        ),
        holds_at(
            s,
            pos + header_start(h).len() + header_texts(h).len() + header_stats(h).len()
                + length_prefixed(h.song_origin).len(),
            header_loop(h),
        ),
        header_bytes(h).len() == header_start(h).len() + header_texts(h).len()
            + header_stats(h).len() + length_prefixed(h.song_origin).len()
            + header_loop(h).len(),
{
    let a = header_start(h);
    let b = header_texts(h);
    let c = header_stats(h);
    let d = length_prefixed(h.song_origin);
    let e = header_loop(h);
    lemma_holds_at_parts(s, pos, a + b + c + d, e);
    lemma_holds_at_parts(s, pos, a + b + c, d);
    lemma_holds_at_parts(s, pos, a + b, c);
    lemma_holds_at_parts(s, pos, a, b);
}

/// What is read from the four texts of a written header.
proof fn lemma_header_texts_read_back(s: Seq<u8>, pos: int, h: HeaderView)
    requires
        holds_at(s, pos, header_texts(h)),
        texts_fit(h),
    ensures
        header_texts(h).len() == 16 + h.song_name.len() + h.song_author.len()
            + h.original_author.len() + h.description.len(),
        bytes_at(s, pos) == Some(h.song_name),
        bytes_at(s, pos + 4 + h.song_name.len()) == Some(h.song_author),
        bytes_at(s, pos + 8 + h.song_name.len() + h.song_author.len()) == Some(h.original_author),
        bytes_at(
            s,
            pos + 12 + h.song_name.len() + h.song_author.len() + h.original_author.len(),
        ) == Some(h.description),
{
    let a = length_prefixed(h.song_name);
    let b = length_prefixed(h.song_author);
    let c = length_prefixed(h.original_author);
    let d = length_prefixed(h.description);
    lemma_holds_at_parts(s, pos, a + b + c, d);
    lemma_holds_at_parts(s, pos, a + b, c);
    lemma_holds_at_parts(s, pos, a, b);
    lemma_bytes_written(s, pos, h.song_name);
    lemma_bytes_written(s, pos + a.len(), h.song_author);
    lemma_bytes_written(s, pos + a.len() + b.len(), h.original_author);
    lemma_bytes_written(s, pos + a.len() + b.len() + c.len(), h.description);
}

/// A written header is read back as it was, with the version of the codec
/// in place of its own.
#[verifier::rlimit(50)]
pub proof fn lemma_header_read_back(s: Seq<u8>, pos: int, h: HeaderView)
    requires
        holds_at(s, pos, header_bytes(h)),
        texts_fit(h),
    ensures
        header_at(s, pos) == Ok::<(HeaderView, int), NbsError>(
            (HeaderView { version: CURRENT_NBS_VERSION, ..h }, pos + header_bytes(h).len()),
        ),
{
    let texts = h.song_name.len() + h.song_author.len() + h.original_author.len()
        + h.description.len();
    let stats = pos + 24 + texts;
    let tail = pos + 53 + texts + h.song_origin.len();
    lemma_header_of_written(h);
    lemma_header_parts(s, pos, h);
    lemma_header_texts_read_back(s, pos + 8, h);
    lemma_bytes_written(s, stats + 25, h.song_origin);
    lemma_holds_at_stretch(s, pos, header_start(h));
    lemma_holds_at_stretch(s, stats, header_stats(h));
    lemma_holds_at_stretch(s, tail, header_loop(h));
    lemma_header_start_bytes(h);
    assert(u16_at(s, pos) == Some(0u16)) by {
        let start = s.subrange(pos, pos + 8);
        assert(start[0] == s[pos] && start[1] == s[pos + 1]);
    }
    reveal(header_at);
}

/// Cutting a buffer short behind a header leaves the header as it is;
/// cutting it short inside the header leaves a buffer that ends too early.
pub proof fn lemma_header_at_cut(s: Seq<u8>, pos: int, k: int)
    requires
        header_at(s, pos) is Ok,
        0 <= k <= s.len(),
    ensures
        pos + 2 <= (header_at(s, pos)->Ok_0).1 <= s.len(),
        header_at(s.take(k), pos) == if k >= (header_at(s, pos)->Ok_0).1 {
            header_at(s, pos)
        } else {
            Err(NbsError::UnexpectedEndOfData)
        },
{
    reveal(header_at);
    let t = s.take(k);
    let author_at = pos + 12 + (bytes_at(s, pos + 8)->0).len();
    let first_at = author_at + 4 + (bytes_at(s, author_at)->0).len();
    let description_at = first_at + 4 + (bytes_at(s, first_at)->0).len();
    let stats = description_at + 4 + (bytes_at(s, description_at)->0).len();
    let tail = stats + 29 + (bytes_at(s, stats + 25)->0).len();
    let end = Err::<(HeaderView, int), NbsError>(NbsError::UnexpectedEndOfData);
    if k < pos + 2 {
        assert(u16_at(t, pos) is None);
    } else {
        assert(u16_at(t, pos) == u16_at(s, pos));
        lemma_bytes_at_cut(s, pos + 8, k);
        if k < author_at {
            assert(header_at(t, pos) == end);
        } else {
            lemma_bytes_at_cut(s, author_at, k);
            if k < first_at {
                assert(header_at(t, pos) == end);
            } else {
                lemma_bytes_at_cut(s, first_at, k);
                if k < description_at {
                    assert(header_at(t, pos) == end);
                } else {
                    lemma_bytes_at_cut(s, description_at, k);
                    if k < stats + 25 {
                        assert(header_at(t, pos) == end);
                    } else {
                        lemma_bytes_at_cut(s, stats + 25, k);
                        if k < tail + 4 {
                            assert(header_at(t, pos) == end);
                        } else {
                            lemma_stretch_cut(s, k, pos, pos + 8);
                            lemma_stretch_cut(s, k, stats, stats + 25);
                            lemma_stretch_cut(s, k, tail, tail + 4);
                            assert(header_at(t, pos) == header_at(s, pos));
                        }
                    }
                }
            }
        }
    }
}

impl<'a> NbsParser<'a> {
    /// Reads a header. A file that starts with a nonzero marker is refused
    /// with `UnsupportedFormatVariant`. The version byte of the file is read
    /// and dropped: the header that comes out carries the version of the
    /// codec.
    #[verifier::rlimit(50)]
    pub fn parse_header(&mut self) -> (r: Result<Header, NbsError>)
        ensures
            final(self).bytes() == old(self).bytes(),
            match header_at(old(self).bytes(), old(self).position()) {
                Ok((header, end)) => r matches Ok(h) && h@ == header && final(self).position()
                    == end,
                Err(e) => r == Err::<Header, NbsError>(e)
                    && final(self).position() == old(self).position(),
            },
    {
        proof {
            reveal(header_at);
        }
        let mut ahead: NbsParser<'a> = *self;
        let marker: u16 = ahead.read_u16()?;
        if marker != 0 {
            return Err(NbsError::UnsupportedFormatVariant);
        }
        let _file_version: u8 = ahead.read_u8()?;
        let default_instruments: u8 = ahead.read_u8()?;
        let song_length: u16 = ahead.read_u16()?;
        let song_layers: u16 = ahead.read_u16()?;
        let song_name: Vec<u8> = ahead.read_string()?;
        let song_author: Vec<u8> = ahead.read_string()?;
        let original_author: Vec<u8> = ahead.read_string()?;
        let description: Vec<u8> = ahead.read_string()?;
        let tempo: u16 = ahead.read_u16()?;
        let auto_save: bool = ahead.read_u8()? != 0;
        let auto_save_duration: u8 = ahead.read_u8()?;
        let time_signature: u8 = ahead.read_u8()?;
        let minutes_spent: u32 = ahead.read_u32()?;
        let left_clicks: u32 = ahead.read_u32()?;
        let right_clicks: u32 = ahead.read_u32()?;
        let blocks_added: u32 = ahead.read_u32()?;
        let blocks_removed: u32 = ahead.read_u32()?;
        let song_origin: Vec<u8> = ahead.read_string()?;
        let loop_flag: bool = ahead.read_u8()? != 0;
        let max_loop_count: u8 = ahead.read_u8()?;
        let loop_start: u16 = ahead.read_u16()?;
        *self = ahead;
        Ok(
            Header {
                version: CURRENT_NBS_VERSION,
                default_instruments,
                song_length,
                song_layers,
                song_name,
                song_author,
                original_author,
                description,
                tempo,
                auto_save,
                auto_save_duration,
                time_signature,
                minutes_spent,
                left_clicks,
                right_clicks,
                blocks_added,
                blocks_removed,
                song_origin,
                loop_flag,
                max_loop_count,
                loop_start,
            },
        )
    }
}

impl NbsWriter {
    fn write_header_start(&mut self, header: &Header)
        ensures
            final(self)@ == old(self)@ + header_start(header@),
    {
        self.write_u16(0);
        self.write_u8(CURRENT_NBS_VERSION);
        self.write_u8(header.default_instruments);
        self.write_u16(header.song_length);
        self.write_u16(header.song_layers);
        assert(self@ =~= old(self)@ + header_start(header@));
    }

    fn write_header_texts(&mut self, header: &Header)
        ensures
            final(self)@ == old(self)@ + header_texts(header@),
    {
        self.write_string(header.song_name.as_slice());
        self.write_string(header.song_author.as_slice());
        self.write_string(header.original_author.as_slice());
        self.write_string(header.description.as_slice());
        assert(self@ =~= old(self)@ + header_texts(header@));
    }

    fn write_header_stats(&mut self, header: &Header)
        ensures
            final(self)@ == old(self)@ + header_stats(header@),
    {
        self.write_u16(header.tempo);
        self.write_flag(header.auto_save);
        self.write_u8(header.auto_save_duration);
        self.write_u8(header.time_signature);
        self.write_u32(header.minutes_spent);
        self.write_u32(header.left_clicks);
        self.write_u32(header.right_clicks);
        self.write_u32(header.blocks_added);
        self.write_u32(header.blocks_removed);
        assert(self@ =~= old(self)@ + header_stats(header@));
    }

    fn write_header_loop(&mut self, header: &Header)
        ensures
            final(self)@ == old(self)@ + header_loop(header@),
    {
        self.write_flag(header.loop_flag);
        self.write_u8(header.max_loop_count);
        self.write_u16(header.loop_start);
        assert(self@ =~= old(self)@ + header_loop(header@));
    }

    /// Writes a header: a zero marker, the version of the codec, then every
    /// field in its place.
    pub fn write_header(&mut self, header: &Header)
        ensures
            final(self)@ == old(self)@ + header_bytes(header@),
    {
        self.write_header_start(header);
        self.write_header_texts(header);
        self.write_header_stats(header);
        self.write_string(header.song_origin.as_slice());
        self.write_header_loop(header);
        assert(self@ =~= old(self)@ + header_bytes(header@));
    }
}

} // verus!
