//! The session log `SE_LOG.BIN`: a sequence of little-endian 32-bit words.
//! Words 0 to 6 are the session number, the number of channels, the sample
//! rate, a date code, the number of takes, the number of markers and the
//! total length; words 7 to 262 hold the size of each take (a table of 256
//! entries), and the markers follow from word 263 on. The session name sits
//! at byte 1552, twenty bytes long.

use vstd::prelude::*;
use crate::words::{hex_encode, hex_text, read_u32, word_at};

verus! {

/// Byte offset of the first take size.
pub const TAKE_TABLE_START: usize = 28;

/// Number of entries of the take size table.
pub const TAKE_TABLE_LEN: u32 = 256;

/// Byte offset of the first marker.
pub const MARKERS_START: usize = 1052;

/// Byte offset of the session name.
pub const NAME_START: usize = 1552;

/// Length of the session name field, its terminating zero included.
pub const NAME_FIELD_LEN: usize = 20;

/// What the session log holds.
pub struct LogData {
    pub session_str: String,
    pub session_no: u32,
    pub no_channels: u32,
    pub sample_rate: u32,
    pub date_code: u32,
    pub no_takes: u32,
    pub no_markers: u32,
    pub total_length: u32,
    pub take_size: Vec<u32>,
    pub take_markers: Vec<u32>,
}

/// Why a session log could not be read.
#[derive(Debug, PartialEq, Eq, Structural)]
pub enum LogError {
    /// The log ends before a word that has to be read.
    UnexpectedEof,
}

/// Word `k` of the log.
pub open spec fn log_word(bytes: Seq<u8>, k: int) -> int {
    word_at(bytes, 4 * k)
}

/// The number of takes that the header announces.
pub open spec fn header_takes(bytes: Seq<u8>) -> int {
    log_word(bytes, 4)
}

/// The number of markers that the header announces.
pub open spec fn header_markers(bytes: Seq<u8>) -> int {
    log_word(bytes, 5)
}

/// The header and all the announced take sizes are present, but more than
/// 256 takes are announced: the count of table entries left to skip,
/// `256 - no_takes`, is negative.
pub open spec fn take_table_overflows(bytes: Seq<u8>) -> bool {
    &&& bytes.len() >= TAKE_TABLE_START
    &&& header_takes(bytes) > TAKE_TABLE_LEN
    &&& bytes.len() >= TAKE_TABLE_START + 4 * header_takes(bytes)
}

/// The log holds every word that reading it needs: the header, the take size
/// table and the announced markers.
pub open spec fn log_complete(bytes: Seq<u8>) -> bool {
    &&& bytes.len() >= TAKE_TABLE_START
    &&& header_takes(bytes) <= TAKE_TABLE_LEN
    &&& bytes.len() >= MARKERS_START + 4 * header_markers(bytes)
}

/// The session string: the hexadecimal text of the four-byte read buffer,
/// reversed, before anything is read into it.
pub open spec fn session_text() -> Seq<char> {
    hex_text(seq![0u8, 0u8, 0u8, 0u8])
}

/// What reading a complete log gives, field by field.
pub open spec fn log_data_matches(d: LogData, bytes: Seq<u8>) -> bool {
    &&& d.session_str@ == session_text()
    &&& d.session_no == log_word(bytes, 0)
    &&& d.no_channels == log_word(bytes, 1)
    &&& d.sample_rate == log_word(bytes, 2)
    &&& d.date_code == log_word(bytes, 3)
    &&& d.no_takes == log_word(bytes, 4)
    &&& d.no_markers == log_word(bytes, 5)
    &&& d.total_length == log_word(bytes, 6)
    &&& d.take_size@ == Seq::new(d.no_takes as nat, |i: int| log_word(bytes, 7 + i) as u32)
    &&& d.take_markers@ == Seq::new(d.no_markers as nat, |i: int| log_word(bytes, 263 + i) as u32)
}

/// Where each field of the log comes from, byte by byte: every field is the
/// little-endian word of four bytes at its place, the header words at bytes
/// 0 to 27, take `i`'s size at byte `28 + 4 * i` and marker `i` at byte
/// `1052 + 4 * i`.
pub proof fn lemma_log_field_bytes(bytes: Seq<u8>, d: LogData)
    requires
        log_complete(bytes),
        log_data_matches(d, bytes),
    ensures
        d.session_no == bytes[0] + 256 * bytes[1] + 65536 * bytes[2] + 16777216 * bytes[3],
        d.no_channels == bytes[4] + 256 * bytes[5] + 65536 * bytes[6] + 16777216 * bytes[7],
        d.sample_rate == bytes[8] + 256 * bytes[9] + 65536 * bytes[10] + 16777216 * bytes[11],
        d.date_code == bytes[12] + 256 * bytes[13] + 65536 * bytes[14] + 16777216 * bytes[15],
        d.no_takes == bytes[16] + 256 * bytes[17] + 65536 * bytes[18] + 16777216 * bytes[19],
        d.no_markers == bytes[20] + 256 * bytes[21] + 65536 * bytes[22] + 16777216 * bytes[23],
        d.total_length == bytes[24] + 256 * bytes[25] + 65536 * bytes[26] + 16777216 * bytes[27],
        d.take_size@.len() == d.no_takes,
        d.take_markers@.len() == d.no_markers,
        forall|i: int|
            0 <= i < d.no_takes ==> #[trigger] d.take_size@[i] == bytes[28 + 4 * i] + 256 * bytes[29 + 4 * i]
                + 65536 * bytes[30 + 4 * i] + 16777216 * bytes[31 + 4 * i],
        forall|i: int|
            0 <= i < d.no_markers ==> #[trigger] d.take_markers@[i] == bytes[1052 + 4 * i] + 256 * bytes[1053
                + 4 * i] + 65536 * bytes[1054 + 4 * i] + 16777216 * bytes[1055 + 4 * i],
{
    assert forall|i: int| 0 <= i < d.no_takes implies #[trigger] d.take_size@[i] == bytes[28 + 4 * i] + 256
        * bytes[29 + 4 * i] + 65536 * bytes[30 + 4 * i] + 16777216 * bytes[31 + 4 * i] by {
        assert(0 <= word_at(bytes, 28 + 4 * i) <= u32::MAX);
        assert(d.take_size@[i] == log_word(bytes, 7 + i) as u32);
    }
    assert forall|i: int| 0 <= i < d.no_markers implies #[trigger] d.take_markers@[i] == bytes[1052 + 4 * i]
        + 256 * bytes[1053 + 4 * i] + 65536 * bytes[1054 + 4 * i] + 16777216 * bytes[1055 + 4 * i] by {
        assert(0 <= word_at(bytes, 1052 + 4 * i) <= u32::MAX);
        assert(d.take_markers@[i] == log_word(bytes, 263 + i) as u32);
    }
}

/// Tells whether reading `bytes` as a session log would run past the end of
/// the take size table (`read_log_file` does not accept such a log).
pub fn check_take_table_overflows(bytes: &[u8]) -> (res: bool)
    ensures
        res == take_table_overflows(bytes@),
{
    if bytes.len() < TAKE_TABLE_START {
        return false;
    }
    let no_takes: u32 = read_u32(bytes, 16);
    let needed: u64 = TAKE_TABLE_START as u64 + 4 * (no_takes as u64);
    no_takes > TAKE_TABLE_LEN && bytes.len() as u64 >= needed
}

/// Reads the session log held in `bytes`. Fails with `UnexpectedEof` exactly
/// when a word to read lies past the end.
pub fn read_log_file(bytes: &[u8]) -> (res: Result<LogData, LogError>)
    requires
        !take_table_overflows(bytes@),
    ensures
        match res {
            Ok(d) => log_complete(bytes@) && log_data_matches(d, bytes@),
            Err(e) => !log_complete(bytes@) && e == LogError::UnexpectedEof,
        },
        res matches Ok(d) ==> {
            &&& d.sample_rate == bytes@[8] + 256 * bytes@[9] + 65536 * bytes@[10] + 16777216 * bytes@[11]
            &&& d.no_channels == bytes@[4] + 256 * bytes@[5] + 65536 * bytes@[6] + 16777216 * bytes@[7]
            &&& d.total_length == bytes@[24] + 256 * bytes@[25] + 65536 * bytes@[26] + 16777216 * bytes@[27]
            &&& d.take_size@.len() == d.no_takes
            &&& d.take_markers@.len() == d.no_markers
            &&& forall|i: int|
                0 <= i < d.no_takes ==> #[trigger] d.take_size@[i] == bytes@[28 + 4 * i] + 256 * bytes@[29 + 4
                    * i] + 65536 * bytes@[30 + 4 * i] + 16777216 * bytes@[31 + 4 * i]
            &&& forall|i: int|
                0 <= i < d.no_markers ==> #[trigger] d.take_markers@[i] == bytes@[1052 + 4 * i] + 256
                    * bytes@[1053 + 4 * i] + 65536 * bytes@[1054 + 4 * i] + 16777216 * bytes@[1055 + 4 * i]
        },
{
    let len: usize = bytes.len();
    let buffer: [u8; 4] = [0u8; 4];
    let reversed: Vec<u8> = vec![buffer[3], buffer[2], buffer[1], buffer[0]];
    proof {
        assert(reversed@ == seq![0u8, 0u8, 0u8, 0u8]);
    }
    let session_str = hex_encode(reversed.as_slice());
    if len < TAKE_TABLE_START {
        return Err(LogError::UnexpectedEof);
    }
    let session_no: u32 = read_u32(bytes, 0);
    let no_channels: u32 = read_u32(bytes, 4);
    let sample_rate: u32 = read_u32(bytes, 8);
    let date_code: u32 = read_u32(bytes, 12);
    let no_takes: u32 = read_u32(bytes, 16);
    let no_markers: u32 = read_u32(bytes, 20);
    let total_length: u32 = read_u32(bytes, 24);

    let mut take_size: Vec<u32> = Vec::new();
    let mut pos: usize = TAKE_TABLE_START;
    let mut i: u32 = 0;
    while i < no_takes
        invariant
            len == bytes@.len(),
            len >= TAKE_TABLE_START,
            no_takes == header_takes(bytes@),
            no_markers == header_markers(bytes@),
            i <= no_takes,
            pos == TAKE_TABLE_START + 4 * i,
            pos <= len,
            take_size@ == Seq::new(i as nat, |j: int| log_word(bytes@, 7 + j) as u32),
        decreases no_takes - i,
    {
        if len - pos < 4 {
            return Err(LogError::UnexpectedEof);
        }
        let w: u32 = read_u32(bytes, pos);
        take_size.push(w);
        pos = pos + 4;
        i = i + 1;
        proof {
            assert(take_size@ =~= Seq::new(i as nat, |j: int| log_word(bytes@, 7 + j) as u32));
        }
    }
    assert(no_takes <= TAKE_TABLE_LEN);
    if len < MARKERS_START {
        return Err(LogError::UnexpectedEof);
    }

    let mut take_markers: Vec<u32> = Vec::new();
    pos = MARKERS_START;
    i = 0;
    while i < no_markers
        invariant
            len == bytes@.len(),
            len >= MARKERS_START,
            no_takes <= TAKE_TABLE_LEN,
            no_takes == header_takes(bytes@),
            no_markers == header_markers(bytes@),
            i <= no_markers,
            pos == MARKERS_START + 4 * i,
            pos <= len,
            take_markers@ == Seq::new(i as nat, |j: int| log_word(bytes@, 263 + j) as u32),
        decreases no_markers - i,
    {
        if len - pos < 4 {
            return Err(LogError::UnexpectedEof);
        }
        let w: u32 = read_u32(bytes, pos);
        take_markers.push(w);
        pos = pos + 4;
        i = i + 1;
        proof {
            assert(take_markers@ =~= Seq::new(i as nat, |j: int| log_word(bytes@, 263 + j) as u32));
        }
    }

    let data = LogData {
        session_str,
        session_no,
        no_channels,
        sample_rate,
        date_code,
        no_takes,
        no_markers,
        total_length,
        take_size,
        take_markers,
    };
    proof {
        lemma_log_field_bytes(bytes@, data);
    }
    Ok(data)
}

/// The twenty bytes of the session name field for `name`: its first 19
/// bytes, zeros after them, and a terminating zero.
pub open spec fn name_field(name: Seq<u8>) -> Seq<u8> {
    Seq::new(NAME_FIELD_LEN as nat, |i: int| if i < 19 && i < name.len() { name[i] } else { 0u8 })
}

/// The log `log` with its session name field holding `name`.
pub open spec fn with_session_name(log: Seq<u8>, name: Seq<u8>) -> Seq<u8> {
    Seq::new(
        log.len(),
        |i: int|
            if NAME_START <= i < NAME_START + NAME_FIELD_LEN {
                name_field(name)[i - NAME_START]
            } else {
                log[i]
            },
    )
}

/// Naming writes the name's bytes unchanged: byte `NAME_START + i` is the
/// name's byte `i` for the first 19 bytes of the name, the rest of the field
/// up to and with its last byte is zero, and every byte outside the field is
/// what it was.
pub proof fn lemma_session_name_bytes(log: Seq<u8>, name: Seq<u8>)
    requires
        log.len() >= NAME_START + NAME_FIELD_LEN,
    ensures
        with_session_name(log, name).len() == log.len(),
        forall|i: int|
            0 <= i < 19 && i < name.len() ==> #[trigger] with_session_name(log, name)[NAME_START + i]
                == name[i],
        forall|i: int|
            0 <= i < NAME_FIELD_LEN && (i >= 19 || i >= name.len()) ==> #[trigger] with_session_name(
                log,
                name,
            )[NAME_START + i] == 0,
        forall|j: int|
            0 <= j < log.len() && !(NAME_START <= j < NAME_START + NAME_FIELD_LEN) ==> #[trigger] with_session_name(
                log,
                name,
            )[j] == log[j],
{
}

/// Writes `name` into the session name field of the log held in `log`,
/// cut to 19 bytes, padded with zeros and terminated by a zero; every other
/// byte stays.
pub fn name_session(log: &mut Vec<u8>, name: &[u8])
    requires
        old(log)@.len() >= NAME_START + NAME_FIELD_LEN,
    ensures
        final(log)@ == with_session_name(old(log)@, name@),
        final(log)@.len() == old(log)@.len(),
        forall|i: int| 0 <= i < 19 && i < name@.len() ==> #[trigger] final(log)@[NAME_START + i] == name@[i],
        forall|i: int|
            0 <= i < NAME_FIELD_LEN && (i >= 19 || i >= name@.len()) ==> #[trigger] final(log)@[NAME_START
                + i] == 0,
        forall|j: int|
            0 <= j < old(log)@.len() && !(NAME_START <= j < NAME_START + NAME_FIELD_LEN)
                ==> #[trigger] final(log)@[j] == old(log)@[j],
{
    proof {
        lemma_session_name_bytes(old(log)@, name@);
    }
    let name_len: usize = name.len();
    let mut i: usize = 0;
    while i < name_len && i < 19
        invariant
            log@.len() == old(log)@.len(),
            log@.len() >= NAME_START + NAME_FIELD_LEN,
            name_len == name@.len(),
            i <= 19,
            i <= name_len,
            forall|j: int|
                0 <= j < log@.len() ==> #[trigger] log@[j] == (if NAME_START <= j < NAME_START + i {
                    name@[j - NAME_START]
                } else {
                    old(log)@[j]
                }),
        decreases 19 - i,
    {
        log.set(NAME_START + i, name[i]);
        i = i + 1;
    }
    let mut p: usize = name_len;
    let ghost copied = i;
    while p < 19
        invariant
            log@.len() == old(log)@.len(),
            log@.len() >= NAME_START + NAME_FIELD_LEN,
            name_len == name@.len(),
            copied == if name_len < 19 { name_len as int } else { 19 },
            name_len <= p,
            name_len < 19 ==> p <= 19,
            name_len >= 19 ==> p == name_len,
            forall|j: int|
                0 <= j < log@.len() ==> #[trigger] log@[j] == (if NAME_START <= j < NAME_START + copied {
                    name@[j - NAME_START]
                } else if NAME_START + name_len <= j < NAME_START + p {
                    0u8
                } else {
                    old(log)@[j]
                }),
        decreases 19 - p,
    {
        log.set(NAME_START + p, 0);
        p = p + 1;
    }
    log.set(NAME_START + 19, 0);
    proof {
        assert(log@ =~= with_session_name(old(log)@, name@));
    }
}

/// Naming a session leaves what the log reader gives unchanged, where the
/// take table is not overrun (at most 256 takes) and the markers end before
/// the name field (at most 125 markers): the log stays complete or
/// incomplete, and every field read from it stays the same.
pub proof fn lemma_name_keeps_log_data(log: Seq<u8>, name: Seq<u8>, d: LogData)
    requires
        log.len() >= NAME_START + NAME_FIELD_LEN,
        header_takes(log) <= TAKE_TABLE_LEN,
        MARKERS_START + 4 * header_markers(log) <= NAME_START,
    ensures
        log_complete(with_session_name(log, name)) == log_complete(log),
        take_table_overflows(with_session_name(log, name)) == take_table_overflows(log),
        log_data_matches(d, with_session_name(log, name)) == log_data_matches(d, log),
{
    let named = with_session_name(log, name);
    assert(forall|i: int| 0 <= i < NAME_START ==> named[i] == log[i]);
    assert forall|k: int| 0 <= k < 388 implies #[trigger] log_word(named, k) == log_word(log, k) by {
        assert(named[4 * k] == log[4 * k]);
        assert(named[4 * k + 1] == log[4 * k + 1]);
        assert(named[4 * k + 2] == log[4 * k + 2]);
        assert(named[4 * k + 3] == log[4 * k + 3]);
    }
    assert(log_word(named, 4) == log_word(log, 4));
    assert(log_word(named, 5) == log_word(log, 5));
    if log_data_matches(d, log) || log_data_matches(d, named) {
        assert(log_word(named, 0) == log_word(log, 0));
        assert(log_word(named, 1) == log_word(log, 1));
        assert(log_word(named, 2) == log_word(log, 2));
        assert(log_word(named, 3) == log_word(log, 3));
        assert(log_word(named, 6) == log_word(log, 6));
        if d.no_takes == log_word(log, 4) && d.no_takes <= TAKE_TABLE_LEN {
            assert(Seq::new(d.no_takes as nat, |i: int| log_word(named, 7 + i) as u32) =~= Seq::new(
                d.no_takes as nat,
                |i: int| log_word(log, 7 + i) as u32,
            ));
        }
        if d.no_markers == log_word(log, 5) {
            assert(Seq::new(d.no_markers as nat, |i: int| log_word(named, 263 + i) as u32) =~= Seq::new(
                d.no_markers as nat,
                |i: int| log_word(log, 263 + i) as u32,
            ));
        }
    }
}

/// What the session summary reports of a log.
pub struct SessionInfo {
    /// Total audio length in bytes: four per sample.
    pub total_length_bytes: u32,
    /// Total audio time per channel in whole seconds.
    pub total_seconds: u32,
    /// The position of each listed marker in whole seconds.
    pub marker_seconds: Vec<u32>,
}

/// The numbers of the session summary. None where the log announces no
/// channel or a zero sample rate, for which no summary is given; otherwise
/// the total length in bytes and in seconds, and, for each of the first
/// `no_markers` markers present, its position in seconds.
pub fn get_session_info(log_data: &LogData) -> (res: Option<SessionInfo>)
    requires
        log_data.no_channels != 0 && log_data.sample_rate != 0 ==> log_data.total_length * 4 <= u32::MAX,
    ensures
        match res {
            None => log_data.no_channels == 0 || log_data.sample_rate == 0,
            Some(info) => {
                &&& log_data.no_channels != 0 && log_data.sample_rate != 0
                &&& info.total_length_bytes == log_data.total_length * 4
                &&& info.total_seconds == log_data.total_length / log_data.sample_rate
                &&& info.marker_seconds@ == Seq::new(
                    if log_data.take_markers@.len() < log_data.no_markers {
                        log_data.take_markers@.len()
                    } else {
                        log_data.no_markers as nat
                    },
                    |i: int| (log_data.take_markers@[i] / log_data.sample_rate) as u32,
                )
            },
        },
{
    if log_data.no_channels == 0 || log_data.sample_rate == 0 {
        return None;
    }
    let total_length_bytes: u32 = log_data.total_length * 4;
    let total_seconds: u32 = log_data.total_length / log_data.sample_rate;
    let count: usize = if log_data.take_markers.len() < log_data.no_markers as usize {
        log_data.take_markers.len()
    } else {
        log_data.no_markers as usize
    };
    let mut marker_seconds: Vec<u32> = Vec::new();
    let mut i: usize = 0;
    while i < count
        invariant
            count <= log_data.take_markers@.len(),
            count == (if log_data.take_markers@.len() < log_data.no_markers {
                log_data.take_markers@.len()
            } else {
                log_data.no_markers as nat
            }),
            log_data.sample_rate != 0,
            i <= count,
            marker_seconds@ == Seq::new(
                i as nat,
                |j: int| (log_data.take_markers@[j] / log_data.sample_rate) as u32,
            ),
        decreases count - i,
    {
        marker_seconds.push(log_data.take_markers[i] / log_data.sample_rate);
        i = i + 1;
        proof {
            assert(marker_seconds@ =~= Seq::new(
                i as nat,
                |j: int| (log_data.take_markers@[j] / log_data.sample_rate) as u32,
            ));
        }
    }
    Some(SessionInfo { total_length_bytes, total_seconds, marker_seconds })
}

} // verus!
