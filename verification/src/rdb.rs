use crate::db::{
    holds_key, lemma_map_of, lemma_map_of_push, map_of, place_of_key, unique_keys, Store,
    ValueView, DB,
};
use crate::number::{parse_u64, unsigned_of};
use crate::text::{string_from_utf8_lossy, text_of};
use crate::wire::{lemma_agrees_split, push_bytes, stands_at};
use vstd::prelude::*;
use vstd::slice::{slice_subrange, slice_to_vec};
use vstd::utf8::{encode_utf8, encode_utf8_decode_utf8, encode_utf8_valid_utf8};

verus! {

/// Why a snapshot could not be read or written.
#[derive(Debug, PartialEq, Eq, Structural, Clone, Copy)]
pub enum RdbError {
    /// The file does not begin with the magic string.
    InvalidMagic,
    /// A record holds a value of another type than a string.
    UnsupportedValueType,
    /// A length does not fit the encodings of six and fourteen bits.
    UnsupportedLength,
    /// The file ends before its end marker.
    UnexpectedEnd,
}

impl RdbError {
    /// The text that tells of this error.
    pub open spec fn text(self) -> Seq<char> {
        match self {
            RdbError::InvalidMagic => "Invalid rdb file passed"@,
            RdbError::UnsupportedValueType => "Unsupported Value Encoding found"@,
            RdbError::UnsupportedLength => "Unsupported length encoding found"@,
            RdbError::UnexpectedEnd => "Unexpected end of rdb file"@,
        }
    }

    /// The text that tells of this error.
    pub fn message(&self) -> (text: String)
        ensures
            text@ == self.text(),
    {
        match self {
            RdbError::InvalidMagic => "Invalid rdb file passed".to_owned(),
            RdbError::UnsupportedValueType => "Unsupported Value Encoding found".to_owned(),
            RdbError::UnsupportedLength => "Unsupported length encoding found".to_owned(),
            RdbError::UnexpectedEnd => "Unexpected end of rdb file".to_owned(),
        }
    }
}

/// One key with what is stored under it, as a snapshot holds it.
#[derive(Debug)]
pub struct Record {
    pub key: String,
    pub value: Vec<u8>,
    pub expires_at: Option<u32>,
}

/// The mathematical value of a [`Record`].
pub struct RecordView {
    pub key: Seq<char>,
    pub value: Seq<u8>,
    pub expires_at: Option<u32>,
}

impl View for Record {
    type V = RecordView;

    open spec fn view(&self) -> RecordView {
        RecordView { key: self.key@, value: self.value@, expires_at: self.expires_at }
    }
}

/// The values of a sequence of records, one for one.
pub open spec fn record_views(records: Seq<Record>) -> Seq<RecordView> {
    Seq::new(records.len(), |i: int| records[i]@)
}

/// Begins a record of metadata.
pub const AUX: u8 = 0xFA;

/// Begins the hint at the number of entries.
pub const RESIZE_DB: u8 = 0xFB;

/// Begins a record that expires at a second.
pub const EXPIRE_SECONDS: u8 = 0xFD;

/// Begins the number of the database.
pub const SELECT_DB: u8 = 0xFE;

/// Ends the file.
pub const END_OF_FILE: u8 = 0xFF;

/// The largest length that can be written.
pub const MAX_LENGTH: usize = 16383;

/// The bytes with which a snapshot begins: `REDIS` in ASCII.
pub open spec fn magic() -> Seq<u8> {
    seq![0x52u8, 0x45u8, 0x44u8, 0x49u8, 0x53u8]
}

/// The bytes of the version that is written: `0003` in ASCII.
pub open spec fn version() -> Seq<u8> {
    seq![0x30u8, 0x30u8, 0x30u8, 0x33u8]
}

/// The bytes of the one type of value that is supported, the string: `0`
/// in ASCII.
pub open spec fn string_type() -> Seq<u8> {
    seq![0x30u8]
}

/// The length that is encoded at an offset, and the offset behind it. A first
/// byte whose top two bits are 00 holds the length in its other six bits; one
/// whose top two bits are 01 holds its high six bits, and the next byte the
/// low eight.
pub open spec fn length_at(data: Seq<u8>, at: int) -> Result<(nat, int), RdbError> {
    if !(0 <= at < data.len()) {
        Err(RdbError::UnexpectedEnd)
    } else if data[at] < 0x40 {
        Ok((data[at] as nat, at + 1))
    } else if data[at] < 0x80 {
        if at + 1 < data.len() {
            Ok((((data[at] - 0x40) * 256 + data[at + 1]) as nat, at + 2))
        } else {
            Err(RdbError::UnexpectedEnd)
        }
    } else {
        Err(RdbError::UnsupportedLength)
    }
}

/// The string that stands at an offset behind its length, and the offset
/// behind it.
pub open spec fn string_at(data: Seq<u8>, at: int) -> Result<(Seq<u8>, int), RdbError> {
    match length_at(data, at) {
        Ok((length, from)) => if from + length <= data.len() {
            Ok((data.subrange(from, from + length), from + length))
        } else {
            Err(RdbError::UnexpectedEnd)
        },
        Err(e) => Err(e),
    }
}

/// The type, key and value that stand at an offset as three strings, made
/// into a record with a given second of expiry, and the offset behind them.
pub open spec fn triple_at(data: Seq<u8>, at: int, expires_at: Option<u32>) -> Result<
    (RecordView, int),
    RdbError,
> {
    match string_at(data, at) {
        Ok((kind, key_at)) => if kind != string_type() {
            Err(RdbError::UnsupportedValueType)
        } else {
            match string_at(data, key_at) {
                Ok((key, value_at)) => match string_at(data, value_at) {
                    Ok((value, end)) => Ok(
                        (RecordView { key: text_of(key), value, expires_at }, end),
                    ),
                    Err(e) => Err(e),
                },
                Err(e) => Err(e),
            }
        },
        Err(e) => Err(e),
    }
}

/// The offset behind two strings that stand one after the other.
pub open spec fn pair_end(data: Seq<u8>, at: int) -> Result<int, RdbError> {
    match string_at(data, at) {
        Ok((_, second)) => match string_at(data, second) {
            Ok((_, end)) => Ok(end),
            Err(e) => Err(e),
        },
        Err(e) => Err(e),
    }
}

/// The number that four bytes write, the lowest byte first.
pub open spec fn le32(b0: u8, b1: u8, b2: u8, b3: u8) -> u32 {
    (b0 + b1 * 0x100 + b2 * 0x1_0000 + b3 * 0x100_0000) as u32
}

/// The number that four bytes at an offset write, and the offset behind
/// them.
pub open spec fn le32_at(data: Seq<u8>, at: int) -> Result<(u32, int), RdbError> {
    if 0 <= at && at + 4 <= data.len() {
        Ok((le32(data[at], data[at + 1], data[at + 2], data[at + 3]), at + 4))
    } else {
        Err(RdbError::UnexpectedEnd)
    }
}

/// What one section of a snapshot is.
pub enum SectionView {
    /// The end marker.
    End,
    /// Metadata, the number of the database or the hints, with the offset
    /// behind the section.
    Passed(int),
    /// A record, with the offset behind it.
    Holds(RecordView, int),
}

/// The section that begins at an offset. The definition is opened where a
/// single section is read; the proofs about whole files go by what a section
/// was found to be.
#[verifier::opaque]
pub open spec fn section_at(data: Seq<u8>, at: int) -> Result<SectionView, RdbError> {
    if !(0 <= at < data.len()) {
        Err(RdbError::UnexpectedEnd)
    } else if data[at] == END_OF_FILE {
        Ok(SectionView::End)
    } else if data[at] == AUX {
        match pair_end(data, at + 1) {
            Ok(end) => Ok(SectionView::Passed(end)),
            Err(e) => Err(e),
        }
    } else if data[at] == SELECT_DB {
        match string_at(data, at + 1) {
            Ok((_, end)) => Ok(SectionView::Passed(end)),
            Err(e) => Err(e),
        }
    } else if data[at] == RESIZE_DB {
        match length_at(data, at + 1) {
            Ok((_, second)) => match length_at(data, second) {
                Ok((_, end)) => Ok(SectionView::Passed(end)),
                Err(e) => Err(e),
            },
            Err(e) => Err(e),
        }
    } else if data[at] == EXPIRE_SECONDS {
        match le32_at(data, at + 1) {
            Ok((expires_at, from)) => match triple_at(data, from, Some(expires_at)) {
                Ok((record, end)) => Ok(SectionView::Holds(record, end)),
                Err(e) => Err(e),
            },
            Err(e) => Err(e),
        }
    } else {
        match triple_at(data, at, None) {
            Ok((record, end)) => Ok(SectionView::Holds(record, end)),
            Err(e) => Err(e),
        }
    }
}

/// The records that the sections from an offset on hold, up to the end
/// marker. Metadata, the number of the database and the hints are passed
/// over.
pub open spec fn sections_at(data: Seq<u8>, at: int) -> Result<Seq<RecordView>, RdbError>
    decreases data.len() - at,
{
    match section_at(data, at) {
        Ok(SectionView::End) => Ok(Seq::empty()),
        Ok(SectionView::Passed(end)) => if at < end <= data.len() {
            sections_at(data, end)
        } else {
            Err(RdbError::UnexpectedEnd)
        },
        Ok(SectionView::Holds(record, end)) => if at < end <= data.len() {
            match sections_at(data, end) {
                Ok(records) => Ok(seq![record] + records),
                Err(e) => Err(e),
            }
        } else {
            Err(RdbError::UnexpectedEnd)
        },
        Err(e) => Err(e),
    }
}

/// A section ends behind its start and inside the bytes.
pub proof fn lemma_section_bounds(data: Seq<u8>, at: int)
    ensures
        section_at(data, at) matches Ok(SectionView::Passed(end)) ==> at < end <= data.len(),
        section_at(data, at) matches Ok(SectionView::Holds(_, end)) ==> at < end <= data.len(),
{
    reveal(section_at);
}

/// The records that a snapshot holds: behind the magic string and the four
/// bytes of the version, those of its sections.
pub open spec fn decoded(data: Seq<u8>) -> Result<Seq<RecordView>, RdbError> {
    if !(data.len() >= 5 && data.subrange(0, 5) == magic()) {
        Err(RdbError::InvalidMagic)
    } else if data.len() < 9 {
        Err(RdbError::UnexpectedEnd)
    } else {
        sections_at(data, 9)
    }
}

/// The byte at an offset.
pub fn get_next_byte(data: &[u8], at: usize) -> (res: Result<u8, RdbError>)
    ensures
        match res {
            Ok(byte) => at < data@.len() && byte == data@[at as int],
            Err(e) => at >= data@.len() && e == RdbError::UnexpectedEnd,
        },
{
    if at < data.len() {
        Ok(data[at])
    } else {
        Err(RdbError::UnexpectedEnd)
    }
}

/// Reads the length that is encoded at an offset, and gives it with the
/// offset behind it.
pub fn read_integer_encoded(data: &[u8], at: usize) -> (res: Result<(usize, usize), RdbError>)
    ensures
        match res {
            Ok((length, end)) => length_at(data@, at as int) == Ok::<(nat, int), RdbError>(
                (length as nat, end as int),
            ) && at < end <= data@.len() && length <= MAX_LENGTH,
            Err(e) => length_at(data@, at as int) == Err::<(nat, int), RdbError>(e),
        },
{
    let byte = get_next_byte(data, at)?;
    let len = data.len();
    let significant_bits = (byte >> 6) & 0b11;
    if significant_bits == 0b00 {
        let integer = byte & 0b0011_1111;
        assert(((byte >> 6) & 0b11) == 0 ==> byte < 0x40 && (byte & 0b0011_1111) == byte)
            by (bit_vector);
        Ok((integer as usize, at + 1))
    } else if significant_bits == 0b01 {
        let high = byte & 0b0011_1111;
        assert(((byte >> 6) & 0b11) == 1 ==> 0x40 <= byte < 0x80 && (byte & 0b0011_1111) == byte
            - 0x40) by (bit_vector);
        let low = get_next_byte(data, at + 1)?;
        let integer = ((high as usize) << 8) | low as usize;
        assert(high < 0x40 ==> ((high as usize) << 8) | (low as usize) == high as usize * 256
            + low as usize) by (bit_vector);
        Ok((integer, at + 2))
    } else {
        assert(((byte >> 6) & 0b11) != 0 && ((byte >> 6) & 0b11) != 1 ==> byte >= 0x80)
            by (bit_vector);
        Err(RdbError::UnsupportedLength)
    }
}

/// Reads the string that stands at an offset behind its length, and gives
/// its bytes with the offset behind it.
pub fn read_string_encoded<'a>(data: &'a [u8], at: usize) -> (res: Result<
    (&'a [u8], usize),
    RdbError,
>)
    ensures
        match res {
            Ok((bytes, end)) => string_at(data@, at as int) == Ok::<(Seq<u8>, int), RdbError>(
                (bytes@, end as int),
            ) && at < end <= data@.len(),
            Err(e) => string_at(data@, at as int) == Err::<(Seq<u8>, int), RdbError>(e),
        },
{
    let (length, from) = read_integer_encoded(data, at)?;
    if length > data.len() - from {
        return Err(RdbError::UnexpectedEnd);
    }
    Ok((slice_subrange(data, from, from + length), from + length))
}

/// Passes over the key and the value of a record of metadata, and gives the
/// offset behind them.
pub fn get_aux_field_values(data: &[u8], at: usize) -> (res: Result<usize, RdbError>)
    ensures
        match res {
            Ok(end) => pair_end(data@, at as int) == Ok::<int, RdbError>(end as int) && at < end
                <= data@.len(),
            Err(e) => pair_end(data@, at as int) == Err::<int, RdbError>(e),
        },
{
    let (_, value_at) = read_string_encoded(data, at)?;
    let (_, end) = read_string_encoded(data, value_at)?;
    Ok(end)
}

/// Whether bytes are those of the one type of value that is supported.
fn is_string_type(kind: &[u8]) -> (yes: bool)
    ensures
        yes == (kind@ == string_type()),
{
    let yes = kind.len() == 1 && kind[0] == 0x30;
    proof {
        if yes {
            assert(kind@ =~= string_type());
        }
    }
    yes
}

/// Reads the type, the key and the value of a record, which stand at an
/// offset as three strings, and gives the record with the offset behind it.
pub fn read_key_value(data: &[u8], at: usize, expires_at: Option<u32>) -> (res: Result<
    (Record, usize),
    RdbError,
>)
    ensures
        match res {
            Ok((record, end)) => triple_at(data@, at as int, expires_at) == Ok::<
                (RecordView, int),
                RdbError,
            >((record@, end as int)) && at < end <= data@.len(),
            Err(e) => triple_at(data@, at as int, expires_at) == Err::<
                (RecordView, int),
                RdbError,
            >(e),
        },
{
    let (kind, key_at) = read_string_encoded(data, at)?;
    if !is_string_type(kind) {
        return Err(RdbError::UnsupportedValueType);
    }
    let (key, value_at) = read_string_encoded(data, key_at)?;
    let (value, end) = read_string_encoded(data, value_at)?;
    let record = Record {
        key: string_from_utf8_lossy(key),
        value: slice_to_vec(value),
        expires_at,
    };
    Ok((record, end))
}

/// Reads the number that four bytes at an offset write, the lowest byte
/// first, and gives it with the offset behind them.
pub fn read_le32(data: &[u8], at: usize) -> (res: Result<(u32, usize), RdbError>)
    ensures
        match res {
            Ok((n, end)) => le32_at(data@, at as int) == Ok::<(u32, int), RdbError>(
                (n, end as int),
            ) && end == at + 4,
            Err(e) => le32_at(data@, at as int) == Err::<(u32, int), RdbError>(e),
        },
{
    let len = data.len();
    if at > len || len - at < 4 {
        return Err(RdbError::UnexpectedEnd);
    }
    let b0 = data[at] as u32;
    let b1 = data[at + 1] as u32;
    let b2 = data[at + 2] as u32;
    let b3 = data[at + 3] as u32;
    Ok((b0 + b1 * 0x100 + b2 * 0x1_0000 + b3 * 0x100_0000, at + 4))
}

/// A result with some records put in front of those that it holds.
pub open spec fn with_records(
    head: Seq<RecordView>,
    rest: Result<Seq<RecordView>, RdbError>,
) -> Result<Seq<RecordView>, RdbError> {
    match rest {
        Ok(records) => Ok(head + records),
        Err(e) => Err(e),
    }
}

/// Whether a result holds the records, or is the error, that reading gives.
pub open spec fn decodes(
    res: Result<Vec<Record>, RdbError>,
    read: Result<Seq<RecordView>, RdbError>,
) -> bool {
    match res {
        Ok(records) => read == Ok::<Seq<RecordView>, RdbError>(record_views(records@)),
        Err(e) => read == Err::<Seq<RecordView>, RdbError>(e),
    }
}

/// Whether bytes begin with the magic string.
fn has_magic(data: &[u8]) -> (yes: bool)
    ensures
        yes == (data@.len() >= 5 && data@.subrange(0, 5) == magic()),
{
    let yes = data.len() >= 5 && data[0] == 0x52 && data[1] == 0x45 && data[2] == 0x44 && data[3]
        == 0x49 && data[4] == 0x53;
    proof {
        if yes {
            assert(data@.subrange(0, 5) =~= magic());
        } else if data@.len() >= 5 {
            let head = data@.subrange(0, 5);
            assert(head[0] == data@[0] && head[1] == data@[1] && head[2] == data@[2] && head[3]
                == data@[3] && head[4] == data@[4]);
            assert(magic()[0] == 0x52 && magic()[1] == 0x45 && magic()[2] == 0x44 && magic()[3]
                == 0x49 && magic()[4] == 0x53);
        }
    }
    yes
}

/// One section of a snapshot, as it was read.
#[derive(Debug)]
pub enum Section {
    /// The end marker.
    End,
    /// Metadata, the number of the database or the hints, with the offset
    /// behind the section.
    Passed(usize),
    /// A record, with the offset behind it.
    Holds(Record, usize),
}

impl View for Section {
    type V = SectionView;

    open spec fn view(&self) -> SectionView {
        match self {
            Section::End => SectionView::End,
            Section::Passed(end) => SectionView::Passed(*end as int),
            Section::Holds(record, end) => SectionView::Holds(record@, *end as int),
        }
    }
}

/// Reads the section that begins at an offset.
pub fn read_section(data: &[u8], at: usize) -> (res: Result<Section, RdbError>)
    ensures
        match res {
            Ok(section) => section_at(data@, at as int) == Ok::<SectionView, RdbError>(section@),
            Err(e) => section_at(data@, at as int) == Err::<SectionView, RdbError>(e),
        },
{
    proof {
        reveal(section_at);
    }
    let byte = get_next_byte(data, at)?;
    let len = data.len();
    if byte == END_OF_FILE {
        Ok(Section::End)
    } else if byte == AUX {
        let end = get_aux_field_values(data, at + 1)?;
        Ok(Section::Passed(end))
    } else if byte == SELECT_DB {
        let (_, end) = read_string_encoded(data, at + 1)?;
        Ok(Section::Passed(end))
    } else if byte == RESIZE_DB {
        let (_, second) = read_integer_encoded(data, at + 1)?;
        let (_, end) = read_integer_encoded(data, second)?;
        Ok(Section::Passed(end))
    } else if byte == EXPIRE_SECONDS {
        let (expires_at, from) = read_le32(data, at + 1)?;
        let (record, end) = read_key_value(data, from, Some(expires_at))?;
        Ok(Section::Holds(record, end))
    } else {
        let (record, end) = read_key_value(data, at, None)?;
        Ok(Section::Holds(record, end))
    }
}

/// Reads the records that a snapshot holds, in the order of the file.
pub fn decode(data: &[u8]) -> (res: Result<Vec<Record>, RdbError>)
    ensures
        decodes(res, decoded(data@)),
{
    if !has_magic(data) {
        return Err(RdbError::InvalidMagic);
    }
    if data.len() < 9 {
        return Err(RdbError::UnexpectedEnd);
    }
    let mut records: Vec<Record> = Vec::new();
    let mut at: usize = 9;
    proof {
        assert(record_views(records@) + sections_at(data@, 9)->Ok_0 =~= sections_at(
            data@,
            9,
        )->Ok_0);
    }
    loop
        invariant
            9 <= at <= data@.len(),
            decoded(data@) == sections_at(data@, 9),
            sections_at(data@, 9) == with_records(
                record_views(records@),
                sections_at(data@, at as int),
            ),
        decreases data@.len() - at,
    {
        let ghost before = records@;
        proof {
            lemma_section_bounds(data@, at as int);
        }
        match read_section(data, at)? {
            Section::End => {
                proof {
                    assert(record_views(records@) + Seq::<RecordView>::empty()
                        =~= record_views(records@));
                }
                return Ok(records);
            },
            Section::Passed(end) => {
                at = end;
            },
            Section::Holds(record, end) => {
                records.push(record);
                proof {
                    let rest = sections_at(data@, end as int);
                    assert(record_views(records@) =~= record_views(before).push(record@));
                    if rest is Ok {
                        assert(record_views(before) + (seq![record@] + rest->Ok_0)
                            =~= record_views(records@) + rest->Ok_0);
                    }
                }
                at = end;
            },
        }
    }
}

/// The bytes that encode a length: one byte for a length under 64, two for
/// a larger one.
pub open spec fn length_bytes(n: nat) -> Seq<u8> {
    if n < 64 {
        seq![n as u8]
    } else {
        seq![(0x40 + n / 256) as u8, (n % 256) as u8]
    }
}

/// The bytes of a string: its length, and then the string.
pub open spec fn string_bytes(string: Seq<u8>) -> Seq<u8> {
    length_bytes(string.len()) + string
}

/// The four bytes of a number, the lowest byte first.
pub open spec fn le32_bytes(n: u32) -> Seq<u8> {
    seq![
        (n % 0x100) as u8,
        (n / 0x100 % 0x100) as u8,
        (n / 0x1_0000 % 0x100) as u8,
        (n / 0x100_0000) as u8,
    ]
}

/// The bytes of the type, the key and the value of a record, as three
/// strings.
pub open spec fn triple_bytes(key: Seq<char>, value: Seq<u8>) -> Seq<u8> {
    string_bytes(string_type()) + string_bytes(encode_utf8(key)) + string_bytes(value)
}

/// The bytes of the record of an entry.
pub open spec fn record_bytes(entry: (Seq<char>, ValueView)) -> Seq<u8> {
    match entry.1.expires_at {
        Some(at) => seq![EXPIRE_SECONDS] + le32_bytes(at) + triple_bytes(entry.0, entry.1.value),
        None => triple_bytes(entry.0, entry.1.value),
    }
}

/// The bytes of the records of the first entries of a list.
pub open spec fn records_upto(entries: Seq<(Seq<char>, ValueView)>, count: nat) -> Seq<u8>
    decreases count,
{
    if count == 0 || count > entries.len() {
        Seq::empty()
    } else {
        records_upto(entries, (count - 1) as nat) + record_bytes(entries[count - 1])
    }
}

/// The bytes of the name of the metadata that holds the time of writing:
/// `ctime` in ASCII.
pub open spec fn ctime_name() -> Seq<u8> {
    seq![0x63u8, 0x74u8, 0x69u8, 0x6Du8, 0x65u8]
}

/// The bytes with which a snapshot begins, up to its records: the magic
/// string, the version, the time of writing, the number of the database and
/// the hints at the numbers of entries and of rows of the expiry index.
pub open spec fn header_bytes(ctime: Seq<u8>, entries: nat, rows: nat) -> Seq<u8> {
    magic() + version() + seq![AUX] + string_bytes(ctime_name()) + string_bytes(ctime) + seq![
        SELECT_DB,
    ] + string_bytes(string_type()) + seq![RESIZE_DB] + length_bytes(entries) + length_bytes(rows)
}

/// The bytes of a snapshot.
pub open spec fn snapshot_bytes(
    ctime: Seq<u8>,
    entries: Seq<(Seq<char>, ValueView)>,
    rows: nat,
) -> Seq<u8> {
    header_bytes(ctime, entries.len(), rows) + records_upto(entries, entries.len()) + seq![
        END_OF_FILE,
    ]
}

/// Whether an entry can be written: neither its key nor its value is longer
/// than the largest length that can be written.
pub open spec fn entry_fits(entry: (Seq<char>, ValueView)) -> bool {
    encode_utf8(entry.0).len() <= MAX_LENGTH && entry.1.value.len() <= MAX_LENGTH
}

/// Whether a snapshot can be written: no length in it is larger than the
/// largest that can be written.
pub open spec fn snapshot_fits(
    ctime: Seq<u8>,
    entries: Seq<(Seq<char>, ValueView)>,
    rows: nat,
) -> bool {
    &&& ctime.len() <= MAX_LENGTH
    &&& entries.len() <= MAX_LENGTH
    &&& rows <= MAX_LENGTH
    &&& forall|i: int| 0 <= i < entries.len() ==> entry_fits(#[trigger] entries[i])
}

/// Appends a length to a buffer, in the smallest encoding that holds it. A
/// length that no encoding holds is refused, and the buffer stays as it is.
pub fn write_integer_encoded(out: &mut Vec<u8>, input: usize) -> (res: Result<(), RdbError>)
    ensures
        match res {
            Ok(_) => input <= MAX_LENGTH && final(out)@ == old(out)@ + length_bytes(input as nat),
            Err(e) => input > MAX_LENGTH && e == RdbError::UnsupportedLength && final(out)@ == old(
                out,
            )@,
        },
{
    if input < 64 {
        let length = input as u8;
        let bits = 0b0000_0000_u8;
        assert(length < 64 ==> (bits | length) == length) by (bit_vector)
            requires
                bits == 0u8,
        ;
        out.push(bits | length);
        assert(out@ =~= old(out)@ + length_bytes(input as nat));
        Ok(())
    } else if input <= MAX_LENGTH {
        let input = input as u16;
        let byte_one = 0b0100_0000 | ((input >> 8) & 0b0011_1111) as u8;
        let byte_two = #[verifier::truncate]
        (input as u8);
        assert(input <= 16383 ==> (0b0100_0000u8 | ((input >> 8) & 0b0011_1111) as u8) as u16
            == 0x40 + input / 256 && (input as u8) as u16 == input % 256) by (bit_vector);
        out.push(byte_one);
        out.push(byte_two);
        assert(out@ =~= old(out)@ + length_bytes(input as nat));
        Ok(())
    } else {
        Err(RdbError::UnsupportedLength)
    }
}

/// Appends a string to a buffer: its length, and then the string. A string
/// whose length cannot be written is refused, and the buffer stays as it is.
pub fn write_string_encoded(out: &mut Vec<u8>, input: &[u8]) -> (res: Result<(), RdbError>)
    ensures
        match res {
            Ok(_) => input@.len() <= MAX_LENGTH && final(out)@ == old(out)@ + string_bytes(input@),
            Err(e) => input@.len() > MAX_LENGTH && e == RdbError::UnsupportedLength && final(out)@
                == old(out)@,
        },
{
    write_integer_encoded(out, input.len())?;
    push_bytes(out, input);
    assert(out@ =~= old(out)@ + string_bytes(input@));
    Ok(())
}

/// Appends the number that four bytes write, the lowest byte first.
pub fn write_le32(out: &mut Vec<u8>, n: u32)
    ensures
        final(out)@ == old(out)@ + le32_bytes(n),
{
    out.push((n % 0x100) as u8);
    out.push((n / 0x100 % 0x100) as u8);
    out.push((n / 0x1_0000 % 0x100) as u8);
    out.push((n / 0x100_0000) as u8);
    assert(out@ =~= old(out)@ + le32_bytes(n));
}

/// Appends the record of a key that does not expire: the type, the key and
/// the value. A key or a value whose length cannot be written is refused,
/// and the buffer stays as it is.
pub fn write_key_value_no_ttl(out: &mut Vec<u8>, key: &str, value: &[u8]) -> (res: Result<
    (),
    RdbError,
>)
    ensures
        match res {
            Ok(_) => entry_fits((key@, ValueView { value: value@, expires_at: None }))
                && final(out)@ == old(out)@ + triple_bytes(key@, value@),
            Err(e) => !entry_fits((key@, ValueView { value: value@, expires_at: None })) && e
                == RdbError::UnsupportedLength && final(out)@ == old(out)@,
        },
{
    let name = key.as_bytes();
    if name.len() > MAX_LENGTH || value.len() > MAX_LENGTH {
        return Err(RdbError::UnsupportedLength);
    }
    let kind: Vec<u8> = vec![0x30u8];
    assert(kind@ =~= string_type());
    write_string_encoded(out, kind.as_slice())?;
    write_string_encoded(out, name)?;
    write_string_encoded(out, value)?;
    assert(out@ =~= old(out)@ + triple_bytes(key@, value@));
    Ok(())
}

/// Appends the record of a key that expires at a second: the marker, the
/// second, and then the type, the key and the value. A key or a value whose
/// length cannot be written is refused, and the buffer stays as it is.
pub fn write_key_value_ttl_sec(out: &mut Vec<u8>, key: &str, value: &[u8], ttl: u32) -> (res:
    Result<(), RdbError>)
    ensures
        match res {
            Ok(_) => entry_fits((key@, ValueView { value: value@, expires_at: Some(ttl) }))
                && final(out)@ == old(out)@ + record_bytes(
                (key@, ValueView { value: value@, expires_at: Some(ttl) }),
            ),
            Err(e) => !entry_fits((key@, ValueView { value: value@, expires_at: Some(ttl) })) && e
                == RdbError::UnsupportedLength && final(out)@ == old(out)@,
        },
{
    if key.as_bytes().len() > MAX_LENGTH || value.len() > MAX_LENGTH {
        return Err(RdbError::UnsupportedLength);
    }
    out.push(EXPIRE_SECONDS);
    write_le32(out, ttl);
    write_key_value_no_ttl(out, key, value)?;
    assert(out@ =~= old(out)@ + record_bytes(
        (key@, ValueView { value: value@, expires_at: Some(ttl) }),
    ));
    Ok(())
}

/// Writes the snapshot of a store, with the time of writing as text. A
/// snapshot in which a length cannot be written is refused.
pub fn encode(store: &Store, ctime: &str) -> (res: Result<Vec<u8>, RdbError>)
    ensures
        match res {
            Ok(bytes) => snapshot_fits(
                encode_utf8(ctime@),
                store.entry_seq(),
                store.ttl_seq().len(),
            ) && bytes@ == snapshot_bytes(
                encode_utf8(ctime@),
                store.entry_seq(),
                store.ttl_seq().len(),
            ),
            Err(e) => e == RdbError::UnsupportedLength && !snapshot_fits(
                encode_utf8(ctime@),
                store.entry_seq(),
                store.ttl_seq().len(),
            ),
        },
{
    let mut out: Vec<u8> = Vec::new();
    let ghost entries = store.entry_seq();
    let ghost rows = store.ttl_seq().len();
    // Magic string
    out.push(0x52);
    out.push(0x45);
    out.push(0x44);
    out.push(0x49);
    out.push(0x53);
    // Version, as four bytes
    out.push(0x30);
    out.push(0x30);
    out.push(0x30);
    out.push(0x33);
    assert(out@ =~= magic() + version());
    // Metadata: the time of writing
    out.push(AUX);
    let name: Vec<u8> = vec![0x63u8, 0x74u8, 0x69u8, 0x6Du8, 0x65u8];
    assert(name@ =~= ctime_name());
    write_string_encoded(&mut out, name.as_slice())?;
    write_string_encoded(&mut out, ctime.as_bytes())?;
    // The number of the database
    out.push(SELECT_DB);
    let number: Vec<u8> = vec![0x30u8];
    assert(number@ =~= string_type());
    write_string_encoded(&mut out, number.as_slice())?;
    out.push(RESIZE_DB);
    // The numbers of entries and of rows of the expiry index
    write_integer_encoded(&mut out, store.len())?;
    write_integer_encoded(&mut out, store.ttl_len())?;
    assert(out@ =~= header_bytes(encode_utf8(ctime@), entries.len(), rows));
    let ghost header = out@;
    let count = store.len();
    let mut done: usize = 0;
    while done < count
        invariant
            done <= count == entries.len(),
            entries == store.entry_seq(),
            out@ == header + records_upto(entries, done as nat),
            forall|i: int| 0 <= i < done ==> entry_fits(#[trigger] entries[i]),
        decreases count - done,
    {
        if let Some((key, value)) = store.entry_at(done) {
            match value.expires_at {
                Some(ttl) => {
                    write_key_value_ttl_sec(&mut out, key.as_str(), value.value.as_slice(), ttl)?;
                },
                None => {
                    write_key_value_no_ttl(&mut out, key.as_str(), value.value.as_slice())?;
                },
            }
        }
        done += 1;
        assert(out@ =~= header + records_upto(entries, done as nat));
    }
    // End of file
    out.push(END_OF_FILE);
    assert(out@ =~= snapshot_bytes(encode_utf8(ctime@), entries, rows));
    Ok(out)
}

/// Writes the snapshots of a database, and reads them back into it. Every
/// method that changes the database says what it holds afterwards, and that
/// the engine still works on the database that it was made for.
pub struct RDB<'a> {
    pub db: &'a mut DB,
}

impl<'a> RDB<'a> {
    /// A snapshot engine that works on a database.
    pub fn new(db: &'a mut DB) -> (rdb: RDB<'a>)
        ensures
            *rdb.db == *old(db),
            *final(db) == *final(rdb.db),
    {
        RDB { db }
    }

    /// Writes the snapshot of the database, with a given time of writing.
    pub fn save_at(&self, ctime: &str) -> (res: Result<Vec<u8>, RdbError>)
        ensures
            match res {
                Ok(bytes) => snapshot_fits(
                    encode_utf8(ctime@),
                    old(self.db).entry_seq(),
                    old(self.db).ttl_seq().len(),
                ) && bytes@ == snapshot_bytes(
                    encode_utf8(ctime@),
                    old(self.db).entry_seq(),
                    old(self.db).ttl_seq().len(),
                ),
                Err(e) => e == RdbError::UnsupportedLength && !snapshot_fits(
                    encode_utf8(ctime@),
                    old(self.db).entry_seq(),
                    old(self.db).ttl_seq().len(),
                ),
            },
    {
        encode(self.db.store(), ctime)
    }

    /// Writes the snapshot of the database, with some reading of the system
    /// clock as the time of writing. Whether the snapshot is written lies
    /// with the database alone: a text of the clock that is too long to be
    /// written is left out.
    pub fn save(&self) -> (res: Result<Vec<u8>, RdbError>)
        ensures
            res is Ok <==> snapshot_fits(
                Seq::empty(),
                old(self.db).entry_seq(),
                old(self.db).ttl_seq().len(),
            ),
            match res {
                Ok(bytes) => exists|ctime: Seq<u8>|
                    bytes@ == #[trigger] snapshot_bytes(
                        ctime,
                        old(self.db).entry_seq(),
                        old(self.db).ttl_seq().len(),
                    ) && snapshot_fits(
                        ctime,
                        old(self.db).entry_seq(),
                        old(self.db).ttl_seq().len(),
                    ),
                Err(e) => e == RdbError::UnsupportedLength,
            },
    {
        let ctime = crate::clock::utc_text();
        if ctime.as_str().as_bytes().len() > MAX_LENGTH {
            proof {
                reveal_strlit("");
                assert(encode_utf8(""@) =~= Seq::<u8>::empty());
            }
            self.save_at("")
        } else {
            self.save_at(ctime.as_str())
        }
    }

    /// Reads a snapshot into the database, at some reading of the system
    /// clock. Records that expired before it are dropped.
    pub fn load(&mut self, data: &[u8]) -> (res: Result<(), RdbError>)
        ensures
            *final(final(self).db) == *final(old(self).db),
            match res {
                Ok(_) => decoded(data@) matches Ok(records) && exists|now: u32|
                    final(self).db@ == #[trigger] loaded(old(self).db@, records, now),
                Err(e) => decoded(data@) == Err::<Seq<RecordView>, RdbError>(e) && final(self).db@
                    == old(self).db@,
            },
    {
        let now = crate::clock::now();
        self.load_at(data, now)
    }

    /// Reads a snapshot into the database, at a given second. Records that
    /// expired before that second are dropped; the others are stored, each
    /// with its second of expiry, over what the database holds. A snapshot
    /// that cannot be read leaves the database as it is.
    pub fn load_at(&mut self, data: &[u8], now: u32) -> (res: Result<(), RdbError>)
        ensures
            *final(final(self).db) == *final(old(self).db),
            match res {
                Ok(_) => decoded(data@) matches Ok(records) && final(self).db@ == loaded(
                    old(self).db@,
                    records,
                    now,
                ),
                Err(e) => decoded(data@) == Err::<Seq<RecordView>, RdbError>(e) && final(self).db@
                    == old(self).db@,
            },
    {
        let records = decode(data)?;
        let ghost all = record_views(records@);
        let mut done: usize = 0;
        while done < records.len()
            invariant
                done <= records.len(),
                all == record_views(records@),
                self.db@ == loaded_upto(old(self).db@, all, now, done as nat),
                *final(self.db) == *final(old(self).db),
            decreases records.len() - done,
        {
            let record = &records[done];
            assert(all[done as int] == record@);
            let key = record.key.clone();
            let value = slice_to_vec(record.value.as_slice());
            match record.expires_at {
                Some(at) => {
                    if at >= now {
                        self.db.set_at(key, value, Some(at - now), now);
                    }
                },
                None => {
                    self.db.set_at(key, value, None, now);
                },
            }
            done += 1;
        }
        Ok(())
    }
}

/// Whether a record is kept when it is read at a second: it does not expire,
/// or not before that second.
pub open spec fn kept(expires_at: Option<u32>, now: u32) -> bool {
    !(expires_at matches Some(at) && at < now)
}

/// The entries after the first records of a sequence were read into them at
/// a second.
pub open spec fn loaded_upto(
    entries: Map<Seq<char>, ValueView>,
    records: Seq<RecordView>,
    now: u32,
    count: nat,
) -> Map<Seq<char>, ValueView>
    decreases count,
{
    if count == 0 || count > records.len() {
        entries
    } else {
        let before = loaded_upto(entries, records, now, (count - 1) as nat);
        let record = records[count - 1];
        if kept(record.expires_at, now) {
            before.insert(
                record.key,
                ValueView { value: record.value, expires_at: record.expires_at },
            )
        } else {
            before
        }
    }
}

/// The entries after records were read into them at a second.
pub open spec fn loaded(
    entries: Map<Seq<char>, ValueView>,
    records: Seq<RecordView>,
    now: u32,
) -> Map<Seq<char>, ValueView> {
    loaded_upto(entries, records, now, records.len())
}

/// The record that the snapshot holds of an entry.
pub open spec fn record_of(entry: (Seq<char>, ValueView)) -> RecordView {
    RecordView { key: entry.0, value: entry.1.value, expires_at: entry.1.expires_at }
}

/// The records that the snapshot holds of a list of entries, one for one.
pub open spec fn records_of(entries: Seq<(Seq<char>, ValueView)>) -> Seq<RecordView> {
    Seq::new(entries.len(), |i: int| record_of(entries[i]))
}

/// The bytes of the records of the entries of a list from a place on.
pub open spec fn records_from(entries: Seq<(Seq<char>, ValueView)>, from: nat) -> Seq<u8>
    decreases entries.len() - from,
{
    if from >= entries.len() {
        Seq::empty()
    } else {
        record_bytes(entries[from as int]) + records_from(entries, from + 1)
    }
}

/// The entries of a mapping that are kept when they are read at a second.
pub open spec fn kept_entries(entries: Map<Seq<char>, ValueView>, now: u32) -> Map<
    Seq<char>,
    ValueView,
> {
    Map::new(
        |key: Seq<char>| entries.dom().contains(key) && kept(entries[key].expires_at, now),
        |key: Seq<char>| entries[key],
    )
}

/// The records before a place and those from it on make up all of them.
proof fn lemma_records_split(entries: Seq<(Seq<char>, ValueView)>, count: nat)
    requires
        count <= entries.len(),
    ensures
        records_upto(entries, count) + records_from(entries, count) == records_from(entries, 0),
    decreases count,
{
    if count > 0 {
        lemma_records_split(entries, (count - 1) as nat);
        assert(records_upto(entries, count) + records_from(entries, count) =~= records_upto(
            entries,
            (count - 1) as nat,
        ) + records_from(entries, (count - 1) as nat));
    } else {
        assert(records_upto(entries, 0) + records_from(entries, 0) =~= records_from(entries, 0));
    }
}

/// Bytes in which two sequences stand in a row hold each of them.
proof fn lemma_stands_split(data: Seq<u8>, at: int, first: Seq<u8>, second: Seq<u8>)
    requires
        stands_at(data, at, first + second),
    ensures
        stands_at(data, at, first),
        stands_at(data, at + first.len(), second),
{
    lemma_agrees_split(data, at, first, second, (first + second).len() as int);
}

/// A length that was written is read back.
proof fn lemma_length_found(data: Seq<u8>, at: int, n: nat)
    requires
        n <= MAX_LENGTH,
        stands_at(data, at, length_bytes(n)),
    ensures
        length_at(data, at) == Ok::<(nat, int), RdbError>((n, at + length_bytes(n).len())),
{
    let bytes = length_bytes(n);
    assert(data[at] == bytes[0]);
    if n >= 64 {
        assert(data[at + 1] == bytes[1]);
        assert(0x40 <= 0x40 + n / 256 < 0x80);
        assert((0x40 + n / 256 - 0x40) * 256 + n % 256 == n);
    }
}

/// A string that was written is read back.
proof fn lemma_string_found(data: Seq<u8>, at: int, string: Seq<u8>)
    requires
        string.len() <= MAX_LENGTH,
        stands_at(data, at, string_bytes(string)),
    ensures
        string_at(data, at) == Ok::<(Seq<u8>, int), RdbError>(
            (string, at + string_bytes(string).len()),
        ),
{
    let prefix = length_bytes(string.len());
    lemma_stands_split(data, at, prefix, string);
    lemma_length_found(data, at, string.len());
    assert(data.subrange(at + prefix.len(), at + prefix.len() + string.len()) =~= string);
}

/// The type, the key and the value of an entry that were written are read
/// back.
proof fn lemma_triple_found(
    data: Seq<u8>,
    at: int,
    entry: (Seq<char>, ValueView),
    expires_at: Option<u32>,
)
    requires
        entry_fits(entry),
        stands_at(data, at, triple_bytes(entry.0, entry.1.value)),
    ensures
        triple_at(data, at, expires_at) == Ok::<(RecordView, int), RdbError>(
            (
                RecordView { key: entry.0, value: entry.1.value, expires_at },
                at + triple_bytes(entry.0, entry.1.value).len(),
            ),
        ),
{
    let kind = string_bytes(string_type());
    let key = string_bytes(encode_utf8(entry.0));
    let value = string_bytes(entry.1.value);
    lemma_stands_split(data, at, kind + key, value);
    lemma_stands_split(data, at, kind, key);
    lemma_string_found(data, at, string_type());
    lemma_string_found(data, at + kind.len(), encode_utf8(entry.0));
    lemma_string_found(data, at + kind.len() + key.len(), entry.1.value);
    encode_utf8_valid_utf8(entry.0);
    encode_utf8_decode_utf8(entry.0);
}

/// The four bytes of a number write that number.
proof fn lemma_le32(n: u32)
    ensures
        le32(le32_bytes(n)[0], le32_bytes(n)[1], le32_bytes(n)[2], le32_bytes(n)[3]) == n,
{
}

/// The record of an entry that was written is read back as a section.
proof fn lemma_record_found(data: Seq<u8>, at: int, entry: (Seq<char>, ValueView))
    requires
        entry_fits(entry),
        stands_at(data, at, record_bytes(entry)),
    ensures
        section_at(data, at) == Ok::<SectionView, RdbError>(
            SectionView::Holds(record_of(entry), at + record_bytes(entry).len()),
        ),
{
    reveal(section_at);
    let triple = triple_bytes(entry.0, entry.1.value);
    match entry.1.expires_at {
        Some(second) => {
            let stamp = le32_bytes(second);
            lemma_stands_split(data, at, seq![EXPIRE_SECONDS] + stamp, triple);
            lemma_stands_split(data, at, seq![EXPIRE_SECONDS], stamp);
            assert(data[at] == seq![EXPIRE_SECONDS][0]);
            assert(data[at + 1] == stamp[0] && data[at + 2] == stamp[1] && data[at + 3] == stamp[2]
                && data[at + 4] == stamp[3]);
            lemma_le32(second);
            lemma_triple_found(data, at + 5, entry, Some(second));
        },
        None => {
            assert(triple =~= string_bytes(string_type()) + (string_bytes(encode_utf8(entry.0))
                + string_bytes(entry.1.value)));
            lemma_stands_split(
                data,
                at,
                string_bytes(string_type()),
                string_bytes(encode_utf8(entry.0)) + string_bytes(entry.1.value),
            );
            assert(data[at] == string_bytes(string_type())[0]);
            assert(string_bytes(string_type())[0] == 1);
            lemma_triple_found(data, at, entry, None);
        },
    }
}

/// The records of the entries from a place on, written before the end
/// marker, are read back.
proof fn lemma_records_found(
    data: Seq<u8>,
    at: int,
    entries: Seq<(Seq<char>, ValueView)>,
    from: nat,
)
    requires
        from <= entries.len(),
        forall|i: int| 0 <= i < entries.len() ==> entry_fits(#[trigger] entries[i]),
        stands_at(data, at, records_from(entries, from) + seq![END_OF_FILE]),
    ensures
        sections_at(data, at) == Ok::<Seq<RecordView>, RdbError>(
            records_of(entries).skip(from as int),
        ),
    decreases entries.len() - from,
{
    if from == entries.len() {
        lemma_stands_split(data, at, records_from(entries, from), seq![END_OF_FILE]);
        assert(data[at] == seq![END_OF_FILE][0]);
        assert(section_at(data, at) == Ok::<SectionView, RdbError>(SectionView::End)) by {
            reveal(section_at);
        }
        assert(records_of(entries).skip(from as int) =~= Seq::<RecordView>::empty());
    } else {
        let first = record_bytes(entries[from as int]);
        let rest = records_from(entries, from + 1) + seq![END_OF_FILE];
        assert(records_from(entries, from) + seq![END_OF_FILE] =~= first + rest);
        lemma_stands_split(data, at, first, rest);
        lemma_record_found(data, at, entries[from as int]);
        lemma_section_bounds(data, at);
        lemma_records_found(data, at + first.len(), entries, from + 1);
        assert(seq![record_of(entries[from as int])] + records_of(entries).skip(from as int + 1)
            =~= records_of(entries).skip(from as int));
    }
}

/// Whether the whole of an expected sequence stands in bytes at an offset.
/// This says what `stands_at` says, and is opened only where single bytes
/// are looked at: the proofs about whole files take it as one fact.
#[verifier::opaque]
pub open spec fn written_at(data: Seq<u8>, at: int, expected: Seq<u8>) -> bool {
    stands_at(data, at, expected)
}

/// Bytes in which two sequences are written in a row hold each of them.
proof fn lemma_written_split(data: Seq<u8>, at: int, first: Seq<u8>, second: Seq<u8>)
    requires
        written_at(data, at, first + second),
    ensures
        written_at(data, at, first),
        written_at(data, at + first.len(), second),
{
    reveal(written_at);
    lemma_stands_split(data, at, first, second);
}

/// A record of metadata that was written is passed over.
proof fn lemma_aux_found(data: Seq<u8>, at: int, name: Seq<u8>, value: Seq<u8>)
    requires
        name.len() <= MAX_LENGTH,
        value.len() <= MAX_LENGTH,
        written_at(data, at, seq![AUX] + string_bytes(name) + string_bytes(value)),
    ensures
        section_at(data, at) == Ok::<SectionView, RdbError>(
            SectionView::Passed(at + 1 + string_bytes(name).len() + string_bytes(value).len()),
        ),
{
    reveal(written_at);
    reveal(section_at);
    lemma_stands_split(data, at, seq![AUX] + string_bytes(name), string_bytes(value));
    lemma_stands_split(data, at, seq![AUX], string_bytes(name));
    assert(data[at] == seq![AUX][0]);
    lemma_string_found(data, at + 1, name);
    lemma_string_found(data, at + 1 + string_bytes(name).len(), value);
}

/// The number of the database that was written is passed over.
proof fn lemma_select_found(data: Seq<u8>, at: int)
    requires
        written_at(data, at, seq![SELECT_DB] + string_bytes(string_type())),
    ensures
        section_at(data, at) == Ok::<SectionView, RdbError>(
            SectionView::Passed(at + 1 + string_bytes(string_type()).len()),
        ),
{
    reveal(written_at);
    reveal(section_at);
    lemma_stands_split(data, at, seq![SELECT_DB], string_bytes(string_type()));
    assert(data[at] == seq![SELECT_DB][0]);
    lemma_string_found(data, at + 1, string_type());
}

/// The hints that were written are passed over.
proof fn lemma_resize_found(data: Seq<u8>, at: int, entries: nat, rows: nat)
    requires
        entries <= MAX_LENGTH,
        rows <= MAX_LENGTH,
        written_at(data, at, seq![RESIZE_DB] + length_bytes(entries) + length_bytes(rows)),
    ensures
        section_at(data, at) == Ok::<SectionView, RdbError>(
            SectionView::Passed(at + 1 + length_bytes(entries).len() + length_bytes(rows).len()),
        ),
{
    reveal(written_at);
    reveal(section_at);
    lemma_stands_split(data, at, seq![RESIZE_DB] + length_bytes(entries), length_bytes(rows));
    lemma_stands_split(data, at, seq![RESIZE_DB], length_bytes(entries));
    assert(data[at] == seq![RESIZE_DB][0]);
    lemma_length_found(data, at + 1, entries);
    lemma_length_found(data, at + 1 + length_bytes(entries).len(), rows);
}

/// The records of all entries, written before the end marker, are read back.
proof fn lemma_all_records_found(data: Seq<u8>, at: int, entries: Seq<(Seq<char>, ValueView)>)
    requires
        forall|i: int| 0 <= i < entries.len() ==> entry_fits(#[trigger] entries[i]),
        written_at(data, at, records_from(entries, 0) + seq![END_OF_FILE]),
    ensures
        sections_at(data, at) == Ok::<Seq<RecordView>, RdbError>(records_of(entries)),
{
    reveal(written_at);
    lemma_records_found(data, at, entries, 0);
    assert(records_of(entries).skip(0) =~= records_of(entries));
}

/// Where a section is passed over, the records from it on are those behind
/// it.
proof fn lemma_section_passed(data: Seq<u8>, at: int, end: int)
    requires
        section_at(data, at) == Ok::<SectionView, RdbError>(SectionView::Passed(end)),
    ensures
        sections_at(data, at) == sections_at(data, end),
{
    lemma_section_bounds(data, at);
}

/// The metadata, the number of the database and the hints, as they are
/// written one after the other.
pub open spec fn preamble_bytes(ctime: Seq<u8>, entries: nat, rows: nat) -> Seq<u8> {
    (seq![AUX] + string_bytes(ctime_name()) + string_bytes(ctime)) + ((seq![SELECT_DB]
        + string_bytes(string_type())) + (seq![RESIZE_DB] + length_bytes(entries) + length_bytes(
        rows,
    )))
}

/// The sections that are written behind the version are read back as the
/// records of the entries.
proof fn lemma_sections_found(
    data: Seq<u8>,
    at: int,
    ctime: Seq<u8>,
    entries: Seq<(Seq<char>, ValueView)>,
    rows: nat,
)
    requires
        snapshot_fits(ctime, entries, rows),
        written_at(
            data,
            at,
            preamble_bytes(ctime, entries.len(), rows) + (records_from(entries, 0) + seq![
                END_OF_FILE,
            ]),
        ),
    ensures
        sections_at(data, at) == Ok::<Seq<RecordView>, RdbError>(records_of(entries)),
{
    let aux = seq![AUX] + string_bytes(ctime_name()) + string_bytes(ctime);
    let select = seq![SELECT_DB] + string_bytes(string_type());
    let resize = seq![RESIZE_DB] + length_bytes(entries.len()) + length_bytes(rows);
    let body = records_from(entries, 0) + seq![END_OF_FILE];
    lemma_written_split(data, at, aux + (select + resize), body);
    lemma_written_split(data, at, aux, select + resize);
    lemma_aux_found(data, at, ctime_name(), ctime);
    let after_aux: int = at + aux.len();
    lemma_written_split(data, after_aux, select, resize);
    lemma_select_found(data, after_aux);
    let after_select: int = after_aux + select.len();
    lemma_resize_found(data, after_select, entries.len(), rows);
    let after_resize: int = after_select + resize.len();
    lemma_all_records_found(data, after_resize, entries);
    lemma_section_passed(data, at, after_aux);
    lemma_section_passed(data, after_aux, after_select);
    lemma_section_passed(data, after_select, after_resize);
}

/// A snapshot is its magic string and version, and then its sections.
proof fn lemma_snapshot_parts(ctime: Seq<u8>, entries: Seq<(Seq<char>, ValueView)>, rows: nat)
    ensures
        snapshot_bytes(ctime, entries, rows) == (magic() + version()) + (preamble_bytes(
            ctime,
            entries.len(),
            rows,
        ) + (records_from(entries, 0) + seq![END_OF_FILE])),
{
    lemma_records_split(entries, entries.len());
    assert(records_from(entries, entries.len()) =~= Seq::<u8>::empty());
    assert(records_upto(entries, entries.len()) =~= records_from(entries, 0));
    assert(snapshot_bytes(ctime, entries, rows) =~= (magic() + version()) + (preamble_bytes(
        ctime,
        entries.len(),
        rows,
    ) + (records_from(entries, 0) + seq![END_OF_FILE])));
}

/// A snapshot that was written is read back as the records of its entries.
pub proof fn lemma_snapshot_decoded(
    ctime: Seq<u8>,
    entries: Seq<(Seq<char>, ValueView)>,
    rows: nat,
)
    requires
        snapshot_fits(ctime, entries, rows),
    ensures
        decoded(snapshot_bytes(ctime, entries, rows)) == Ok::<Seq<RecordView>, RdbError>(
            records_of(entries),
        ),
{
    let data = snapshot_bytes(ctime, entries, rows);
    let head = magic() + version();
    let sections = preamble_bytes(ctime, entries.len(), rows) + (records_from(entries, 0) + seq![
        END_OF_FILE,
    ]);
    lemma_snapshot_parts(ctime, entries, rows);
    assert(written_at(data, 0, head + sections)) by {
        reveal(written_at);
    }
    lemma_written_split(data, 0, head, sections);
    assert(data.subrange(0, 5) =~= magic()) by {
        assert(data.len() >= 9);
        assert forall|i: int| 0 <= i < 5 implies data[i] == magic()[i] by {
            assert(head[i] == magic()[i]);
            assert(data[i] == head[i]);
        }
    }
    lemma_sections_found(data, 9, ctime, entries, rows);
}

/// Reading the records of the first entries of a list, none of whose keys is
/// repeated, into an empty database gives those of the entries that are
/// kept.
proof fn lemma_loaded_entries(entries: Seq<(Seq<char>, ValueView)>, now: u32, count: nat)
    requires
        unique_keys(entries),
        count <= entries.len(),
    ensures
        loaded_upto(Map::empty(), records_of(entries), now, count) == kept_entries(
            map_of(entries.take(count as int)),
            now,
        ),
    decreases count,
{
    let first = entries.take(count as int);
    if count == 0 {
        assert(kept_entries(map_of(first), now) =~= Map::<Seq<char>, ValueView>::empty());
    } else {
        let fewer = entries.take(count - 1);
        let last = entries[count - 1];
        lemma_loaded_entries(entries, now, (count - 1) as nat);
        assert(first =~= fewer.push(last));
        assert(unique_keys(fewer)) by {
            assert forall|i: int, j: int| 0 <= i < j < fewer.len() implies (#[trigger] fewer[i]).0
                != (#[trigger] fewer[j]).0 by {
                assert(fewer[i] == entries[i] && fewer[j] == entries[j]);
            }
        }
        assert(!holds_key(fewer, last.0)) by {
            if holds_key(fewer, last.0) {
                let i = place_of_key(fewer, last.0);
                assert(fewer[i] == entries[i]);
            }
        }
        lemma_map_of_push(fewer, last.0, last.1);
        lemma_map_of(fewer);
        assert(last == (last.0, last.1));
        let before = kept_entries(map_of(fewer), now);
        if kept(last.1.expires_at, now) {
            assert(kept_entries(map_of(first), now) =~= before.insert(last.0, last.1));
        } else {
            assert(kept_entries(map_of(first), now) =~= before);
        }
    }
}

/// Reading back the snapshot of a store gives the store, but for the entries
/// that expired before the second of reading.
pub proof fn load_inverts_save(store: Store, ctime: Seq<u8>, now: u32)
    requires
        store.wf(),
        snapshot_fits(ctime, store.entry_seq(), store.ttl_seq().len()),
    ensures
        decoded(snapshot_bytes(ctime, store.entry_seq(), store.ttl_seq().len())) matches Ok(
            records,
        ) && loaded(Map::empty(), records, now) == kept_entries(store@, now),
{
    let entries = store.entry_seq();
    lemma_snapshot_decoded(ctime, entries, store.ttl_seq().len());
    lemma_loaded_entries(entries, now, entries.len());
    assert(entries.take(entries.len() as int) =~= entries);
}

/// The seconds between two snapshots where none are configured.
pub const DEFAULT_FLUSH_SECONDS: u64 = 60;

/// The most seconds between two snapshots that a timer can wait.
pub const MAX_FLUSH_SECONDS: u64 = 68719476734;

/// The seconds between two snapshots that go with a configured number: the
/// number itself, but no more than a timer can wait, and the default where
/// no number was read.
pub open spec fn flush_seconds(parsed: Option<u64>) -> u64 {
    match parsed {
        Some(seconds) => if seconds > MAX_FLUSH_SECONDS {
            MAX_FLUSH_SECONDS
        } else {
            seconds
        },
        None => DEFAULT_FLUSH_SECONDS,
    }
}

/// The seconds between two snapshots that go with a configured number.
pub fn clamp_flush_seconds(parsed: Option<u64>) -> (seconds: u64)
    ensures
        seconds == flush_seconds(parsed),
{
    match parsed {
        Some(seconds) => if seconds > MAX_FLUSH_SECONDS {
            MAX_FLUSH_SECONDS
        } else {
            seconds
        },
        None => DEFAULT_FLUSH_SECONDS,
    }
}

/// How the seconds between two snapshots came about.
#[derive(Debug, PartialEq, Eq, Structural, Clone, Copy)]
pub enum FlushNote {
    /// Nothing is configured: the default holds.
    Unset,
    /// What is configured writes no number: the default holds.
    Invalid,
    /// The configured number is more than a timer can wait: the most that
    /// it can wait holds.
    Clamped,
    /// The configured number holds.
    Given,
}

/// How the seconds between two snapshots come about for a configured text,
/// or for none.
pub open spec fn flush_note_of(configured: Option<Seq<char>>) -> FlushNote {
    match configured {
        None => FlushNote::Unset,
        Some(text) => match unsigned_of(text) {
            None => FlushNote::Invalid,
            Some(seconds) => if seconds > MAX_FLUSH_SECONDS {
                FlushNote::Clamped
            } else {
                FlushNote::Given
            },
        },
    }
}

/// How the seconds between two snapshots come about for a configured text,
/// or for none.
pub fn flush_note(configured: Option<&str>) -> (note: FlushNote)
    ensures
        note == flush_note_of(
            match configured {
                Some(text) => Some(text@),
                None => None,
            },
        ),
{
    match configured {
        None => FlushNote::Unset,
        Some(text) => match parse_u64(text) {
            None => FlushNote::Invalid,
            Some(seconds) => if seconds > MAX_FLUSH_SECONDS {
                FlushNote::Clamped
            } else {
                FlushNote::Given
            },
        },
    }
}

/// The seconds between two snapshots that go with a configured text, or
/// with none.
pub fn flush_every(configured: Option<&str>) -> (seconds: u64)
    ensures
        seconds == match configured {
            Some(text) => flush_seconds(unsigned_of(text@)),
            None => DEFAULT_FLUSH_SECONDS,
        },
{
    match configured {
        Some(text) => clamp_flush_seconds(parse_u64(text)),
        None => DEFAULT_FLUSH_SECONDS,
    }
}

} // verus!
