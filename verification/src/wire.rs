//! The record header, the version and record-type bytes, and the compact
//! length encoding used for name/value pairs.

use vstd::prelude::*;
use vstd::std_specs::convert::FromSpecImpl;
use vstd::std_specs::convert::TryFromSpecImpl;

verus! {

broadcast use vstd::array::group_array_axioms;

/// Why a byte sequence is not a record header.
#[derive(Clone, Copy, Debug, PartialEq, Eq, Structural)]
pub enum RecordHeaderError {
    /// Fewer than the eight header bytes were given.
    NotEnoughBytes { got: usize },
    /// The version byte names no known version.
    UnknownVersion(u8),
    /// The type byte names no known record type.
    UnknownTy(u8),
}

/// Why a compact length could not be read from a byte sequence.
#[derive(Clone, Copy, Debug, PartialEq, Eq, Structural)]
pub enum CompactError {
    /// The first byte announces the four-byte form, but fewer bytes are there.
    Truncated { got: usize },
}

// ---------------------------------------------------------------------------
// Version
// ---------------------------------------------------------------------------

/// The possible version numbers of a record.
#[derive(Clone, Copy, Debug, PartialEq, Eq, Hash, Structural)]
pub enum Version {
    /// `FCGI_VERSION_1`, byte `0x01`.
    One,
}

/// The byte that stands for a version on the wire.
pub open spec fn version_byte(v: Version) -> u8 {
    match v {
        Version::One => 0x01,
    }
}

/// The version a byte names, or the byte itself where it names none.
pub open spec fn version_from_byte(b: u8) -> Result<Version, u8> {
    if b == 0x01 {
        Ok(Version::One)
    } else {
        Err(b)
    }
}

impl TryFrom<u8> for Version {
    type Error = u8;

    fn try_from(value: u8) -> (r: Result<Self, Self::Error>) {
        match value {
            0x01 => Ok(Version::One),
            byte => Err(byte),
        }
    }
}

impl TryFromSpecImpl<u8> for Version {
    open spec fn obeys_try_from_spec() -> bool {
        true
    }

    open spec fn try_from_spec(v: u8) -> Result<Self, u8> {
        version_from_byte(v)
    }
}

impl From<Version> for u8 {
    fn from(value: Version) -> (r: Self) {
        match value {
            Version::One => 0x01,
        }
    }
}

impl FromSpecImpl<Version> for u8 {
    open spec fn obeys_from_spec() -> bool {
        true
    }

    open spec fn from_spec(v: Version) -> u8 {
        version_byte(v)
    }
}

// ---------------------------------------------------------------------------
// Record type
// ---------------------------------------------------------------------------

/// The possible record types.
#[derive(Clone, Copy, Debug, PartialEq, Eq, Hash, Structural)]
pub enum RecordTy {
    /// Starts a request to an application (`FCGI_BEGIN_REQUEST`, `0x01`).
    BeginRequest,
    /// Aborts a request to an application (`FCGI_ABORT_REQUEST`, `0x02`).
    AbortRequest,
    /// Concludes a request on the application side (`FCGI_END_REQUEST`, `0x03`).
    EndRequest,
    /// Sends name/value pairs to the application (`FCGI_PARAMS`, `0x04`).
    Params,
    /// Bytes for the application's stdin (`FCGI_STDIN`, `0x05`).
    Stdin,
    /// Bytes from the application's stdout (`FCGI_STDOUT`, `0x06`).
    Stdout,
    /// Bytes from the application's stderr (`FCGI_STDERR`, `0x07`).
    Stderr,
    /// Bytes for the application's data channel (`FCGI_DATA`, `0x08`).
    Data,
    /// Asks the application for parameter values (`FCGI_GET_VALUES`, `0x09`).
    GetValues,
    /// Returns parameter values (`FCGI_GET_VALUES_RESULT`, `0x0A`).
    GetValuesResult,
    /// The application did not know a record type (`FCGI_UNKNOWN_TYPE`, `0x0B`).
    UnknownType,
}

/// The byte that stands for a record type on the wire.
pub open spec fn ty_byte(t: RecordTy) -> u8 {
    match t {
        RecordTy::BeginRequest => 0x01,
        RecordTy::AbortRequest => 0x02,
        RecordTy::EndRequest => 0x03,
        RecordTy::Params => 0x04,
        RecordTy::Stdin => 0x05,
        RecordTy::Stdout => 0x06,
        RecordTy::Stderr => 0x07,
        RecordTy::Data => 0x08,
        RecordTy::GetValues => 0x09,
        RecordTy::GetValuesResult => 0x0A,
        RecordTy::UnknownType => 0x0B,
    }
}

/// The record type a byte names, or the byte itself where it names none.
pub open spec fn ty_from_byte(b: u8) -> Result<RecordTy, u8> {
    if b == 0x01 {
        Ok(RecordTy::BeginRequest)
    } else if b == 0x02 {
        Ok(RecordTy::AbortRequest)
    } else if b == 0x03 {
        Ok(RecordTy::EndRequest)
    } else if b == 0x04 {
        Ok(RecordTy::Params)
    } else if b == 0x05 {
        Ok(RecordTy::Stdin)
    } else if b == 0x06 {
        Ok(RecordTy::Stdout)
    } else if b == 0x07 {
        Ok(RecordTy::Stderr)
    } else if b == 0x08 {
        Ok(RecordTy::Data)
    } else if b == 0x09 {
        Ok(RecordTy::GetValues)
    } else if b == 0x0A {
        Ok(RecordTy::GetValuesResult)
    } else if b == 0x0B {
        Ok(RecordTy::UnknownType)
    } else {
        Err(b)
    }
}

impl TryFrom<u8> for RecordTy {
    type Error = u8;

    fn try_from(value: u8) -> (r: Result<Self, Self::Error>) {
        match value {
            0x01 => Ok(RecordTy::BeginRequest),
            0x02 => Ok(RecordTy::AbortRequest),
            0x03 => Ok(RecordTy::EndRequest),
            0x04 => Ok(RecordTy::Params),
            0x05 => Ok(RecordTy::Stdin),
            0x06 => Ok(RecordTy::Stdout),
            0x07 => Ok(RecordTy::Stderr),
            0x08 => Ok(RecordTy::Data),
            0x09 => Ok(RecordTy::GetValues),
            0x0A => Ok(RecordTy::GetValuesResult),
            0x0B => Ok(RecordTy::UnknownType),
            byte => Err(byte),
        }
    }
}

impl TryFromSpecImpl<u8> for RecordTy {
    open spec fn obeys_try_from_spec() -> bool {
        true
    }

    open spec fn try_from_spec(v: u8) -> Result<Self, u8> {
        ty_from_byte(v)
    }
}

impl From<RecordTy> for u8 {
    fn from(value: RecordTy) -> (r: Self) {
        match value {
            RecordTy::BeginRequest => 0x01,
            RecordTy::AbortRequest => 0x02,
            RecordTy::EndRequest => 0x03,
            RecordTy::Params => 0x04,
            RecordTy::Stdin => 0x05,
            RecordTy::Stdout => 0x06,
            RecordTy::Stderr => 0x07,
            RecordTy::Data => 0x08,
            RecordTy::GetValues => 0x09,
            RecordTy::GetValuesResult => 0x0A,
            RecordTy::UnknownType => 0x0B,
        }
    }
}

impl FromSpecImpl<RecordTy> for u8 {
    open spec fn obeys_from_spec() -> bool {
        true
    }

    open spec fn from_spec(v: RecordTy) -> u8 {
        ty_byte(v)
    }
}


/// Naming a version by its byte and reading the byte back gives the version.
pub proof fn lemma_version_byte_roundtrip(v: Version)
    ensures
        version_from_byte(version_byte(v)) == Ok::<Version, u8>(v),
{
}

/// A byte that names a version is that version's byte.
pub proof fn lemma_version_from_byte_inverse(b: u8)
    ensures
        version_from_byte(b) matches Ok(v) ==> version_byte(v) == b,
{
}

/// Naming a record type by its byte and reading the byte back gives the type.
pub proof fn lemma_ty_byte_roundtrip(t: RecordTy)
    ensures
        ty_from_byte(ty_byte(t)) == Ok::<RecordTy, u8>(t),
{
}

/// A byte that names a record type is that type's byte.
pub proof fn lemma_ty_from_byte_inverse(b: u8)
    ensures
        ty_from_byte(b) matches Ok(t) ==> ty_byte(t) == b,
{
}

// ---------------------------------------------------------------------------
// Record header
// ---------------------------------------------------------------------------

/// The header part of a record.
#[derive(Clone, Copy, Debug, PartialEq, Eq, Hash, Structural)]
pub struct RecordHeader {
    /// The version number of the record.
    pub version: Version,
    /// The type of the record.
    pub ty: RecordTy,
    /// The request/stream ID.
    pub request_id: u16,
    /// The number of bytes in the content.
    pub content_len: u16,
    /// The number of bytes in the padding.
    pub padding_len: u8,
    /// The reserved byte.
    pub reserved: u8,
}

/// The eight bytes of a header on the wire: version, type, request ID and
/// content length big-endian, padding length, reserved byte.
pub open spec fn header_bytes(h: RecordHeader) -> Seq<u8> {
    seq![
        version_byte(h.version),
        ty_byte(h.ty),
        (h.request_id / 256) as u8,
        (h.request_id % 256) as u8,
        (h.content_len / 256) as u8,
        (h.content_len % 256) as u8,
        h.padding_len,
        h.reserved,
    ]
}

/// The header that the first eight bytes of `bytes` describe; bytes after
/// the eighth are not looked at.
pub open spec fn parse_header(bytes: Seq<u8>) -> Result<RecordHeader, RecordHeaderError> {
    if bytes.len() < 8 {
        Err(RecordHeaderError::NotEnoughBytes { got: bytes.len() as usize })
    } else {
        match version_from_byte(bytes[0]) {
            Err(b) => Err(RecordHeaderError::UnknownVersion(b)),
            Ok(version) => match ty_from_byte(bytes[1]) {
                Err(b) => Err(RecordHeaderError::UnknownTy(b)),
                Ok(ty) => Ok(
                    RecordHeader {
                        version,
                        ty,
                        request_id: (bytes[2] * 256 + bytes[3]) as u16,
                        content_len: (bytes[4] * 256 + bytes[5]) as u16,
                        padding_len: bytes[6],
                        reserved: bytes[7],
                    },
                ),
            },
        }
    }
}

/// The header as an array, the value that `<[u8; 8]>::from` gives.
pub open spec fn header_array(h: RecordHeader) -> [u8; 8] {
    let b = header_bytes(h);
    let a0 = vstd::array::spec_array_fill_for_copy_type::<u8, 8>(0u8);
    let a1 = vstd::array::spec_array_update(a0, 0, b[0]);
    let a2 = vstd::array::spec_array_update(a1, 1, b[1]);
    let a3 = vstd::array::spec_array_update(a2, 2, b[2]);
    let a4 = vstd::array::spec_array_update(a3, 3, b[3]);
    let a5 = vstd::array::spec_array_update(a4, 4, b[4]);
    let a6 = vstd::array::spec_array_update(a5, 5, b[5]);
    let a7 = vstd::array::spec_array_update(a6, 6, b[6]);
    vstd::array::spec_array_update(a7, 7, b[7])
}

/// The header array holds the eight header bytes.
pub proof fn lemma_header_array_view(h: RecordHeader)
    ensures
        header_array(h)@ == header_bytes(h),
{
    assert(header_array(h)@ =~= header_bytes(h));
}

/// The padding that completes `content_len` content bytes to a multiple of
/// eight: from 0 to 7 bytes.
pub open spec fn auto_padding(content_len: u16) -> u8 {
    ((8 - content_len % 8) % 8) as u8
}

impl RecordHeader {
    /// Computes the padding from the content length, so that content and
    /// padding together, and so the whole record, take a multiple of eight
    /// bytes. The old padding is replaced.
    pub fn with_auto_padding(self) -> (r: Self)
        ensures
            r == (RecordHeader { padding_len: auto_padding(self.content_len), ..self }),
    {
        let mut res = self;
        let rem = (self.content_len % 8) as u8;
        res.padding_len = (8 - rem) % 8;
        res
    }
}

/// After `with_auto_padding`, content and padding end on a multiple of eight
/// bytes, with fewer than eight bytes of padding; with the eight header
/// bytes the record takes a multiple of eight bytes.
pub proof fn lemma_auto_padding_aligns(content_len: u16)
    ensures
        (content_len + auto_padding(content_len)) % 8 == 0,
        (8 + content_len + auto_padding(content_len)) % 8 == 0,
        auto_padding(content_len) < 8,
{
}

impl<'a> TryFrom<&'a [u8]> for RecordHeader {
    type Error = RecordHeaderError;

    fn try_from(value: &'a [u8]) -> (r: Result<Self, Self::Error>) {
        if value.len() < 8 {
            return Err(RecordHeaderError::NotEnoughBytes { got: value.len() });
        }
        let version = match Version::try_from(value[0]) {
            Ok(v) => v,
            Err(b) => return Err(RecordHeaderError::UnknownVersion(b)),
        };
        let ty = match RecordTy::try_from(value[1]) {
            Ok(t) => t,
            Err(b) => return Err(RecordHeaderError::UnknownTy(b)),
        };
        let request_id: u16 = value[2] as u16 * 256 + value[3] as u16;
        let content_len: u16 = value[4] as u16 * 256 + value[5] as u16;
        let padding_len: u8 = value[6];
        let reserved: u8 = value[7];
        Ok(RecordHeader { version, ty, request_id, content_len, padding_len, reserved })
    }
}

impl<'a> TryFromSpecImpl<&'a [u8]> for RecordHeader {
    open spec fn obeys_try_from_spec() -> bool {
        true
    }

    open spec fn try_from_spec(v: &'a [u8]) -> Result<Self, RecordHeaderError> {
        parse_header(v@)
    }
}

impl<const LEN: usize> TryFrom<[u8; LEN]> for RecordHeader {
    type Error = RecordHeaderError;

    fn try_from(value: [u8; LEN]) -> (r: Result<Self, Self::Error>) {
        let s = vstd::array::array_as_slice(&value);
        Self::try_from(s)
    }
}

impl<const LEN: usize> TryFromSpecImpl<[u8; LEN]> for RecordHeader {
    open spec fn obeys_try_from_spec() -> bool {
        true
    }

    open spec fn try_from_spec(v: [u8; LEN]) -> Result<Self, RecordHeaderError> {
        parse_header(v@)
    }
}

impl TryFrom<Vec<u8>> for RecordHeader {
    type Error = RecordHeaderError;

    fn try_from(value: Vec<u8>) -> (r: Result<Self, Self::Error>) {
        Self::try_from(value.as_slice())
    }
}

impl TryFromSpecImpl<Vec<u8>> for RecordHeader {
    open spec fn obeys_try_from_spec() -> bool {
        true
    }

    open spec fn try_from_spec(v: Vec<u8>) -> Result<Self, RecordHeaderError> {
        parse_header(v@)
    }
}

impl From<RecordHeader> for [u8; 8] {
    fn from(value: RecordHeader) -> (r: Self) {
        let res: [u8; 8] = [
            u8::from(value.version),
            u8::from(value.ty),
            (value.request_id / 256) as u8,
            (value.request_id % 256) as u8,
            (value.content_len / 256) as u8,
            (value.content_len % 256) as u8,
            value.padding_len,
            value.reserved,
        ];
        proof {
            lemma_header_array_view(value);
            assert(res@ =~= header_bytes(value));
            assert(res =~= header_array(value));
        }
        res
    }
}

impl FromSpecImpl<RecordHeader> for [u8; 8] {
    open spec fn obeys_from_spec() -> bool {
        true
    }

    open spec fn from_spec(v: RecordHeader) -> [u8; 8] {
        header_array(v)
    }
}

impl From<RecordHeader> for Vec<u8> {
    fn from(value: RecordHeader) -> (r: Self)
        ensures
            r@ == header_bytes(value),
    {
        let arr = <[u8; 8]>::from(value);
        let mut res: Vec<u8> = Vec::new();
        let mut i: usize = 0;
        while i < 8
            invariant
                0 <= i <= 8,
                arr@ == header_bytes(value),
                res@ == arr@.subrange(0, i as int),
            decreases 8 - i,
        {
            res.push(arr[i]);
            i += 1;
        }
        proof {
            lemma_header_array_view(value);
            assert(res@ =~= arr@);
        }
        res
    }
}

/// A `Vec` is known by its view only: two vectors with equal elements are
/// not provably equal values, so `from_spec` cannot name the result, and the
/// contract of `Vec::<u8>::from` states its view instead.
impl FromSpecImpl<RecordHeader> for Vec<u8> {
    open spec fn obeys_from_spec() -> bool {
        false
    }

    open spec fn from_spec(v: RecordHeader) -> Vec<u8> {
        arbitrary()
    }
}

/// Serializing a header and parsing the bytes gives the header back.
pub proof fn lemma_header_roundtrip(h: RecordHeader)
    ensures
        parse_header(header_bytes(h)) == Ok::<RecordHeader, RecordHeaderError>(h),
{
    lemma_version_byte_roundtrip(h.version);
    lemma_ty_byte_roundtrip(h.ty);
}

/// Eight bytes that parse as a header are that header's bytes.
pub proof fn lemma_parse_header_inverse(bytes: Seq<u8>)
    requires
        bytes.len() == 8,
        parse_header(bytes) is Ok,
    ensures
        header_bytes(parse_header(bytes)->Ok_0) == bytes,
{
    lemma_version_from_byte_inverse(bytes[0]);
    lemma_ty_from_byte_inverse(bytes[1]);
    assert(header_bytes(parse_header(bytes)->Ok_0) =~= bytes);
}

/// Only the first eight bytes decide the header.
pub proof fn lemma_parse_header_prefix(bytes: Seq<u8>, rest: Seq<u8>)
    requires
        bytes.len() >= 8,
    ensures
        parse_header(bytes + rest) == parse_header(bytes),
{
    assert((bytes + rest)[0] == bytes[0]);
    assert((bytes + rest)[1] == bytes[1]);
    assert((bytes + rest)[2] == bytes[2]);
    assert((bytes + rest)[3] == bytes[3]);
    assert((bytes + rest)[4] == bytes[4]);
    assert((bytes + rest)[5] == bytes[5]);
    assert((bytes + rest)[6] == bytes[6]);
    assert((bytes + rest)[7] == bytes[7]);
}


// ---------------------------------------------------------------------------
// Compact lengths
// ---------------------------------------------------------------------------

/// The compact form of a length: one byte where it is at most 127, else four
/// bytes big-endian with the top bit of the first byte set.
pub open spec fn compact_bytes(value: u32) -> Seq<u8> {
    if value <= 127 {
        seq![value as u8]
    } else {
        seq![
            ((value / 0x100_0000) % 128 + 128) as u8,
            ((value / 0x1_0000) % 256) as u8,
            ((value / 0x100) % 256) as u8,
            (value % 256) as u8,
        ]
    }
}

/// How many bytes a compact length takes, judged by its first byte.
pub open spec fn compact_len(first: u8) -> nat {
    if first <= 127 {
        1
    } else {
        4
    }
}

/// The value of a compact length whose bytes start `bytes`; the top bit of
/// the four-byte form only marks the form and is dropped.
pub open spec fn compact_value(bytes: Seq<u8>) -> u32 {
    if bytes[0] <= 127 {
        bytes[0] as u32
    } else {
        ((bytes[0] % 128) * 0x100_0000 + bytes[1] * 0x1_0000 + bytes[2] * 0x100 + bytes[3]) as u32
    }
}

/// Reading a compact length from the front of `input`: nothing where
/// `input` is empty, a truncation where the four-byte form lacks bytes, else
/// the value and the number of bytes it took.
pub open spec fn read_compact(input: Seq<u8>) -> Result<Option<(u32, usize)>, CompactError> {
    if input.len() == 0 {
        Ok(None)
    } else if input.len() < compact_len(input[0]) {
        Err(CompactError::Truncated { got: input.len() as usize })
    } else {
        Ok(Some((compact_value(input), compact_len(input[0]) as usize)))
    }
}

/// Appends the compact form of `value` to `output`.
pub fn write_u32_compact(value: u32, output: &mut Vec<u8>)
    ensures
        final(output)@ == old(output)@ + compact_bytes(value),
{
    if value <= 127 {
        output.push(value as u8);
    } else {
        output.push(((value / 0x100_0000) % 128 + 128) as u8);
        output.push(((value / 0x1_0000) % 256) as u8);
        output.push(((value / 0x100) % 256) as u8);
        output.push((value % 256) as u8);
    }
    assert(final(output)@ =~= old(output)@ + compact_bytes(value));
}

/// The number of bytes of a compact length that starts with `first`.
pub fn compact_encoded_len(first: u8) -> (n: usize)
    ensures
        n == compact_len(first),
{
    if first <= 127 {
        1
    } else {
        4
    }
}

/// Reads a compact length from `input` starting at `pos`.
pub(crate) fn read_u32_compact_at(input: &[u8], pos: usize) -> (r: Result<Option<(u32, usize)>, CompactError>)
    requires
        pos <= input@.len(),
    ensures
        r == read_compact(input@.subrange(pos as int, input@.len() as int)),
        r matches Ok(Some((_, n))) ==> 1 <= n <= input@.len() - pos,
{
    let ghost rest = input@.subrange(pos as int, input@.len() as int);
    let avail = input.len() - pos;
    if avail == 0 {
        return Ok(None);
    }
    let first = input[pos];
    assert(rest[0] == first);
    if first <= 127 {
        Ok(Some((first as u32, 1)))
    } else if avail < 4 {
        Err(CompactError::Truncated { got: avail })
    } else {
        let b1 = input[pos + 1];
        let b2 = input[pos + 2];
        let b3 = input[pos + 3];
        assert(rest[1] == b1 && rest[2] == b2 && rest[3] == b3);
        let v: u32 = (first % 128) as u32 * 0x100_0000 + b1 as u32 * 0x1_0000 + b2 as u32 * 0x100
            + b3 as u32;
        Ok(Some((v, 4)))
    }
}

/// Reads a compact length from the front of `input`: `Ok(None)` where
/// `input` is empty, `Err` where the four-byte form is cut short, else the
/// value and the number of bytes it took.
pub fn read_u32_compact(input: &[u8]) -> (r: Result<Option<(u32, usize)>, CompactError>)
    ensures
        r == read_compact(input@),
{
    assert(input@.subrange(0, input@.len() as int) =~= input@);
    read_u32_compact_at(input, 0)
}

/// Writing a length in compact form and reading it back gives the length
/// without its top bit, taking exactly the written bytes; lengths below
/// 2^31 come back unchanged.
pub proof fn lemma_compact_roundtrip(value: u32, rest: Seq<u8>)
    ensures
        read_compact(compact_bytes(value) + rest) == Ok::<Option<(u32, usize)>, CompactError>(
            Some(((value % 0x8000_0000) as u32, compact_bytes(value).len() as usize)),
        ),
        value < 0x8000_0000 ==> (value % 0x8000_0000) as u32 == value,
{
    let s = compact_bytes(value) + rest;
    if value <= 127 {
        assert(s[0] == value as u8);
    } else {
        let c0: u32 = ((value / 0x100_0000) % 128 + 128) as u32;
        let c1: u32 = (value / 0x1_0000) % 256;
        let c2: u32 = (value / 0x100) % 256;
        let c3: u32 = value % 256;
        assert(s[0] == c0 && s[1] == c1 && s[2] == c2 && s[3] == c3);
        assert(c0 > 127 && c0 < 256 && c0 % 128 == (value / 0x100_0000) % 128);
        assert((((value / 0x100_0000) % 128) * 0x100_0000 + c1 * 0x1_0000 + c2 * 0x100 + c3) == value
            % 0x8000_0000) by (bit_vector)
            requires
                c1 == (value / 0x1_0000) % 256,
                c2 == (value / 0x100) % 256,
                c3 == value % 256,
        ;
    }
}


/// A compact length read from `s` in its shortest form is written back as
/// the same bytes: only a long form of a length below 128 is not.
pub proof fn lemma_compact_read_inverse(s: Seq<u8>)
    requires
        read_compact(s) matches Ok(Some((v, n))) && (n == 1 || v > 127),
    ensures
        read_compact(s) matches Ok(Some((v, n))) && s.subrange(0, n as int) == compact_bytes(v),
{
    let (v, n) = read_compact(s)->Ok_0->Some_0;
    if n == 1 {
        assert(s.subrange(0, 1) =~= compact_bytes(v));
    } else {
        let b0 = s[0] as u32;
        let b1 = s[1] as u32;
        let b2 = s[2] as u32;
        let b3 = s[3] as u32;
        assert(v == (b0 % 128) * 0x100_0000 + b1 * 0x1_0000 + b2 * 0x100 + b3);
        assert(((v / 0x100_0000) % 128 + 128) == b0 && (v / 0x1_0000) % 256 == b1 && (v / 0x100)
            % 256 == b2 && v % 256 == b3) by (bit_vector)
            requires
                v == (b0 % 128) * 0x100_0000 + b1 * 0x1_0000 + b2 * 0x100 + b3,
                128 <= b0 < 256,
                b1 < 256,
                b2 < 256,
                b3 < 256,
        ;
        assert(s.subrange(0, 4) =~= compact_bytes(v));
    }
}


/// The compact form tells its own size by its first byte: a length below
/// 128 takes one byte with the top bit clear, any other four bytes whose
/// first byte has the top bit set; the four bytes hold the length
/// big-endian, apart from that bit.
pub proof fn lemma_compact_form(value: u32)
    ensures
        compact_bytes(value).len() == 1 <==> value < 128,
        compact_bytes(value).len() == 4 <==> value >= 128,
        (compact_bytes(value)[0] >= 128) <==> value >= 128,
        compact_len(compact_bytes(value)[0]) == compact_bytes(value).len(),
        value < 128 ==> compact_bytes(value)[0] == value,
        value >= 128 ==> {
            let b = compact_bytes(value);
            (b[0] - 128) * 0x100_0000 + b[1] * 0x1_0000 + b[2] * 0x100 + b[3] == value % 0x8000_0000
        },
{
    if value >= 128 {
        let c0: u32 = ((value / 0x100_0000) % 128 + 128) as u32;
        assert(c0 > 127 && c0 < 256);
        lemma_compact_roundtrip(value, Seq::empty());
        assert(compact_bytes(value) + Seq::<u8>::empty() =~= compact_bytes(value));
    }
}

} // verus!
