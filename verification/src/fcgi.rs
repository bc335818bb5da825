//! The `FCGI_GET_VALUES` exchange: the request that asks an application for
//! parameter values, and the reading of its `FCGI_GET_VALUES_RESULT` reply.
//!
//! The reply is read from a stream in steps: `read_get_values_reply` looks at
//! the bytes received so far and says how many more to read, or what the
//! exchange came to. The caller performs the reads.

use vstd::prelude::*;
use vstd::utf8::decode_utf8;
use vstd::utf8::valid_utf8;
use vstd::utf8::encode_utf8_decode_utf8;
use vstd::utf8::encode_utf8_valid_utf8;
use vstd::string::StringSliceAdditionalSpecFns;

use crate::value_map::ValueMap;
use crate::wire::auto_padding;
use crate::wire::compact_bytes;
use crate::wire::header_bytes;
use crate::wire::lemma_compact_roundtrip;
use crate::wire::lemma_header_roundtrip;
use crate::wire::lemma_parse_header_prefix;
use crate::wire::lemma_auto_padding_aligns;
use crate::wire::parse_header;
use crate::wire::ty_byte;
use crate::wire::read_compact;
use crate::wire::read_u32_compact_at;
use crate::wire::write_u32_compact;
use crate::wire::CompactError;
use crate::wire::RecordHeader;
use crate::wire::RecordHeaderError;
use crate::wire::RecordTy;
use crate::wire::Version;

verus! {

/// Why a get-values exchange failed, apart from failures of the stream.
#[derive(Debug)]
pub enum Error {
    /// The request content would not fit the 16-bit content length.
    ContentLenOverflow { got: usize },
    /// Parameter `i` is longer than a 32-bit length can say.
    ParamLenOverflow { i: usize, got: usize },
    /// The reply did not start with a valid record header.
    RecordHeader(RecordHeaderError),
    /// The reply record has another type than the one expected.
    UnexpectedRecord { got: RecordTy, expected: RecordTy },
    /// The reply record has another request ID than the one expected.
    UnexpectedRequestId { got: u16, expected: u16 },
    /// The stream ended where the length of a name was due.
    MissingNameLen,
    /// The stream ended where the length of a value was due.
    MissingValueLen,
    /// A name or value is not valid UTF-8; `bytes` are its bytes.
    Utf8 { bytes: Vec<u8> },
}

/// The mathematical value of an [`Error`].
pub enum ErrorView {
    ContentLenOverflow { got: usize },
    ParamLenOverflow { i: usize, got: usize },
    RecordHeader(RecordHeaderError),
    UnexpectedRecord { got: RecordTy, expected: RecordTy },
    UnexpectedRequestId { got: u16, expected: u16 },
    MissingNameLen,
    MissingValueLen,
    Utf8 { bytes: Seq<u8> },
}

impl View for Error {
    type V = ErrorView;

    open spec fn view(&self) -> ErrorView {
        match self {
            Error::ContentLenOverflow { got } => ErrorView::ContentLenOverflow { got: *got },
            Error::ParamLenOverflow { i, got } => ErrorView::ParamLenOverflow { i: *i, got: *got },
            Error::RecordHeader(e) => ErrorView::RecordHeader(*e),
            Error::UnexpectedRecord { got, expected } => ErrorView::UnexpectedRecord {
                got: *got,
                expected: *expected,
            },
            Error::UnexpectedRequestId { got, expected } => ErrorView::UnexpectedRequestId {
                got: *got,
                expected: *expected,
            },
            Error::MissingNameLen => ErrorView::MissingNameLen,
            Error::MissingValueLen => ErrorView::MissingValueLen,
            Error::Utf8 { bytes } => ErrorView::Utf8 { bytes: bytes@ },
        }
    }
}

// ---------------------------------------------------------------------------
// The request
// ---------------------------------------------------------------------------

/// The bytes of a parameter name.
pub open spec fn name_bytes(p: &str) -> Seq<u8> {
    p.spec_bytes()
}

/// One requested parameter on the wire: the compact length of its name, a
/// zero value length, then the name.
pub open spec fn param_entry(p: &str) -> Seq<u8> {
    compact_bytes(name_bytes(p).len() as u32) + seq![0u8] + name_bytes(p)
}

/// The request content: the entries of all parameters, in order.
pub open spec fn request_content(params: Seq<&str>) -> Seq<u8>
    decreases params.len(),
{
    if params.len() == 0 {
        Seq::empty()
    } else {
        request_content(params.drop_last()) + param_entry(params.last())
    }
}

/// The index of the first parameter whose name is longer than `u32::MAX`
/// bytes, if any.
pub open spec fn first_long_param(params: Seq<&str>) -> Option<int>
    decreases params.len(),
{
    if params.len() == 0 {
        None
    } else {
        match first_long_param(params.drop_last()) {
            Some(i) => Some(i),
            None => if name_bytes(params.last()).len() > 0xFFFF_FFFF {
                Some(params.len() - 1)
            } else {
                None
            },
        }
    }
}

/// The header of a get-values request with `content_len` content bytes.
pub open spec fn request_header(content_len: u16) -> RecordHeader {
    RecordHeader {
        version: Version::One,
        ty: RecordTy::GetValues,
        request_id: 0,
        content_len,
        padding_len: auto_padding(content_len),
        reserved: 0,
    }
}

/// `n` zero bytes.
pub open spec fn zeros(n: nat) -> Seq<u8> {
    Seq::new(n, |i: int| 0u8)
}

/// What a get-values request for `params` is: one record of its header,
/// content and padding, or why it cannot be made.
pub open spec fn get_values_request_spec(params: Seq<&str>) -> Result<Seq<u8>, ErrorView> {
    match first_long_param(params) {
        Some(i) => Err(
            ErrorView::ParamLenOverflow { i: i as usize, got: name_bytes(params[i]).len() as usize },
        ),
        None => {
            let c = request_content(params);
            if c.len() > 0xFFFF {
                Err(ErrorView::ContentLenOverflow { got: c.len() as usize })
            } else {
                Ok(
                    header_bytes(request_header(c.len() as u16)) + c + zeros(
                        auto_padding(c.len() as u16) as nat,
                    ),
                )
            }
        },
    }
}

/// Appends `bytes` to `out`.
fn append_bytes(out: &mut Vec<u8>, bytes: &[u8])
    ensures
        final(out)@ == old(out)@ + bytes@,
{
    let mut i: usize = 0;
    while i < bytes.len()
        invariant
            0 <= i <= bytes@.len(),
            out@ == old(out)@ + bytes@.subrange(0, i as int),
        decreases bytes@.len() - i,
    {
        out.push(bytes[i]);
        i += 1;
        assert(out@ =~= old(out)@ + bytes@.subrange(0, i as int));
    }
    assert(bytes@.subrange(0, bytes@.len() as int) =~= bytes@);
}

/// Builds the `FCGI_GET_VALUES` request for `params`: one record of the
/// header, with request ID 0 and the padding computed, the content, in which
/// each name is sent with an empty value, and the zero padding bytes.
pub fn get_values_request(params: &[&str]) -> (r: Result<Vec<u8>, Error>)
    ensures
        match r {
            Ok(v) => get_values_request_spec(params@) == Ok::<Seq<u8>, ErrorView>(v@),
            Err(e) => get_values_request_spec(params@) == Err::<Seq<u8>, ErrorView>(e@),
        },
{
    let mut content: Vec<u8> = Vec::new();
    let mut i: usize = 0;
    while i < params.len()
        invariant
            0 <= i <= params@.len(),
            content@ == request_content(params@.subrange(0, i as int)),
            first_long_param(params@.subrange(0, i as int)) is None,
        decreases params@.len() - i,
    {
        let ghost prefix = params@.subrange(0, i as int);
        let ghost next = params@.subrange(0, i + 1);
        assert(next.drop_last() =~= prefix);
        let p: &str = params[i];
        let bytes: &[u8] = p.as_bytes();
        if bytes.len() as u64 > 0xFFFF_FFFF {
            proof {
                lemma_first_long_param_extend(params@, i as int);
            }
            return Err(Error::ParamLenOverflow { i, got: bytes.len() });
        }
        write_u32_compact(bytes.len() as u32, &mut content);
        content.push(0u8);
        append_bytes(&mut content, bytes);
        i += 1;
        proof {
            assert(content@ =~= request_content(next));
        }
    }
    assert(params@.subrange(0, params@.len() as int) =~= params@);
    if content.len() > 0xFFFF {
        return Err(Error::ContentLenOverflow { got: content.len() });
    }
    let content_len: u16 = content.len() as u16;
    let header = RecordHeader {
        version: Version::One,
        ty: RecordTy::GetValues,
        request_id: 0,
        content_len,
        padding_len: 0,
        reserved: 0,
    }.with_auto_padding();
    let mut out: Vec<u8> = Vec::<u8>::from(header);
    append_bytes(&mut out, content.as_slice());
    let ghost framed = out@;
    let mut k: u8 = 0;
    while k < header.padding_len
        invariant
            header.padding_len < 8,
            0 <= k <= header.padding_len,
            out@ == framed + zeros(k as nat),
        decreases header.padding_len - k,
    {
        out.push(0u8);
        k += 1;
        assert(out@ =~= framed + zeros(k as nat));
    }
    Ok(out)
}

/// Once a prefix holds a long parameter, it stays the first one; the first
/// long parameter of a prefix without one is the next parameter if it is
/// long.
proof fn lemma_first_long_param_extend(params: Seq<&str>, i: int)
    requires
        0 <= i < params.len(),
        first_long_param(params.subrange(0, i)) is None,
        name_bytes(params[i]).len() > 0xFFFF_FFFF,
    ensures
        first_long_param(params) == Some(i),
    decreases params.len(),
{
    if i < params.len() - 1 {
        let p = params.drop_last();
        assert(p.subrange(0, i) =~= params.subrange(0, i));
        lemma_first_long_param_extend(p, i);
    } else {
        assert(params.drop_last() =~= params.subrange(0, i));
    }
}

// ---------------------------------------------------------------------------
// The reply
// ---------------------------------------------------------------------------

/// How many bytes the reading of a reply counts for a length: the size of
/// its compact form.
pub open spec fn compact_size(len: u32) -> nat {
    if len <= 127 {
        1
    } else {
        4
    }
}

/// Where reading a get-values reply stands, given the bytes received.
pub enum ReplyProgress {
    /// Read exactly this many more bytes, then look again.
    ReadExact(usize),
    /// Read one more byte if the stream has one, then look again, saying
    /// whether the stream had ended.
    ReadUpToOne,
    /// The reply is complete: the values, and the number of bytes it took.
    Done { values: ValueMap, consumed: usize },
    /// The reply is malformed.
    Failed(Error),
    /// The name/value pairs ran past the content length.
    Overrun,
}

/// The mathematical value of a [`ReplyProgress`].
pub enum ReplyView {
    ReadExact(nat),
    ReadUpToOne,
    Done { values: Map<Seq<char>, Seq<char>>, consumed: nat },
    Failed(ErrorView),
    Overrun,
}

impl View for ReplyProgress {
    type V = ReplyView;

    open spec fn view(&self) -> ReplyView {
        match self {
            ReplyProgress::ReadExact(n) => ReplyView::ReadExact(*n as nat),
            ReplyProgress::ReadUpToOne => ReplyView::ReadUpToOne,
            ReplyProgress::Done { values, consumed } => ReplyView::Done {
                values: values@,
                consumed: *consumed as nat,
            },
            ReplyProgress::Failed(e) => ReplyView::Failed(e@),
            ReplyProgress::Overrun => ReplyView::Overrun,
        }
    }
}

/// The bytes of `buf` from `pos` on.
pub open spec fn rest(buf: Seq<u8>, pos: int) -> Seq<u8> {
    buf.subrange(pos, buf.len() as int)
}

/// Reading the name/value pairs of a reply from position `pos` of `buf`,
/// with `read` content bytes counted so far and `acc` the values found so
/// far. `at_eof` says that the stream has ended after `buf`.
///
/// While fewer than `content_len` bytes are counted, a pair is read: the
/// compact lengths of name and value, then the name, which must be UTF-8,
/// then the value, likewise. The count grows by the sizes of the two
/// lengths' compact forms and the two lengths. Once the count meets
/// `content_len`, `padding` bytes follow; once it passes it, the reply has
/// overrun.
pub open spec fn pairs_reply(
    buf: Seq<u8>,
    pos: int,
    read: int,
    content_len: int,
    padding: int,
    acc: Map<Seq<char>, Seq<char>>,
    at_eof: bool,
) -> ReplyView
    decreases if read < content_len { content_len - read } else { 0 },
{
    if read == content_len {
        if buf.len() < pos + padding {
            ReplyView::ReadExact((pos + padding - buf.len()) as nat)
        } else {
            ReplyView::Done { values: acc, consumed: (pos + padding) as nat }
        }
    } else if read > content_len {
        ReplyView::Overrun
    } else {
        match read_compact(rest(buf, pos)) {
            Ok(None) => if at_eof {
                ReplyView::Failed(ErrorView::MissingNameLen)
            } else {
                ReplyView::ReadUpToOne
            },
            Err(CompactError::Truncated { got }) => ReplyView::ReadExact((4 - got) as nat),
            Ok(Some((name_len, n1))) => {
        let p1 = pos + n1;
                match read_compact(rest(buf, p1)) {
                    Ok(None) => if at_eof {
                        ReplyView::Failed(ErrorView::MissingValueLen)
                    } else {
                        ReplyView::ReadUpToOne
                    },
                    Err(CompactError::Truncated { got }) => ReplyView::ReadExact((4 - got) as nat),
                    Ok(Some((value_len, n2))) => {
        let p2 = p1 + n2;
                        if buf.len() < p2 + name_len {
                            ReplyView::ReadExact((p2 + name_len - buf.len()) as nat)
                        } else {
                            let name = buf.subrange(p2, p2 + name_len);
                            if !valid_utf8(name) {
                                ReplyView::Failed(ErrorView::Utf8 { bytes: name })
                            } else {
                                let p3 = p2 + name_len;
                                if buf.len() < p3 + value_len {
                                    ReplyView::ReadExact((p3 + value_len - buf.len()) as nat)
                                } else {
                                    let value = buf.subrange(p3, p3 + value_len);
                                    if !valid_utf8(value) {
                                        ReplyView::Failed(ErrorView::Utf8 { bytes: value })
                                    } else {
                                        pairs_reply(
                                            buf,
                                            p3 + value_len,
                                            read + compact_size(name_len) + compact_size(value_len)
                                                + name_len + value_len,
                                            content_len,
                                            padding,
                                            acc.insert(decode_utf8(name), decode_utf8(value)),
                                            at_eof,
                                        )
                                    }
                                }
                            }
                        }
                    },
                }
            },
        }
    }
}

/// Reading a get-values reply from the bytes received so far, `buf`;
/// `at_eof` says that the stream has ended after `buf`. The reply is a
/// record header of type `FCGI_GET_VALUES_RESULT` with request ID 0, then
/// name/value pairs up to the content length, then the padding.
pub open spec fn get_values_reply(buf: Seq<u8>, at_eof: bool) -> ReplyView {
    if buf.len() < 8 {
        ReplyView::ReadExact((8 - buf.len()) as nat)
    } else {
        match parse_header(buf) {
            Err(e) => ReplyView::Failed(ErrorView::RecordHeader(e)),
            Ok(h) => if h.ty != RecordTy::GetValuesResult {
                ReplyView::Failed(
                    ErrorView::UnexpectedRecord { got: h.ty, expected: RecordTy::GetValuesResult },
                )
            } else if h.request_id != 0 {
                ReplyView::Failed(ErrorView::UnexpectedRequestId { got: h.request_id, expected: 0 })
            } else {
                pairs_reply(
                    buf,
                    8,
                    0,
                    h.content_len as int,
                    h.padding_len as int,
                    Map::empty(),
                    at_eof,
                )
            },
        }
    }
}


/// The bytes of `buf` from `start` to `end`, as a vector.
fn slice_bytes(buf: &[u8], start: usize, end: usize) -> (v: Vec<u8>)
    requires
        start <= end <= buf@.len(),
    ensures
        v@ == buf@.subrange(start as int, end as int),
{
    let mut v: Vec<u8> = Vec::new();
    let mut i: usize = start;
    while i < end
        invariant
            start <= i <= end,
            end <= buf@.len(),
            v@ == buf@.subrange(start as int, i as int),
        decreases end - i,
    {
        v.push(buf[i]);
        i += 1;
        assert(v@ =~= buf@.subrange(start as int, i as int));
    }
    v
}

/// `String::from_utf8` of std, which turns a byte vector into a string where
/// the bytes are valid UTF-8 and fails otherwise. The contract claims that it
/// succeeds exactly on valid UTF-8, and that the string then holds the
/// characters that the bytes encode.
#[verifier::external_body]
fn string_from_utf8(bytes: Vec<u8>) -> (r: Option<String>)
    ensures
        r is Some <==> valid_utf8(bytes@),
        r matches Some(s) ==> s@ == decode_utf8(bytes@),
{
    match String::from_utf8(bytes) {
        Ok(s) => Some(s),
        Err(_) => None,
    }
}

/// The size of the compact form of `len`, as the reply reading counts it.
fn compact_size_of(len: u32) -> (n: u64)
    ensures
        n == compact_size(len),
{
    if len <= 127 {
        1
    } else {
        4
    }
}

/// Looks at the bytes of a get-values reply received so far and says what
/// to do next: read more bytes, or stop with the values, an error, or an
/// overrun of the content length. `at_eof` says that the stream has ended
/// after `buf`.
pub fn read_get_values_reply(buf: &[u8], at_eof: bool) -> (r: ReplyProgress)
    ensures
        r@ == get_values_reply(buf@, at_eof),
        r matches ReplyProgress::ReadExact(n) ==> n > 0,
        r is ReadUpToOne ==> !at_eof,
        r matches ReplyProgress::Done { consumed, .. } ==> consumed <= buf@.len(),
{
    if buf.len() < 8 {
        return ReplyProgress::ReadExact(8 - buf.len());
    }
    let header = match RecordHeader::try_from(buf) {
        Ok(h) => h,
        Err(e) => return ReplyProgress::Failed(Error::RecordHeader(e)),
    };
    if header.ty != RecordTy::GetValuesResult {
        return ReplyProgress::Failed(
            Error::UnexpectedRecord { got: header.ty, expected: RecordTy::GetValuesResult },
        );
    }
    if header.request_id != 0 {
        return ReplyProgress::Failed(
            Error::UnexpectedRequestId { got: header.request_id, expected: 0 },
        );
    }
    let content_len: u64 = header.content_len as u64;
    let padding: usize = header.padding_len as usize;
    let mut pos: usize = 8;
    let mut read: u64 = 0;
    let mut acc = ValueMap::new();
    let blen = buf.len();
    loop
        invariant
            blen == buf@.len(),
            pos <= buf@.len(),
            content_len <= 0xFFFF,
            padding <= 0xFF,
            read <= 0xFFFF + 8 + 2 * 0xFFFF_FFFFu64,
            pairs_reply(
                buf@,
                pos as int,
                read as int,
                content_len as int,
                padding as int,
                acc@,
                at_eof,
            ) == get_values_reply(buf@, at_eof),
        decreases if read < content_len { content_len - read } else { 0 },
    {
        if read == content_len {
            if buf.len() - pos < padding {
                return ReplyProgress::ReadExact(padding - (buf.len() - pos));
            }
            return ReplyProgress::Done { values: acc, consumed: pos + padding };
        }
        if read > content_len {
            return ReplyProgress::Overrun;
        }
        let first = read_u32_compact_at(buf, pos);
        let (name_len, n1) = match first {
            Ok(Some(x)) => x,
            Ok(None) => {
                if at_eof {
                    return ReplyProgress::Failed(Error::MissingNameLen);
                } else {
                    return ReplyProgress::ReadUpToOne;
                }
            },
            Err(CompactError::Truncated { got }) => return ReplyProgress::ReadExact(4 - got),
        };
        assert(n1 <= buf@.len() - pos);
        let p1 = pos + n1;
        assert(rest(buf@, p1 as int) =~= buf@.subrange(p1 as int, buf@.len() as int));
        let second = read_u32_compact_at(buf, p1);
        let (value_len, n2) = match second {
            Ok(Some(x)) => x,
            Ok(None) => {
                if at_eof {
                    return ReplyProgress::Failed(Error::MissingValueLen);
                } else {
                    return ReplyProgress::ReadUpToOne;
                }
            },
            Err(CompactError::Truncated { got }) => return ReplyProgress::ReadExact(4 - got),
        };
        assert(n2 <= buf@.len() - p1);
        let p2 = p1 + n2;
        let nl = name_len as usize;
        if buf.len() - p2 < nl {
            return ReplyProgress::ReadExact(nl - (buf.len() - p2));
        }
        let p3 = p2 + nl;
        let name = match string_from_utf8(slice_bytes(buf, p2, p3)) {
            Some(s) => s,
            None => return ReplyProgress::Failed(Error::Utf8 { bytes: slice_bytes(buf, p2, p3) }),
        };
        let vl = value_len as usize;
        if buf.len() - p3 < vl {
            return ReplyProgress::ReadExact(vl - (buf.len() - p3));
        }
        let p4 = p3 + vl;
        let value = match string_from_utf8(slice_bytes(buf, p3, p4)) {
            Some(s) => s,
            None => return ReplyProgress::Failed(Error::Utf8 { bytes: slice_bytes(buf, p3, p4) }),
        };
        acc.insert(name, value);
        read = read + compact_size_of(name_len) + compact_size_of(value_len) + name_len as u64
            + value_len as u64;
        pos = p4;
    }
}


// ---------------------------------------------------------------------------
// Laws of the exchange
// ---------------------------------------------------------------------------

/// The map in which every requested name is bound to the empty value.
pub open spec fn requested_names(params: Seq<&str>) -> Map<Seq<char>, Seq<char>> {
    Map::new(
        |k: Seq<char>| exists|i: int| 0 <= i < params.len() && params[i]@ == k,
        |k: Seq<char>| Seq::<char>::empty(),
    )
}

/// The header of a get-values reply that carries `content_len` content bytes
/// and `padding_len` padding bytes.
pub open spec fn reply_header(content_len: u16, padding_len: u8) -> RecordHeader {
    RecordHeader {
        version: Version::One,
        ty: RecordTy::GetValuesResult,
        request_id: 0,
        content_len,
        padding_len,
        reserved: 0,
    }
}

/// The request content, seen from its first entry.
proof fn lemma_request_content_first(params: Seq<&str>)
    requires
        params.len() > 0,
    ensures
        request_content(params) == param_entry(params[0]) + request_content(params.drop_first()),
    decreases params.len(),
{
    if params.len() == 1 {
        assert(params.drop_last() =~= Seq::<&str>::empty());
        assert(params.drop_first() =~= Seq::<&str>::empty());
        assert(request_content(params) =~= param_entry(params[0]) + request_content(
            params.drop_first(),
        ));
    } else {
        let p = params.drop_last();
        lemma_request_content_first(p);
        assert(p.drop_first() =~= params.drop_first().drop_last());
        assert(p[0] == params[0]);
        assert(params.drop_first().last() == params.last());
        assert(request_content(params) =~= param_entry(params[0]) + request_content(
            params.drop_first(),
        ));
    }
}

/// Every name is no longer than the request content.
proof fn lemma_request_content_holds_names(params: Seq<&str>)
    ensures
        forall|i: int|
            0 <= i < params.len() ==> name_bytes(#[trigger] params[i]).len() <= request_content(
                params,
            ).len(),
    decreases params.len(),
{
    if params.len() > 0 {
        let p = params.drop_last();
        lemma_request_content_holds_names(p);
        assert forall|i: int| 0 <= i < params.len() implies name_bytes(
            #[trigger] params[i],
        ).len() <= request_content(params).len() by {
            if i < params.len() - 1 {
                assert(p[i] == params[i]);
            }
        }
    }
}

/// Reading one parameter entry, found at `pos` in `buf`, as a name/value
/// pair binds its name to the empty value and counts the entry's bytes.
proof fn lemma_read_one_entry(
    buf: Seq<u8>,
    pos: int,
    read: int,
    content_len: int,
    acc: Map<Seq<char>, Seq<char>>,
    p: &str,
    at_eof: bool,
)
    requires
        0 <= pos,
        0 <= read,
        read + param_entry(p).len() <= content_len,
        pos + param_entry(p).len() <= buf.len(),
        buf.subrange(pos, pos + param_entry(p).len()) == param_entry(p),
        name_bytes(p).len() <= 0xFFFF,
    ensures
        pairs_reply(buf, pos, read, content_len, 0, acc, at_eof) == pairs_reply(
            buf,
            pos + param_entry(p).len(),
            read + param_entry(p).len(),
            content_len,
            0,
            acc.insert(p@, Seq::<char>::empty()),
            at_eof,
        ),
{
    let nb = name_bytes(p);
    let nl = nb.len() as u32;
    let e = param_entry(p);
    let cb = compact_bytes(nl);
    let sub = buf.subrange(pos, pos + e.len());
    assert(nl as int == nb.len());
    assert(e == cb + seq![0u8] + nb);
    let r0 = rest(buf, pos);
    let t0 = r0.subrange(cb.len() as int, r0.len() as int);
    assert(r0 =~= cb + t0) by {
        assert forall|k: int| 0 <= k < cb.len() implies r0[k] == cb[k] by {
            assert(sub[k] == e[k]);
        }
    }
    lemma_compact_roundtrip(nl, t0);
    let n1 = cb.len() as int;
    let p1 = pos + n1;
    let r1 = rest(buf, p1);
    assert(r1[0] == 0u8) by {
        assert(sub[n1] == e[n1]);
    }
    assert(read_compact(r1) == Ok::<Option<(u32, usize)>, CompactError>(Some((0u32, 1usize))));
    let p2 = p1 + 1;
    assert(buf.subrange(p2, p2 + nl) =~= nb) by {
        assert forall|k: int| 0 <= k < nb.len() implies buf.subrange(p2, p2 + nl)[k] == nb[k] by {
            assert(sub[n1 + 1 + k] == e[n1 + 1 + k]);
        }
    }
    encode_utf8_valid_utf8(p@);
    encode_utf8_decode_utf8(p@);
    let p3 = p2 + nl;
    assert(buf.subrange(p3, p3 + 0) =~= Seq::<u8>::empty());
    assert(decode_utf8(Seq::<u8>::empty()) =~= Seq::<char>::empty());
}

/// Binding the first name and then the others to the empty value binds all.
proof fn lemma_requested_names_first(acc: Map<Seq<char>, Seq<char>>, ps: Seq<&str>)
    requires
        ps.len() > 0,
    ensures
        acc.insert(ps[0]@, Seq::<char>::empty()).union_prefer_right(
            requested_names(ps.drop_first()),
        ) == acc.union_prefer_right(requested_names(ps)),
{
    let tail = ps.drop_first();
    let p = ps[0];
    assert forall|k: Seq<char>| #[trigger] requested_names(ps).dom().contains(k) <==> (k == p@
        || requested_names(tail).dom().contains(k)) by {
        if requested_names(ps).dom().contains(k) && k != p@ {
            let i = choose|i: int| 0 <= i < ps.len() && ps[i]@ == k;
            assert(i != 0);
            assert(tail[i - 1] == ps[i]);
        }
        if requested_names(tail).dom().contains(k) {
            let i = choose|i: int| 0 <= i < tail.len() && tail[i]@ == k;
            assert(ps[i + 1] == tail[i]);
        }
        if k == p@ {
            assert(ps[0]@ == k);
        }
    }
    assert(acc.insert(p@, Seq::<char>::empty()).union_prefer_right(requested_names(tail))
        =~= acc.union_prefer_right(requested_names(ps)));
}

/// Reading the entries of `ps`, found at `pos` in `buf`, as name/value pairs
/// that fill the content exactly binds each name to the empty value.
#[verifier::spinoff_prover]
proof fn lemma_read_entries(
    buf: Seq<u8>,
    pos: int,
    read: int,
    content_len: int,
    acc: Map<Seq<char>, Seq<char>>,
    ps: Seq<&str>,
    at_eof: bool,
)
    requires
        0 <= pos,
        0 <= read,
        pos + request_content(ps).len() <= buf.len(),
        buf.subrange(pos, pos + request_content(ps).len()) == request_content(ps),
        read + request_content(ps).len() == content_len,
        forall|i: int| 0 <= i < ps.len() ==> name_bytes(#[trigger] ps[i]).len() <= 0xFFFF,
    ensures
        pairs_reply(buf, pos, read, content_len, 0, acc, at_eof) == (ReplyView::Done {
            values: acc.union_prefer_right(requested_names(ps)),
            consumed: (pos + request_content(ps).len()) as nat,
        }),
    decreases ps.len(),
{
    let c = request_content(ps);
    if ps.len() == 0 {
        assert(acc.union_prefer_right(requested_names(ps)) =~= acc);
    } else {
        let p = ps[0];
        let tail = ps.drop_first();
        let e = param_entry(p);
        let ct = request_content(tail);
        lemma_request_content_first(ps);
        assert(c == e + ct);
        assert(buf.subrange(pos, pos + e.len()) =~= e) by {
            assert forall|k: int| 0 <= k < e.len() implies buf.subrange(pos, pos + e.len())[k]
                == e[k] by {
                assert(buf.subrange(pos, pos + c.len())[k] == c[k]);
            }
        }
        assert(name_bytes(ps[0]).len() <= 0xFFFF);
        lemma_read_one_entry(buf, pos, read, content_len, acc, p, at_eof);
        let p3 = pos + e.len();
        assert(buf.subrange(p3, p3 + ct.len()) =~= ct) by {
            assert forall|k: int| 0 <= k < ct.len() implies buf.subrange(p3, p3 + ct.len())[k]
                == ct[k] by {
                assert(buf.subrange(pos, pos + c.len())[e.len() + k] == c[e.len() + k]);
            }
        }
        assert forall|i: int| 0 <= i < tail.len() implies name_bytes(#[trigger] tail[i]).len()
            <= 0xFFFF by {
            assert(tail[i] == ps[i + 1]);
        }
        let next_acc = acc.insert(p@, Seq::<char>::empty());
        lemma_read_entries(buf, p3, read + e.len(), content_len, next_acc, tail, at_eof);
        lemma_requested_names_first(acc, ps);
    }
}

/// An application that answers a get-values request by echoing its content
/// in a `FCGI_GET_VALUES_RESULT` record is read as binding every requested
/// name to the empty value: the request's content is a sequence of
/// name/value pairs, one for each parameter, with empty values.
pub proof fn lemma_request_content_reads_back(params: Seq<&str>, at_eof: bool)
    requires
        get_values_request_spec(params) is Ok,
    ensures
        ({
            let c = request_content(params);
            let reply = header_bytes(reply_header(c.len() as u16, 0)) + c;
            get_values_reply(reply, at_eof) == ReplyView::Done {
                values: requested_names(params),
                consumed: reply.len(),
            }
        }),
{
    let c = request_content(params);
    let h = reply_header(c.len() as u16, 0);
    let reply = header_bytes(h) + c;
    lemma_header_roundtrip(h);
    lemma_parse_header_prefix(header_bytes(h), c);
    lemma_request_content_holds_names(params);
    assert(reply.subrange(8, 8 + c.len() as int) =~= c);
    lemma_read_entries(reply, 8, 0, c.len() as int, Map::empty(), params, at_eof);
    assert(Map::<Seq<char>, Seq<char>>::empty().union_prefer_right(requested_names(params))
        =~= requested_names(params));
}


/// The reply has come to an end: values, a malformed reply, or an overrun.
pub open spec fn settled(v: ReplyView) -> bool {
    v is Done || v is Failed || v is Overrun
}

/// A compact length that can be read from `s` reads the same from any
/// longer sequence that starts with `s`.
proof fn lemma_read_compact_extend(s: Seq<u8>, t: Seq<u8>)
    requires
        read_compact(s) is Ok && read_compact(s)->Ok_0 is Some,
    ensures
        read_compact(s + t) == read_compact(s),
{
    let u = s + t;
    assert(u[0] == s[0]);
    if s[0] > 127 {
        assert(u[1] == s[1] && u[2] == s[2] && u[3] == s[3]);
    }
}

/// Pairs that settle within `buf` settle the same way whatever follows.
#[verifier::spinoff_prover]
proof fn lemma_pairs_reply_extend(
    buf: Seq<u8>,
    extra: Seq<u8>,
    pos: int,
    read: int,
    content_len: int,
    padding: int,
    acc: Map<Seq<char>, Seq<char>>,
    at_eof: bool,
)
    requires
        0 <= pos <= buf.len(),
        0 <= padding,
        settled(pairs_reply(buf, pos, read, content_len, padding, acc, false)),
    ensures
        pairs_reply(buf + extra, pos, read, content_len, padding, acc, at_eof) == pairs_reply(
            buf,
            pos,
            read,
            content_len,
            padding,
            acc,
            false,
        ),
    decreases if read < content_len { content_len - read } else { 0 },
{
    let ext = buf + extra;
    if read < content_len {
        assert(rest(ext, pos) =~= rest(buf, pos) + extra);
        lemma_read_compact_extend(rest(buf, pos), extra);
        let (name_len, n1) = read_compact(rest(buf, pos))->Ok_0->Some_0;
        let p1 = pos + n1;
        assert(rest(ext, p1) =~= rest(buf, p1) + extra);
        lemma_read_compact_extend(rest(buf, p1), extra);
        let (value_len, n2) = read_compact(rest(buf, p1))->Ok_0->Some_0;
        let p2 = p1 + n2;
        assert(ext.subrange(p2, p2 + name_len) =~= buf.subrange(p2, p2 + name_len));
        let p3 = p2 + name_len;
        if valid_utf8(buf.subrange(p2, p2 + name_len)) {
            assert(ext.subrange(p3, p3 + value_len) =~= buf.subrange(p3, p3 + value_len));
            if valid_utf8(buf.subrange(p3, p3 + value_len)) {
                let name = buf.subrange(p2, p2 + name_len);
                let value = buf.subrange(p3, p3 + value_len);
                lemma_pairs_reply_extend(
                    buf,
                    extra,
                    p3 + value_len,
                    read + compact_size(name_len) + compact_size(value_len) + name_len + value_len,
                    content_len,
                    padding,
                    acc.insert(decode_utf8(name), decode_utf8(value)),
                    at_eof,
                );
            }
        }
    }
}

/// A settled reply stays settled: the bytes that arrive after a reply has
/// been read to its end, or to its first defect, never change the outcome.
/// So the reader never depends on bytes beyond those it asked for.
pub proof fn lemma_settled_reply_extends(buf: Seq<u8>, extra: Seq<u8>, at_eof: bool)
    requires
        settled(get_values_reply(buf, false)),
    ensures
        get_values_reply(buf + extra, at_eof) == get_values_reply(buf, false),
{
    lemma_parse_header_prefix(buf, extra);
    let h = parse_header(buf);
    if h is Ok {
        let h = h->Ok_0;
        if h.ty == RecordTy::GetValuesResult && h.request_id == 0 {
            lemma_pairs_reply_extend(
                buf,
                extra,
                8,
                0,
                h.content_len as int,
                h.padding_len as int,
                Map::empty(),
                at_eof,
            );
        }
    }
}


/// A get-values request is one record: its first eight bytes parse as a
/// version-1 `FCGI_GET_VALUES` header with request ID 0 whose content and
/// padding lengths count exactly the bytes after the header, and the record
/// takes a multiple of eight bytes.
pub proof fn lemma_request_is_record(params: Seq<&str>)
    requires
        get_values_request_spec(params) is Ok,
    ensures
        ({
            let bytes = get_values_request_spec(params)->Ok_0;
            &&& parse_header(bytes) matches Ok(h)
            &&& h.version == Version::One
            &&& h.ty == RecordTy::GetValues
            &&& h.request_id == 0
            &&& h.content_len + h.padding_len == bytes.len() - 8
            &&& bytes.len() % 8 == 0
            &&& bytes.subrange(8 + h.content_len, bytes.len() as int) == zeros(h.padding_len as nat)
        }),
{
    let c = request_content(params);
    let h = request_header(c.len() as u16);
    let pad = zeros(auto_padding(c.len() as u16) as nat);
    let bytes = header_bytes(h) + c + pad;
    lemma_header_roundtrip(h);
    assert(bytes == header_bytes(h) + (c + pad));
    lemma_parse_header_prefix(header_bytes(h), c + pad);
    lemma_auto_padding_aligns(c.len() as u16);
    assert(bytes.subrange(8 + c.len() as int, bytes.len() as int) =~= pad);
}


// ---------------------------------------------------------------------------
// Replies with values
// ---------------------------------------------------------------------------

/// A name/value pair on the wire: the shortest compact forms of the name and
/// value lengths, then the name and the value.
pub open spec fn pair_bytes(name: Seq<u8>, value: Seq<u8>) -> Seq<u8> {
    compact_bytes(name.len() as u32) + compact_bytes(value.len() as u32) + name + value
}

/// Name/value pairs on the wire, one after the other.
pub open spec fn pairs_bytes(ps: Seq<(Seq<u8>, Seq<u8>)>) -> Seq<u8>
    decreases ps.len(),
{
    if ps.len() == 0 {
        Seq::empty()
    } else {
        pair_bytes(ps[0].0, ps[0].1) + pairs_bytes(ps.drop_first())
    }
}

/// Every name and value of the pairs is valid UTF-8.
pub open spec fn pairs_valid(ps: Seq<(Seq<u8>, Seq<u8>)>) -> bool {
    forall|i: int| 0 <= i < ps.len() ==> valid_utf8(#[trigger] ps[i].0) && valid_utf8(ps[i].1)
}

/// The map that binding the pairs in order makes of `acc`: each name to the
/// characters of its value, a later pair winning over an earlier one.
pub open spec fn pairs_map(acc: Map<Seq<char>, Seq<char>>, ps: Seq<(Seq<u8>, Seq<u8>)>) -> Map<
    Seq<char>,
    Seq<char>,
>
    decreases ps.len(),
{
    if ps.len() == 0 {
        acc
    } else {
        pairs_map(acc.insert(decode_utf8(ps[0].0), decode_utf8(ps[0].1)), ps.drop_first())
    }
}

/// A whole `FCGI_GET_VALUES_RESULT` record with request ID 0 that carries the
/// pairs `ps` and `padding` zero bytes of padding.
pub open spec fn values_reply(ps: Seq<(Seq<u8>, Seq<u8>)>, padding: u8) -> Seq<u8> {
    let c = pairs_bytes(ps);
    header_bytes(reply_header(c.len() as u16, padding)) + c + zeros(padding as nat)
}

/// A part of `whole` that lies inside a known stretch `e` of it is the
/// matching part of `e`.
proof fn lemma_part_of_stretch(whole: Seq<u8>, pos: int, e: Seq<u8>, off: int, len: int)
    requires
        0 <= pos,
        pos + e.len() <= whole.len(),
        whole.subrange(pos, pos + e.len()) == e,
        0 <= off,
        0 <= len,
        off + len <= e.len(),
    ensures
        whole.subrange(pos + off, pos + off + len) == e.subrange(off, off + len),
{
    assert forall|j: int| 0 <= j < len implies #[trigger] whole.subrange(pos + off, pos + off + len)[j]
        == e.subrange(off, off + len)[j] by {
        assert(whole.subrange(pos, pos + e.len())[off + j] == e[off + j]);
    }
    assert(whole.subrange(pos + off, pos + off + len) =~= e.subrange(off, off + len));
}

/// Reading a compact length at `pos` from the first `k` bytes of `whole`,
/// where the shortest form of `v` stands at `pos`: nothing where no byte of
/// it has arrived, a truncation where some have, else `v` and its size.
proof fn lemma_read_compact_of_prefix(v: u32, whole: Seq<u8>, pos: int, k: int)
    requires
        v <= 0xFFFF,
        0 <= pos <= k <= whole.len(),
        pos + compact_bytes(v).len() <= whole.len(),
        whole.subrange(pos, pos + compact_bytes(v).len()) == compact_bytes(v),
    ensures
        compact_bytes(v).len() == compact_size(v),
        ({
            let s = rest(whole.subrange(0, k), pos);
            let n = compact_bytes(v).len() as int;
            &&& k == pos ==> read_compact(s) == Ok::<Option<(u32, usize)>, CompactError>(None)
            &&& pos < k < pos + n ==> read_compact(s) == Err::<Option<(u32, usize)>, CompactError>(
                CompactError::Truncated { got: (k - pos) as usize },
            )
            &&& k >= pos + n ==> read_compact(s) == Ok::<Option<(u32, usize)>, CompactError>(
                Some((v, n as usize)),
            )
        }),
{
    let cb = compact_bytes(v);
    let n = cb.len() as int;
    let s = rest(whole.subrange(0, k), pos);
    assert(s =~= whole.subrange(pos, k));
    if k > pos {
        assert(s[0] == whole.subrange(pos, pos + n)[0]);
        assert(s[0] == cb[0]);
    }
    if k >= pos + n {
        let tail = s.subrange(n, s.len() as int);
        assert forall|j: int| 0 <= j < n implies s[j] == cb[j] by {
            assert(whole.subrange(pos, pos + n)[j] == cb[j]);
        }
        assert(s =~= cb + tail);
        lemma_compact_roundtrip(v, tail);
    } else if k > pos {
        let c0: u32 = ((v / 0x100_0000) % 128 + 128) as u32;
        assert(c0 > 127);
    }
}

/// The offsets within a pair on the wire: the ends of its name length,
/// value length, name and value.
pub open spec fn pair_ends(name: Seq<u8>, value: Seq<u8>) -> (int, int, int, int) {
    let e1 = compact_bytes(name.len() as u32).len() as int;
    let e2 = e1 + compact_bytes(value.len() as u32).len();
    let e3 = e2 + name.len();
    (e1, e2, e3, e3 + value.len())
}

/// What reading a pair at `pos` comes to, from the first `k` bytes of
/// `whole`, where the pair stands at `pos` with lengths in shortest form: at
/// its start and after its name length, a single byte or, at the end of the
/// stream, a missing length; inside a length, the name or the value, the
/// bytes up to the end of that item; a name or value that is not UTF-8 is
/// refused with its bytes; a whole valid pair is bound and passed.
#[verifier::spinoff_prover]
proof fn lemma_pair_at(
    whole: Seq<u8>,
    k: int,
    pos: int,
    read: int,
    content_len: int,
    padding: int,
    acc: Map<Seq<char>, Seq<char>>,
    name: Seq<u8>,
    value: Seq<u8>,
    at_eof: bool,
)
    requires
        0 <= pos <= k <= whole.len(),
        0 <= read < content_len,
        name.len() <= 0xFFFF,
        value.len() <= 0xFFFF,
        pos + pair_bytes(name, value).len() <= whole.len(),
        whole.subrange(pos, pos + pair_bytes(name, value).len()) == pair_bytes(name, value),
    ensures
        ({
            let buf = whole.subrange(0, k);
            let (e1, e2, e3, e4) = pair_ends(name, value);
            let r = pairs_reply(buf, pos, read, content_len, padding, acc, at_eof);
            &&& e4 == pair_bytes(name, value).len()
            &&& k == pos ==> r == (if at_eof {
                ReplyView::Failed(ErrorView::MissingNameLen)
            } else {
                ReplyView::ReadUpToOne
            })
            &&& pos < k < pos + e1 ==> r == ReplyView::ReadExact((pos + e1 - k) as nat)
            &&& k == pos + e1 ==> r == (if at_eof {
                ReplyView::Failed(ErrorView::MissingValueLen)
            } else {
                ReplyView::ReadUpToOne
            })
            &&& pos + e1 < k < pos + e2 ==> r == ReplyView::ReadExact((pos + e2 - k) as nat)
            &&& pos + e2 <= k < pos + e3 ==> r == ReplyView::ReadExact((pos + e3 - k) as nat)
            &&& k >= pos + e3 && !valid_utf8(name) ==> r == ReplyView::Failed(
                ErrorView::Utf8 { bytes: name },
            )
            &&& pos + e3 <= k < pos + e4 && valid_utf8(name) ==> r == ReplyView::ReadExact(
                (pos + e4 - k) as nat,
            )
            &&& k >= pos + e4 && valid_utf8(name) && !valid_utf8(value) ==> r == ReplyView::Failed(
                ErrorView::Utf8 { bytes: value },
            )
            &&& k >= pos + e4 && valid_utf8(name) && valid_utf8(value) ==> r == pairs_reply(
                buf,
                pos + e4,
                read + e4,
                content_len,
                padding,
                acc.insert(decode_utf8(name), decode_utf8(value)),
                at_eof,
            )
        }),
{
    let buf = whole.subrange(0, k);
    let nl = name.len() as u32;
    let vl = value.len() as u32;
    lemma_pair_parts(whole, pos, name, value);
    let p1 = pos + compact_bytes(nl).len();
    let p2 = p1 + compact_bytes(vl).len();
    let p3 = p2 + nl;
    lemma_read_compact_of_prefix(nl, whole, pos, k);
    if k >= p1 {
        lemma_read_compact_of_prefix(vl, whole, p1, k);
        assert(rest(buf, p1) == rest(whole.subrange(0, k), p1));
        if k >= p2 {
            if k >= p3 {
                assert(buf.subrange(p2, p3) =~= whole.subrange(p2, p3));
                if k >= p3 + vl {
                    assert(buf.subrange(p3, p3 + vl) =~= whole.subrange(p3, p3 + vl));
                }
            }
        }
    }
}

/// One pair at `pos` of `whole`, read from the first `k` bytes: once it has
/// arrived whole, the reading moves past it with its name bound; before, it
/// asks for no byte past the pair's end.
proof fn lemma_pair_step(
    whole: Seq<u8>,
    k: int,
    pos: int,
    read: int,
    content_len: int,
    padding: int,
    acc: Map<Seq<char>, Seq<char>>,
    name: Seq<u8>,
    value: Seq<u8>,
    at_eof: bool,
)
    requires
        0 <= pos <= k <= whole.len(),
        0 <= read,
        read + pair_bytes(name, value).len() <= content_len,
        name.len() <= 0xFFFF,
        value.len() <= 0xFFFF,
        pos + pair_bytes(name, value).len() <= whole.len(),
        whole.subrange(pos, pos + pair_bytes(name, value).len()) == pair_bytes(name, value),
        valid_utf8(name),
        valid_utf8(value),
    ensures
        ({
            let buf = whole.subrange(0, k);
            let e = pair_bytes(name, value);
            let r = pairs_reply(buf, pos, read, content_len, padding, acc, at_eof);
            &&& k >= pos + e.len() ==> r == pairs_reply(
                buf,
                pos + e.len(),
                read + e.len(),
                content_len,
                padding,
                acc.insert(decode_utf8(name), decode_utf8(value)),
                at_eof,
            )
            &&& k < pos + e.len() ==> {
                &&& r matches ReplyView::ReadExact(n) ==> k + n <= pos + e.len()
                &&& r is ReadUpToOne ==> k < pos + e.len()
                &&& !(r is Done)
            }
        }),
{
    lemma_pair_at(whole, k, pos, read, content_len, padding, acc, name, value, at_eof);
}

/// Where the bytes of a pair stand in `whole`.
proof fn lemma_pair_parts(whole: Seq<u8>, pos: int, name: Seq<u8>, value: Seq<u8>)
    requires
        0 <= pos,
        name.len() <= 0xFFFF,
        value.len() <= 0xFFFF,
        pos + pair_bytes(name, value).len() <= whole.len(),
        whole.subrange(pos, pos + pair_bytes(name, value).len()) == pair_bytes(name, value),
    ensures
        ({
            let cbn = compact_bytes(name.len() as u32);
            let cbv = compact_bytes(value.len() as u32);
            let p1 = pos + cbn.len();
            let p2 = p1 + cbv.len();
            let p3 = p2 + name.len();
            &&& pair_bytes(name, value).len() == p3 + value.len() - pos
            &&& whole.subrange(pos, p1) == cbn
            &&& whole.subrange(p1, p2) == cbv
            &&& whole.subrange(p2, p3) == name
            &&& whole.subrange(p3, p3 + value.len()) == value
        }),
{
    let e = pair_bytes(name, value);
    let cbn = compact_bytes(name.len() as u32);
    let cbv = compact_bytes(value.len() as u32);
    assert(e == cbn + cbv + name + value);
    let ln = cbn.len() as int;
    let lv = cbv.len() as int;
    let nl = name.len() as int;
    lemma_part_of_stretch(whole, pos, e, 0, ln);
    assert(e.subrange(0, ln) =~= cbn);
    lemma_part_of_stretch(whole, pos, e, ln, lv);
    assert(e.subrange(ln, ln + lv) =~= cbv);
    lemma_part_of_stretch(whole, pos, e, ln + lv, nl);
    assert(e.subrange(ln + lv, ln + lv + nl) =~= name);
    lemma_part_of_stretch(whole, pos, e, ln + lv + nl, value.len() as int);
    assert(e.subrange(ln + lv + nl, e.len() as int) =~= value);
}

/// Reading pairs `ps`, found at `pos` of `whole` and followed by `padding`
/// bytes that end `whole`, from the first `k` bytes: the whole of it gives
/// the bound values; a part never asks for a byte past the end.
#[verifier::spinoff_prover]
proof fn lemma_pairs_prefix(
    whole: Seq<u8>,
    k: int,
    pos: int,
    read: int,
    content_len: int,
    padding: int,
    acc: Map<Seq<char>, Seq<char>>,
    ps: Seq<(Seq<u8>, Seq<u8>)>,
    at_eof: bool,
)
    requires
        0 <= pos <= k <= whole.len(),
        0 <= read,
        0 <= padding,
        content_len <= 0xFFFF,
        read + pairs_bytes(ps).len() == content_len,
        whole.len() == pos + pairs_bytes(ps).len() + padding,
        whole.subrange(pos, pos + pairs_bytes(ps).len()) == pairs_bytes(ps),
        pairs_valid(ps),
    ensures
        ({
            let r = pairs_reply(whole.subrange(0, k), pos, read, content_len, padding, acc, at_eof);
            &&& k == whole.len() ==> r == (ReplyView::Done {
                values: pairs_map(acc, ps),
                consumed: whole.len(),
            })
            &&& r matches ReplyView::ReadExact(n) ==> k + n <= whole.len()
            &&& r is ReadUpToOne ==> k < whole.len() - padding
            &&& r is Done ==> k == whole.len()
        }),
    decreases ps.len(),
{
    let buf = whole.subrange(0, k);
    let pb = pairs_bytes(ps);
    if ps.len() > 0 {
        let name = ps[0].0;
        let value = ps[0].1;
        let e = pair_bytes(name, value);
        let tail = ps.drop_first();
        let pt = pairs_bytes(tail);
        assert(pb == e + pt);
        assert(valid_utf8(ps[0].0));
        assert(compact_bytes(name.len() as u32).len() >= 1);
        assert(name.len() <= e.len() && value.len() <= e.len());
        lemma_part_of_stretch(whole, pos, pb, 0, e.len() as int);
        assert(pb.subrange(0, e.len() as int) =~= e);
        lemma_pair_step(whole, k, pos, read, content_len, padding, acc, name, value, at_eof);
        if k >= pos + e.len() {
            lemma_part_of_stretch(whole, pos, pb, e.len() as int, pt.len() as int);
            assert(pb.subrange(e.len() as int, e.len() + pt.len() as int) =~= pt);
            assert forall|i: int| 0 <= i < tail.len() implies valid_utf8(#[trigger] tail[i].0)
                && valid_utf8(tail[i].1) by {
                assert(tail[i] == ps[i + 1]);
            }
            assert(pairs_valid(tail));
            lemma_pairs_prefix(
                whole,
                k,
                pos + e.len(),
                read + e.len(),
                content_len,
                padding,
                acc.insert(decode_utf8(name), decode_utf8(value)),
                tail,
                at_eof,
            );
        }
    }
}

/// A get-values reply of one record with request ID 0, whose content is
/// name/value pairs of valid UTF-8 with their lengths in shortest form,
/// followed by any padding, is read as the map of its pairs, a later pair
/// of a name winning, and takes all its bytes.
pub proof fn lemma_values_reply(ps: Seq<(Seq<u8>, Seq<u8>)>, padding: u8, at_eof: bool)
    requires
        pairs_valid(ps),
        pairs_bytes(ps).len() <= 0xFFFF,
    ensures
        get_values_reply(values_reply(ps, padding), at_eof) == (ReplyView::Done {
            values: pairs_map(Map::empty(), ps),
            consumed: values_reply(ps, padding).len(),
        }),
{
    let r = values_reply(ps, padding);
    lemma_reply_prefix(ps, padding, r.len() as int, at_eof);
    assert(r.subrange(0, r.len() as int) =~= r);
}

/// Reading a prefix of such a reply, the reader never asks for a byte past
/// the record's end, asks for a single byte only inside the content, and
/// finishes only once the whole record has arrived.
pub proof fn lemma_reply_prefix(ps: Seq<(Seq<u8>, Seq<u8>)>, padding: u8, k: int, at_eof: bool)
    requires
        pairs_valid(ps),
        pairs_bytes(ps).len() <= 0xFFFF,
        0 <= k <= values_reply(ps, padding).len(),
    ensures
        ({
            let whole = values_reply(ps, padding);
            let r = get_values_reply(whole.subrange(0, k), at_eof);
            &&& k == whole.len() ==> r == (ReplyView::Done {
                values: pairs_map(Map::empty(), ps),
                consumed: whole.len(),
            })
            &&& r matches ReplyView::ReadExact(n) ==> k + n <= whole.len()
            &&& r is ReadUpToOne ==> k < 8 + pairs_bytes(ps).len()
            &&& r is Done ==> k == whole.len()
        }),
{
    let c = pairs_bytes(ps);
    let h = reply_header(c.len() as u16, padding);
    let whole = values_reply(ps, padding);
    let buf = whole.subrange(0, k);
    assert(whole == header_bytes(h) + (c + zeros(padding as nat)));
    if k >= 8 {
        assert(buf =~= header_bytes(h) + buf.subrange(8, k));
        assert(whole.subrange(0, 8) =~= header_bytes(h));
        lemma_header_roundtrip(h);
        lemma_parse_header_prefix(header_bytes(h), buf.subrange(8, k));
        assert(whole.subrange(8, 8 + c.len() as int) =~= c);
        lemma_pairs_prefix(
            whole,
            k,
            8,
            0,
            c.len() as int,
            padding as int,
            Map::empty(),
            ps,
            at_eof,
        );
    }
}


// ---------------------------------------------------------------------------
// The reply header
// ---------------------------------------------------------------------------

/// Until the eight header bytes have arrived, the reader asks for exactly
/// the missing ones.
pub proof fn lemma_reply_waits_for_header(buf: Seq<u8>, at_eof: bool)
    requires
        buf.len() < 8,
    ensures
        get_values_reply(buf, at_eof) == ReplyView::ReadExact((8 - buf.len()) as nat),
{
}

/// A reply whose first byte is not version 1 is refused for its version,
/// whatever follows.
pub proof fn lemma_reply_refuses_version(buf: Seq<u8>, at_eof: bool)
    requires
        buf.len() >= 8,
        buf[0] != 1,
    ensures
        get_values_reply(buf, at_eof) == ReplyView::Failed(
            ErrorView::RecordHeader(RecordHeaderError::UnknownVersion(buf[0])),
        ),
{
}

/// A version-1 reply whose type byte names no record type is refused for it.
pub proof fn lemma_reply_refuses_type_byte(buf: Seq<u8>, at_eof: bool)
    requires
        buf.len() >= 8,
        buf[0] == 1,
        buf[1] == 0 || buf[1] > 0x0B,
    ensures
        get_values_reply(buf, at_eof) == ReplyView::Failed(
            ErrorView::RecordHeader(RecordHeaderError::UnknownTy(buf[1])),
        ),
{
}

/// A version-1 record of any type `t` other than `FCGI_GET_VALUES_RESULT`
/// is refused at its header as an unexpected record, whatever its request
/// ID, lengths and content: an `FCGI_UNKNOWN_TYPE` answer among them.
pub proof fn lemma_reply_refuses_other_type(buf: Seq<u8>, t: RecordTy, at_eof: bool)
    requires
        buf.len() >= 8,
        buf[0] == 1,
        buf[1] == ty_byte(t),
        t != RecordTy::GetValuesResult,
    ensures
        get_values_reply(buf, at_eof) == ReplyView::Failed(
            ErrorView::UnexpectedRecord { got: t, expected: RecordTy::GetValuesResult },
        ),
{
    crate::wire::lemma_ty_byte_roundtrip(t);
}

/// A version-1 `FCGI_GET_VALUES_RESULT` record for another request than
/// request 0 is refused for its request ID, read big-endian from bytes 2
/// and 3.
pub proof fn lemma_reply_refuses_request_id(buf: Seq<u8>, at_eof: bool)
    requires
        buf.len() >= 8,
        buf[0] == 1,
        buf[1] == 0x0A,
        buf[2] != 0 || buf[3] != 0,
    ensures
        get_values_reply(buf, at_eof) == ReplyView::Failed(
            ErrorView::UnexpectedRequestId { got: (buf[2] * 256 + buf[3]) as u16, expected: 0 },
        ),
{
}

/// The reader goes past the header, to read pairs or padding or to finish,
/// only for a version-1 `FCGI_GET_VALUES_RESULT` record of request 0; and
/// what it finishes with lies within the bytes received, after the header
/// and at least the announced padding.
pub proof fn lemma_reply_accepts_only_values_result(buf: Seq<u8>, at_eof: bool)
    ensures
        ({
            let r = get_values_reply(buf, at_eof);
            (r is Done || r is ReadUpToOne || r is Overrun || (r is ReadExact && buf.len() >= 8)
                || r == ReplyView::Failed(ErrorView::MissingNameLen) || r == ReplyView::Failed(
                ErrorView::MissingValueLen,
            ) || r matches ReplyView::Failed(ErrorView::Utf8 { .. })) ==> {
                &&& buf.len() >= 8
                &&& buf[0] == 1
                &&& buf[1] == 0x0A
                &&& buf[2] == 0
                &&& buf[3] == 0
            }
        }),
        get_values_reply(buf, at_eof) matches ReplyView::Done { consumed, .. } ==> 8 + buf[6]
            <= consumed <= buf.len(),
{
    let r = get_values_reply(buf, at_eof);
    if buf.len() >= 8 {
        let h = parse_header(buf);
        if h is Ok && h->Ok_0.ty == RecordTy::GetValuesResult && h->Ok_0.request_id == 0 {
            lemma_pairs_reply_bounds(
                buf,
                8,
                0,
                h->Ok_0.content_len as int,
                h->Ok_0.padding_len as int,
                Map::empty(),
                at_eof,
            );
        }
    }
}

/// Reading pairs from `pos` finishes after `pos` and the padding, within
/// the bytes received, and fails only with the pair errors.
proof fn lemma_pairs_reply_bounds(
    buf: Seq<u8>,
    pos: int,
    read: int,
    content_len: int,
    padding: int,
    acc: Map<Seq<char>, Seq<char>>,
    at_eof: bool,
)
    requires
        0 <= pos <= buf.len(),
        0 <= padding,
    ensures
        ({
            let r = pairs_reply(buf, pos, read, content_len, padding, acc, at_eof);
            &&& r matches ReplyView::Done { consumed, .. } ==> pos + padding <= consumed <= buf.len()
            &&& r is Failed ==> (r == ReplyView::Failed(ErrorView::MissingNameLen) || r
                == ReplyView::Failed(ErrorView::MissingValueLen) || r matches ReplyView::Failed(
                ErrorView::Utf8 { .. },
            ))
        }),
    decreases if read < content_len { content_len - read } else { 0 },
{
    if read < content_len {
        match read_compact(rest(buf, pos)) {
            Ok(Some((name_len, n1))) => {
                let p1 = pos + n1;
                match read_compact(rest(buf, p1)) {
                    Ok(Some((value_len, n2))) => {
                        let p2 = p1 + n2;
                        let p3 = p2 + name_len;
                        if buf.len() >= p3 + value_len && valid_utf8(buf.subrange(p2, p3))
                            && valid_utf8(buf.subrange(p3, p3 + value_len)) {
                            lemma_pairs_reply_bounds(
                                buf,
                                p3 + value_len,
                                read + compact_size(name_len) + compact_size(value_len) + name_len
                                    + value_len,
                                content_len,
                                padding,
                                acc.insert(
                                    decode_utf8(buf.subrange(p2, p3)),
                                    decode_utf8(buf.subrange(p3, p3 + value_len)),
                                ),
                                at_eof,
                            );
                        }
                    },
                    _ => {},
                }
            },
            _ => {},
        }
    }
}


// ---------------------------------------------------------------------------
// Replies pair by pair
// ---------------------------------------------------------------------------

/// Reading valid pairs `ps`, all received, at `pos` binds them in order and
/// moves past them.
#[verifier::spinoff_prover]
proof fn lemma_walk_pairs(
    whole: Seq<u8>,
    k: int,
    pos: int,
    read: int,
    content_len: int,
    padding: int,
    acc: Map<Seq<char>, Seq<char>>,
    ps: Seq<(Seq<u8>, Seq<u8>)>,
    at_eof: bool,
)
    requires
        0 <= pos,
        pos + pairs_bytes(ps).len() <= k <= whole.len(),
        whole.subrange(pos, pos + pairs_bytes(ps).len()) == pairs_bytes(ps),
        pairs_valid(ps),
        0 <= read,
        read + pairs_bytes(ps).len() <= content_len,
        content_len <= 0xFFFF,
    ensures
        pairs_reply(whole.subrange(0, k), pos, read, content_len, padding, acc, at_eof)
            == pairs_reply(
            whole.subrange(0, k),
            pos + pairs_bytes(ps).len(),
            read + pairs_bytes(ps).len(),
            content_len,
            padding,
            pairs_map(acc, ps),
            at_eof,
        ),
    decreases ps.len(),
{
    if ps.len() > 0 {
        let pb = pairs_bytes(ps);
        let name = ps[0].0;
        let value = ps[0].1;
        let e = pair_bytes(name, value);
        let tail = ps.drop_first();
        let pt = pairs_bytes(tail);
        assert(pb == e + pt);
        assert(valid_utf8(ps[0].0));
        assert(compact_bytes(name.len() as u32).len() >= 1);
        assert(name.len() <= e.len() && value.len() <= e.len());
        lemma_part_of_stretch(whole, pos, pb, 0, e.len() as int);
        assert(pb.subrange(0, e.len() as int) =~= e);
        lemma_pair_at(whole, k, pos, read, content_len, padding, acc, name, value, at_eof);
        lemma_part_of_stretch(whole, pos, pb, e.len() as int, pt.len() as int);
        assert(pb.subrange(e.len() as int, e.len() + pt.len() as int) =~= pt);
        assert forall|i: int| 0 <= i < tail.len() implies valid_utf8(#[trigger] tail[i].0)
            && valid_utf8(tail[i].1) by {
            assert(tail[i] == ps[i + 1]);
        }
        lemma_walk_pairs(
            whole,
            k,
            pos + e.len(),
            read + e.len(),
            content_len,
            padding,
            acc.insert(decode_utf8(name), decode_utf8(value)),
            tail,
            at_eof,
        );
    }
}

/// A get-values reply record of request 0 whose content starts with valid
/// pairs `ps` (lengths in shortest form) and then a pair of `name` and
/// `value`, followed by any bytes, read from its first `k` bytes once `ps`
/// has arrived:
/// - at the start of the pair and after its name length, the reader asks
///   for one byte, and where the stream has ended reports the missing name
///   or value length;
/// - inside a length, the name or the value, it asks for exactly the bytes
///   up to the end of that item;
/// - a name, or else a value, that is not UTF-8 is refused with its bytes;
/// - once the valid pair has arrived, a pair count past the content length
///   is an overrun, and a count that meets it leads to the padding: the
///   reader asks for the rest of the padding, then finishes with the pairs
///   bound in order, the last pair winning, after the padding.
#[verifier::spinoff_prover]
pub proof fn lemma_reply_at_pair(
    ps: Seq<(Seq<u8>, Seq<u8>)>,
    name: Seq<u8>,
    value: Seq<u8>,
    tail: Seq<u8>,
    content_len: u16,
    padding: u8,
    k: int,
    at_eof: bool,
)
    requires
        pairs_valid(ps),
        pairs_bytes(ps).len() < content_len,
        name.len() <= 0xFFFF,
        value.len() <= 0xFFFF,
        8 + pairs_bytes(ps).len() <= k <= 8 + pairs_bytes(ps).len() + pair_bytes(name, value).len()
            + tail.len(),
    ensures
        ({
            let whole = header_bytes(reply_header(content_len, padding)) + pairs_bytes(ps)
                + pair_bytes(name, value) + tail;
            let pos = 8 + pairs_bytes(ps).len();
            let (e1, e2, e3, e4) = pair_ends(name, value);
            let count = pairs_bytes(ps).len() + e4;
            let r = get_values_reply(whole.subrange(0, k), at_eof);
            &&& k == pos ==> r == (if at_eof {
                ReplyView::Failed(ErrorView::MissingNameLen)
            } else {
                ReplyView::ReadUpToOne
            })
            &&& pos < k < pos + e1 ==> r == ReplyView::ReadExact((pos + e1 - k) as nat)
            &&& k == pos + e1 ==> r == (if at_eof {
                ReplyView::Failed(ErrorView::MissingValueLen)
            } else {
                ReplyView::ReadUpToOne
            })
            &&& pos + e1 < k < pos + e2 ==> r == ReplyView::ReadExact((pos + e2 - k) as nat)
            &&& pos + e2 <= k < pos + e3 ==> r == ReplyView::ReadExact((pos + e3 - k) as nat)
            &&& k >= pos + e3 && !valid_utf8(name) ==> r == ReplyView::Failed(
                ErrorView::Utf8 { bytes: name },
            )
            &&& pos + e3 <= k < pos + e4 && valid_utf8(name) ==> r == ReplyView::ReadExact(
                (pos + e4 - k) as nat,
            )
            &&& k >= pos + e4 && valid_utf8(name) && !valid_utf8(value) ==> r == ReplyView::Failed(
                ErrorView::Utf8 { bytes: value },
            )
            &&& k >= pos + e4 && valid_utf8(name) && valid_utf8(value) && count > content_len ==> r
                == ReplyView::Overrun
            &&& k >= pos + e4 && valid_utf8(name) && valid_utf8(value) && count == content_len ==> r
                == (if k < pos + e4 + padding {
                ReplyView::ReadExact((pos + e4 + padding - k) as nat)
            } else {
                ReplyView::Done {
                    values: pairs_map(Map::empty(), ps).insert(
                        decode_utf8(name),
                        decode_utf8(value),
                    ),
                    consumed: (pos + e4 + padding) as nat,
                }
            })
        }),
{
    let h = reply_header(content_len, padding);
    let pb = pairs_bytes(ps);
    let e = pair_bytes(name, value);
    let whole = header_bytes(h) + pb + e + tail;
    let buf = whole.subrange(0, k);
    let pos = 8 + pb.len() as int;
    assert(buf =~= header_bytes(h) + buf.subrange(8, k));
    lemma_header_roundtrip(h);
    lemma_parse_header_prefix(header_bytes(h), buf.subrange(8, k));
    assert(whole.subrange(8, pos) =~= pb);
    assert(whole.subrange(pos, pos + e.len() as int) =~= e);
    lemma_walk_pairs(
        whole,
        k,
        8,
        0,
        content_len as int,
        padding as int,
        Map::empty(),
        ps,
        at_eof,
    );
    lemma_pair_at(
        whole,
        k,
        pos,
        pb.len() as int,
        content_len as int,
        padding as int,
        pairs_map(Map::empty(), ps),
        name,
        value,
        at_eof,
    );
}


/// A single pair at offset 8 whose lengths were read as `name_len` (taking
/// four bytes) and `value_len` (taking `n2` bytes), counted by value, is
/// bound, and the padding then ends the reply.
#[verifier::spinoff_prover]
proof fn lemma_long_first_pair(
    buf: Seq<u8>,
    content_len: int,
    padding: int,
    name: Seq<u8>,
    value: Seq<u8>,
    n2: int,
    at_eof: bool,
)
    requires
        0 <= padding,
        name.len() <= 127,
        n2 == compact_size(value.len() as u32),
        value.len() <= 0xFFFF,
        content_len == 1 + n2 + name.len() + value.len(),
        buf.len() == 12 + n2 + name.len() + value.len() + padding,
        read_compact(rest(buf, 8)) == Ok::<Option<(u32, usize)>, CompactError>(
            Some((name.len() as u32, 4usize)),
        ),
        read_compact(rest(buf, 12)) == Ok::<Option<(u32, usize)>, CompactError>(
            Some((value.len() as u32, n2 as usize)),
        ),
        buf.subrange(12 + n2, 12 + n2 + name.len()) == name,
        buf.subrange(12 + n2 + name.len(), 12 + n2 + name.len() + value.len()) == value,
        valid_utf8(name),
        valid_utf8(value),
    ensures
        pairs_reply(buf, 8, 0, content_len, padding, Map::empty(), at_eof) == (ReplyView::Done {
            values: Map::<Seq<char>, Seq<char>>::empty().insert(
                decode_utf8(name),
                decode_utf8(value),
            ),
            consumed: buf.len(),
        }),
{
    let end = 12 + n2 + name.len() + value.len();
    let acc1 = Map::<Seq<char>, Seq<char>>::empty().insert(decode_utf8(name), decode_utf8(value));
    assert(compact_size(name.len() as u32) == 1);
    assert(pairs_reply(buf, end, content_len, content_len, padding, acc1, at_eof) == (ReplyView::Done {
        values: acc1,
        consumed: buf.len(),
    }));
}

/// A reply of one pair whose name length is sent in the four-byte form and
/// whose content length counts that length as one byte.
pub open spec fn long_name_len_reply(name: Seq<u8>, value: Seq<u8>, padding: u8) -> Seq<u8> {
    let content_len = (1 + compact_bytes(value.len() as u32).len() + name.len() + value.len()) as u16;
    header_bytes(reply_header(content_len, padding)) + seq![0x80u8, 0u8, 0u8, name.len() as u8]
        + compact_bytes(value.len() as u32) + name + value + zeros(padding as nat)
}

/// Where the parts of such a reply stand.
#[verifier::spinoff_prover]
proof fn lemma_long_name_len_layout(name: Seq<u8>, value: Seq<u8>, padding: u8)
    requires
        name.len() <= 127,
        1 + compact_bytes(value.len() as u32).len() + name.len() + value.len() <= 0xFFFF,
    ensures
        ({
            let whole = long_name_len_reply(name, value, padding);
            let cbv = compact_bytes(value.len() as u32);
            let n2 = cbv.len() as int;
            let content_len = (1 + cbv.len() + name.len() + value.len()) as u16;
            &&& n2 == compact_size(value.len() as u32)
            &&& parse_header(whole) == Ok::<RecordHeader, RecordHeaderError>(
                reply_header(content_len, padding),
            )
            &&& whole.len() == 12 + n2 + name.len() + value.len() + padding
            &&& read_compact(rest(whole, 8)) == Ok::<Option<(u32, usize)>, CompactError>(
                Some((name.len() as u32, 4usize)),
            )
            &&& read_compact(rest(whole, 12)) == Ok::<Option<(u32, usize)>, CompactError>(
                Some((value.len() as u32, n2 as usize)),
            )
            &&& whole.subrange(12 + n2, 12 + n2 + name.len()) == name
            &&& whole.subrange(12 + n2 + name.len(), 12 + n2 + name.len() + value.len()) == value
        }),
{
    let nl = name.len() as u32;
    let vl = value.len() as u32;
    let cbv = compact_bytes(vl);
    let content_len = (1 + cbv.len() + name.len() + value.len()) as u16;
    let h = reply_header(content_len, padding);
    let long = seq![0x80u8, 0u8, 0u8, name.len() as u8];
    let body = long + cbv + name + value + zeros(padding as nat);
    let whole = long_name_len_reply(name, value, padding);
    assert(whole =~= header_bytes(h) + body);
    lemma_header_roundtrip(h);
    lemma_parse_header_prefix(header_bytes(h), body);
    let r0 = rest(whole, 8);
    assert(r0 =~= body);
    assert(r0[0] == 0x80u8 && r0[1] == 0u8 && r0[2] == 0u8 && r0[3] == name.len() as u8);
    let r1 = rest(whole, 12);
    let t1 = name + value + zeros(padding as nat);
    assert(r1 =~= cbv + t1);
    lemma_compact_roundtrip(vl, t1);
    let p2 = 12 + cbv.len() as int;
    assert(whole.subrange(p2, p2 + nl) =~= name);
    assert(whole.subrange(p2 + nl, p2 + nl + vl) =~= value);
}

/// The content length counts each length by the size of its shortest form,
/// not by the bytes it was sent in: a reply whose one pair has a name length
/// below 128 sent in the four-byte form, and whose content length counts
/// that length as one byte, is read as that pair, taking all its bytes.
#[verifier::spinoff_prover]
pub proof fn lemma_reply_counts_lengths_by_value(
    name: Seq<u8>,
    value: Seq<u8>,
    padding: u8,
    at_eof: bool,
)
    requires
        valid_utf8(name),
        valid_utf8(value),
        name.len() <= 127,
        1 + compact_bytes(value.len() as u32).len() + name.len() + value.len() <= 0xFFFF,
    ensures
        get_values_reply(long_name_len_reply(name, value, padding), at_eof) == (ReplyView::Done {
            values: Map::<Seq<char>, Seq<char>>::empty().insert(
                decode_utf8(name),
                decode_utf8(value),
            ),
            consumed: long_name_len_reply(name, value, padding).len(),
        }),
{
    let whole = long_name_len_reply(name, value, padding);
    let cbv = compact_bytes(value.len() as u32);
    let content_len = (1 + cbv.len() + name.len() + value.len()) as u16;
    lemma_long_name_len_layout(name, value, padding);
    lemma_long_first_pair(
        whole,
        content_len as int,
        padding as int,
        name,
        value,
        cbv.len() as int,
        at_eof,
    );
}

} // verus!
