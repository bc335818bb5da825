use fastcgi::conn::first_param_with_null;
use fastcgi::fcgi::get_values_request;
use fastcgi::fcgi::read_get_values_reply;
use fastcgi::fcgi::Error;
use fastcgi::fcgi::ReplyProgress;
use fastcgi::spec::PARAM_MAX_CONNS;
use fastcgi::spec::PARAM_MAX_REQS;
use fastcgi::spec::PARAM_MPXS_CONNS;
use fastcgi::value_map::ValueMap;
use fastcgi::wire::RecordHeaderError;
use fastcgi::wire::RecordTy;

/// What driving the reply reader over a whole stream comes to.
enum Outcome {
    Done(Vec<(String, String)>, usize),
    Failed(Error),
    Overrun,
    /// The stream ended in the middle of an exact read.
    ReadFailed,
}

/// Runs the reader over `stream` as a caller would: reading exactly what it
/// asks for, and one byte or the end of the stream where it asks for that.
fn drive(stream: &[u8]) -> Outcome {
    let mut buf: Vec<u8> = Vec::new();
    let mut at = 0usize;
    let mut eof = false;
    let mut steps = 0;
    loop {
        steps += 1;
        assert!(steps < 10_000);
        match read_get_values_reply(&buf, eof) {
            ReplyProgress::ReadExact(n) => {
                assert!(n > 0);
                if at + n > stream.len() {
                    return Outcome::ReadFailed;
                }
                buf.extend_from_slice(&stream[at..at + n]);
                at += n;
            },
            ReplyProgress::ReadUpToOne => {
                assert!(!eof);
                if at == stream.len() {
                    eof = true;
                } else {
                    buf.push(stream[at]);
                    at += 1;
                }
            },
            ReplyProgress::Done { values, consumed } => {
                assert_eq!(consumed, buf.len());
                let mut entries = values.into_entries();
                entries.sort();
                return Outcome::Done(entries, consumed);
            },
            ReplyProgress::Failed(e) => return Outcome::Failed(e),
            ReplyProgress::Overrun => return Outcome::Overrun,
        }
    }
}

fn pair(name: &[u8], value: &[u8]) -> Vec<u8> {
    let mut out = Vec::new();
    fastcgi::wire::write_u32_compact(name.len() as u32, &mut out);
    fastcgi::wire::write_u32_compact(value.len() as u32, &mut out);
    out.extend_from_slice(name);
    out.extend_from_slice(value);
    out
}

fn reply(ty: u8, request_id: u16, content: &[u8], padding: u8) -> Vec<u8> {
    let mut out = vec![1, ty, (request_id >> 8) as u8, request_id as u8, (content.len() >> 8) as u8, content.len() as u8, padding, 0];
    out.extend_from_slice(content);
    out.extend(std::iter::repeat(0u8).take(padding as usize));
    out
}

fn s(x: &str) -> String {
    x.to_string()
}

#[test]
fn request_for_the_default_parameters() {
    let req = get_values_request(&[PARAM_MAX_CONNS, PARAM_MAX_REQS, PARAM_MPXS_CONNS]).unwrap();
    let mut expected = vec![1u8, 9, 0, 0, 0, 48, 0, 0];
    expected.extend_from_slice(&[14, 0]);
    expected.extend_from_slice(b"FCGI_MAX_CONNS");
    expected.extend_from_slice(&[13, 0]);
    expected.extend_from_slice(b"FCGI_MAX_REQS");
    expected.extend_from_slice(&[15, 0]);
    expected.extend_from_slice(b"FCGI_MPXS_CONNS");
    assert_eq!(req, expected);
}

#[test]
fn request_sends_its_padding() {
    let req = get_values_request(&["ABC"]).unwrap();
    // Five content bytes, then the three bytes of padding the header announces.
    assert_eq!(req, vec![1, 9, 0, 0, 0, 5, 3, 0, 3, 0, b'A', b'B', b'C', 0, 0, 0]);
    assert_eq!(get_values_request(&[]).unwrap(), vec![1, 9, 0, 0, 0, 0, 0, 0]);
    let req = get_values_request(&[PARAM_MAX_REQS]).unwrap();
    let mut expected = vec![1u8, 9, 0, 0, 0, 15, 1, 0, 13, 0];
    expected.extend_from_slice(b"FCGI_MAX_REQS");
    expected.push(0);
    assert_eq!(req, expected);
    assert_eq!(req.len(), 24);
}

#[test]
fn request_uses_long_length_form() {
    let name = "x".repeat(200);
    let req = get_values_request(&[name.as_str()]).unwrap();
    assert_eq!(&req[..8], &[1, 9, 0, 0, 0, 205, 3, 0]);
    assert_eq!(&req[8..13], &[0x80, 0, 0, 200, 0]);
    assert_eq!(&req[8 + 205..], &[0, 0, 0]);
    assert_eq!(req.len(), 8 + 205 + 3);
}

#[test]
fn request_content_overflow() {
    let name = "y".repeat(70_000);
    match get_values_request(&[name.as_str()]) {
        Err(Error::ContentLenOverflow { got }) => assert_eq!(got, 70_005),
        _ => panic!("expected a content length overflow"),
    }
    let name = "z".repeat(65_530);
    assert_eq!(get_values_request(&[name.as_str()]).unwrap().len(), 8 + 65_535 + 1);
    let name = "z".repeat(65_531);
    assert!(matches!(get_values_request(&[name.as_str()]), Err(Error::ContentLenOverflow { got: 65_536 })));
}

#[test]
fn reply_with_values() {
    let mut content = pair(b"FCGI_MAX_CONNS", b"10");
    content.extend(pair(b"FCGI_MPXS_CONNS", b"0"));
    let stream = reply(10, 0, &content, 3);
    match drive(&stream) {
        Outcome::Done(values, consumed) => {
            assert_eq!(values, vec![(s("FCGI_MAX_CONNS"), s("10")), (s("FCGI_MPXS_CONNS"), s("0"))]);
            assert_eq!(consumed, stream.len());
        },
        _ => panic!("expected values"),
    }
}

#[test]
fn reply_later_value_wins() {
    let mut content = pair(b"A", b"1");
    content.extend(pair(b"B", b"2"));
    content.extend(pair(b"A", b"3"));
    match drive(&reply(10, 0, &content, 0)) {
        Outcome::Done(values, _) => assert_eq!(values, vec![(s("A"), s("3")), (s("B"), s("2"))]),
        _ => panic!("expected values"),
    }
}

#[test]
fn reply_does_not_read_past_its_end() {
    let content = pair(b"N", b"V");
    let mut stream = reply(10, 0, &content, 2);
    let len = stream.len();
    stream.extend_from_slice(&[0xDE, 0xAD]);
    match drive(&stream) {
        Outcome::Done(values, consumed) => {
            assert_eq!(values, vec![(s("N"), s("V"))]);
            assert_eq!(consumed, len);
        },
        _ => panic!("expected values"),
    }
}

#[test]
fn reply_counts_lengths_by_value() {
    // The name length 1 is sent in the four-byte form; the reader counts one
    // byte for it, so content length 4 is met after the pair.
    let stream = reply(10, 0, &[0x80, 0, 0, 1, 1, b'K', b'V'], 0);
    let mut fixed = stream.clone();
    fixed[5] = 4;
    fixed.truncate(8 + 7);
    match drive(&fixed) {
        Outcome::Done(values, consumed) => {
            assert_eq!(values, vec![(s("K"), s("V"))]);
            assert_eq!(consumed, 15);
        },
        _ => panic!("expected values"),
    }
}

#[test]
fn reply_errors() {
    assert!(matches!(drive(&[1, 10, 0]), Outcome::ReadFailed));
    assert!(matches!(
        drive(&[3, 10, 0, 0, 0, 0, 0, 0]),
        Outcome::Failed(Error::RecordHeader(RecordHeaderError::UnknownVersion(3)))
    ));
    assert!(matches!(
        drive(&[1, 0x20, 0, 0, 0, 0, 0, 0]),
        Outcome::Failed(Error::RecordHeader(RecordHeaderError::UnknownTy(0x20)))
    ));
    assert!(matches!(
        drive(&reply(6, 0, &[], 0)),
        Outcome::Failed(Error::UnexpectedRecord { got: RecordTy::Stdout, expected: RecordTy::GetValuesResult })
    ));
    assert!(matches!(
        drive(&reply(10, 5, &[], 0)),
        Outcome::Failed(Error::UnexpectedRequestId { got: 5, expected: 0 })
    ));
    // The stream ends where a name length is due, then where a value length is.
    let mut s1 = reply(10, 0, &[], 0);
    s1[5] = 4;
    assert!(matches!(drive(&s1), Outcome::Failed(Error::MissingNameLen)));
    let mut s2 = s1.clone();
    s2.push(1);
    assert!(matches!(drive(&s2), Outcome::Failed(Error::MissingValueLen)));
    // The stream ends inside a long length, or inside a name.
    let mut s3 = s1.clone();
    s3.extend_from_slice(&[0x80, 0]);
    assert!(matches!(drive(&s3), Outcome::ReadFailed));
    let mut s4 = s1.clone();
    s4.extend_from_slice(&[3, 0, b'a']);
    assert!(matches!(drive(&s4), Outcome::ReadFailed));
    // A name that is not UTF-8.
    let bad = reply(10, 0, &pair(&[0xFF, 0xFE], b"v"), 0);
    match drive(&bad) {
        Outcome::Failed(Error::Utf8 { bytes }) => assert_eq!(bytes, vec![0xFF, 0xFE]),
        _ => panic!("expected a UTF-8 error"),
    }
    // A value that is not UTF-8.
    let bad = reply(10, 0, &pair(b"n", &[0xC0]), 0);
    match drive(&bad) {
        Outcome::Failed(Error::Utf8 { bytes }) => assert_eq!(bytes, vec![0xC0]),
        _ => panic!("expected a UTF-8 error"),
    }
}

#[test]
fn reply_overrun() {
    // Content length 3, but the single pair counts four bytes.
    let mut stream = reply(10, 0, &pair(b"AB", b""), 0);
    stream[5] = 3;
    assert!(matches!(drive(&stream), Outcome::Overrun));
}

#[test]
fn reply_steps() {
    assert!(matches!(read_get_values_reply(&[], false), ReplyProgress::ReadExact(8)));
    assert!(matches!(read_get_values_reply(&[1, 10, 0], false), ReplyProgress::ReadExact(5)));
    let mut buf = reply(10, 0, &[], 0);
    buf[5] = 8;
    assert!(matches!(read_get_values_reply(&buf, false), ReplyProgress::ReadUpToOne));
    assert!(matches!(read_get_values_reply(&buf, true), ReplyProgress::Failed(Error::MissingNameLen)));
    buf.push(0x80);
    assert!(matches!(read_get_values_reply(&buf, false), ReplyProgress::ReadExact(3)));
    let empty = reply(10, 0, &[], 6);
    assert!(matches!(read_get_values_reply(&empty[..8], false), ReplyProgress::ReadExact(6)));
}

#[test]
fn echoed_request_reads_back_as_empty_values() {
    let req = get_values_request(&[PARAM_MAX_CONNS, PARAM_MAX_REQS, PARAM_MPXS_CONNS, PARAM_MAX_REQS]).unwrap();
    let mut echoed = req.clone();
    echoed[1] = 10;
    match drive(&echoed) {
        Outcome::Done(values, consumed) => {
            assert_eq!(
                values,
                vec![(s("FCGI_MAX_CONNS"), s("")), (s("FCGI_MAX_REQS"), s("")), (s("FCGI_MPXS_CONNS"), s(""))]
            );
            assert_eq!(consumed, req.len());
        },
        _ => panic!("expected values"),
    }
}

#[test]
fn null_bytes_in_parameters() {
    assert_eq!(first_param_with_null(&[]), None);
    assert_eq!(first_param_with_null(&["a", "b"]), None);
    assert_eq!(first_param_with_null(&["a", "b\0c", "\0"]), Some(1));
    assert_eq!(first_param_with_null(&["\0"]), Some(0));
}

#[test]
fn value_map_insert_and_get() {
    let mut m = ValueMap::new();
    assert_eq!(m.len(), 0);
    m.insert(s("a"), s("1"));
    m.insert(s("b"), s("2"));
    m.insert(s("a"), s("3"));
    assert_eq!(m.len(), 2);
    assert_eq!(m.get(&s("a")), Some(&s("3")));
    assert_eq!(m.get(&s("b")), Some(&s("2")));
    assert_eq!(m.get(&s("c")), None);
}

#[test]
fn settled_reply_ignores_later_bytes() {
    let stream = reply(10, 0, &pair(b"k", b"v"), 1);
    let longer: Vec<u8> = stream.iter().copied().chain([7u8, 7, 7]).collect();
    match (read_get_values_reply(&stream, false), read_get_values_reply(&longer, true)) {
        (ReplyProgress::Done { values: a, consumed: ca }, ReplyProgress::Done { values: b, consumed: cb }) => {
            assert_eq!(ca, cb);
            assert_eq!(a.into_entries(), b.into_entries());
        },
        _ => panic!("expected values"),
    }
    let bad = reply(6, 0, &[], 0);
    let longer: Vec<u8> = bad.iter().copied().chain([1u8]).collect();
    assert!(matches!(read_get_values_reply(&longer, true), ReplyProgress::Failed(Error::UnexpectedRecord { .. })));
}

#[test]
fn request_is_one_record() {
    let req = get_values_request(&["A", "BCD"]).unwrap();
    let h = fastcgi::wire::RecordHeader::try_from(req.as_slice()).unwrap();
    assert_eq!(h.ty, RecordTy::GetValues);
    assert_eq!(h.request_id, 0);
    assert_eq!(h.content_len as usize + h.padding_len as usize, req.len() - 8);
    assert_eq!(req.len() % 8, 0);
    assert_eq!(&req[8 + h.content_len as usize..], &[0, 0, 0, 0, 0, 0][..h.padding_len as usize]);
}

#[test]
fn reader_never_asks_past_the_record() {
    let mut content = pair(b"FCGI_MAX_CONNS", b"10");
    content.extend(pair(&vec![b'n'; 130], &vec![b'v'; 300]));
    content.extend(pair(b"", b""));
    let stream = reply(10, 0, &content, 5);
    for k in 0..=stream.len() {
        match read_get_values_reply(&stream[..k], false) {
            ReplyProgress::ReadExact(n) => assert!(k + n <= stream.len()),
            ReplyProgress::ReadUpToOne => assert!(k < 8 + content.len()),
            ReplyProgress::Done { consumed, .. } => {
                assert_eq!(k, stream.len());
                assert_eq!(consumed, stream.len());
            },
            _ => panic!("a prefix of a well-formed reply does not fail"),
        }
    }
}
