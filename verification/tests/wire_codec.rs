use fastcgi::wire::compact_encoded_len;
use fastcgi::wire::read_u32_compact;
use fastcgi::wire::write_u32_compact;
use fastcgi::wire::CompactError;
use fastcgi::wire::RecordHeader;
use fastcgi::wire::RecordHeaderError;
use fastcgi::wire::RecordTy;
use fastcgi::wire::Version;

fn header(ty: RecordTy, request_id: u16, content_len: u16, padding_len: u8, reserved: u8) -> RecordHeader {
    RecordHeader { version: Version::One, ty, request_id, content_len, padding_len, reserved }
}

#[test]
fn version_bytes_round_trip() {
    for b in 0u8..=255 {
        match Version::try_from(b) {
            Ok(v) => {
                assert_eq!(b, 0x01);
                assert_eq!(u8::from(v), b);
            },
            Err(e) => {
                assert_ne!(b, 0x01);
                assert_eq!(e, b);
            },
        }
    }
    assert_eq!(Version::try_from(u8::from(Version::One)), Ok(Version::One));
}

#[test]
fn record_type_bytes_round_trip() {
    let all = [
        RecordTy::BeginRequest,
        RecordTy::AbortRequest,
        RecordTy::EndRequest,
        RecordTy::Params,
        RecordTy::Stdin,
        RecordTy::Stdout,
        RecordTy::Stderr,
        RecordTy::Data,
        RecordTy::GetValues,
        RecordTy::GetValuesResult,
        RecordTy::UnknownType,
    ];
    for (i, ty) in all.iter().enumerate() {
        assert_eq!(u8::from(*ty), i as u8 + 1);
        assert_eq!(RecordTy::try_from(u8::from(*ty)), Ok(*ty));
    }
    assert_eq!(RecordTy::try_from(0x00), Err(0x00));
    assert_eq!(RecordTy::try_from(0x0C), Err(0x0C));
    assert_eq!(RecordTy::try_from(0xFF), Err(0xFF));
}

#[test]
fn header_round_trip_on_concrete_values() {
    let h = header(RecordTy::GetValuesResult, 0xABCD, 0x1234, 4, 9);
    let bytes = <[u8; 8]>::from(h);
    assert_eq!(bytes, [1, 10, 0xAB, 0xCD, 0x12, 0x34, 4, 9]);
    assert_eq!(RecordHeader::try_from(bytes), Ok(h));
    assert_eq!(Vec::<u8>::from(h), bytes.to_vec());
    assert_eq!(RecordHeader::try_from(Vec::<u8>::from(h)), Ok(h));
}

#[test]
fn header_parse_ignores_trailing_bytes() {
    let bytes: &[u8] = &[1, 6, 0, 7, 1, 2, 3, 0, 0xEE, 0xFF];
    assert_eq!(RecordHeader::try_from(bytes), Ok(header(RecordTy::Stdout, 7, 258, 3, 0)));
}

#[test]
fn header_parse_errors() {
    let empty: &[u8] = &[];
    assert_eq!(RecordHeader::try_from(empty), Err(RecordHeaderError::NotEnoughBytes { got: 0 }));
    assert_eq!(RecordHeader::try_from(vec![1u8, 1, 0]), Err(RecordHeaderError::NotEnoughBytes { got: 3 }));
    assert_eq!(RecordHeader::try_from([2u8, 1, 0, 0, 0, 0, 0, 0]), Err(RecordHeaderError::UnknownVersion(2)));
    assert_eq!(RecordHeader::try_from([1u8, 12, 0, 0, 0, 0, 0, 0]), Err(RecordHeaderError::UnknownTy(12)));
}

#[test]
fn auto_padding_aligns_to_eight() {
    assert_eq!(header(RecordTy::Params, 1, 0, 0, 0).with_auto_padding().padding_len, 0);
    assert_eq!(header(RecordTy::Params, 1, 5, 0, 0).with_auto_padding().padding_len, 3);
    assert_eq!(header(RecordTy::Params, 1, 257, 0, 0).with_auto_padding().padding_len, 7);
    assert_eq!(header(RecordTy::Params, 1, 15, 200, 0).with_auto_padding().padding_len, 1);
    let h = header(RecordTy::Params, 3, 13, 0, 5).with_auto_padding();
    assert_eq!(h, header(RecordTy::Params, 3, 13, 3, 5));
    assert_eq!((h.content_len as u32 + h.padding_len as u32) % 8, 0);
}

#[test]
fn auto_padding_replaces_padding_of_aligned_content() {
    // Content already a multiple of eight: no padding, whatever was there.
    assert_eq!(header(RecordTy::Params, 1, 8, 3, 0).with_auto_padding().padding_len, 0);
    assert_eq!(header(RecordTy::Params, 1, 16, 8, 0).with_auto_padding().padding_len, 0);
    assert_eq!(header(RecordTy::Params, 1, 0, 7, 0).with_auto_padding().padding_len, 0);
    for len in [0u16, 1, 7, 8, 9, 255, 65535] {
        let h = header(RecordTy::Stdin, 1, len, 200, 0).with_auto_padding();
        assert!(h.padding_len < 8);
        assert_eq!((8 + h.content_len as u32 + h.padding_len as u32) % 8, 0);
    }
}

#[test]
fn compact_short_and_long_forms() {
    let mut out = Vec::new();
    write_u32_compact(0, &mut out);
    write_u32_compact(127, &mut out);
    write_u32_compact(128, &mut out);
    write_u32_compact(0x0102_0304, &mut out);
    assert_eq!(out, vec![0, 127, 0x80, 0, 0, 128, 0x81, 2, 3, 4]);
    assert_eq!(compact_encoded_len(0), 1);
    assert_eq!(compact_encoded_len(127), 1);
    assert_eq!(compact_encoded_len(128), 4);
    assert_eq!(compact_encoded_len(255), 4);
}

#[test]
fn compact_round_trip() {
    for v in [0u32, 1, 126, 127, 128, 255, 256, 65535, 0x7FFF_FFFF] {
        let mut out = vec![0xAA];
        write_u32_compact(v, &mut out);
        let n = out.len() - 1;
        out.push(0x55);
        assert_eq!(read_u32_compact(&out[1..]), Ok(Some((v, n))));
    }
    // The top bit only marks the long form; it does not come back.
    let mut out = Vec::new();
    write_u32_compact(0xFFFF_FFFF, &mut out);
    assert_eq!(out, vec![0xFF, 0xFF, 0xFF, 0xFF]);
    assert_eq!(read_u32_compact(&out), Ok(Some((0x7FFF_FFFF, 4))));
}

#[test]
fn compact_read_edges() {
    assert_eq!(read_u32_compact(&[]), Ok(None));
    assert_eq!(read_u32_compact(&[0x80]), Err(CompactError::Truncated { got: 1 }));
    assert_eq!(read_u32_compact(&[0x80, 1, 2]), Err(CompactError::Truncated { got: 3 }));
    assert_eq!(read_u32_compact(&[0x80, 0, 0, 5]), Ok(Some((5, 4))));
    assert_eq!(read_u32_compact(&[5, 0x80]), Ok(Some((5, 1))));
}

#[test]
fn compact_read_then_write_gives_the_bytes() {
    let bytes = [0x81u8, 2, 3, 4];
    let (v, n) = read_u32_compact(&bytes).unwrap().unwrap();
    let mut out = Vec::new();
    write_u32_compact(v, &mut out);
    assert_eq!(&out[..], &bytes[..n]);
    // A long form of a small length is read, but written back short.
    let (v, n) = read_u32_compact(&[0x80, 0, 0, 5]).unwrap().unwrap();
    let mut out = Vec::new();
    write_u32_compact(v, &mut out);
    assert_eq!((v, n, out), (5, 4, vec![5]));
}
