use fastcgi::wire::RecordHeader;
use fastcgi::wire::RecordHeaderError;
use fastcgi::wire::RecordTy;
use fastcgi::wire::Version;

#[test]
fn test_deserialize_record_header() {
    assert_eq!(RecordHeader::try_from([0u8, 0, 0, 0, 0, 0, 0]), Err(RecordHeaderError::NotEnoughBytes { got: 7 }));
    assert_eq!(RecordHeader::try_from([0u8, 0, 0, 0, 0, 0, 0, 0]), Err(RecordHeaderError::UnknownVersion(0x00)));
    assert_eq!(RecordHeader::try_from([1u8, 0, 0, 0, 0, 0, 0, 0]), Err(RecordHeaderError::UnknownTy(0x00)));
    assert_eq!(
        RecordHeader::try_from([1u8, 1, 0, 0, 0, 0, 0, 0]),
        Ok(RecordHeader { version: Version::One, ty: RecordTy::BeginRequest, request_id: 0, content_len: 0, padding_len: 0, reserved: 0 })
    );
    assert_eq!(
        RecordHeader::try_from([1u8, 1, 1, 0, 0, 0, 0, 0]),
        Ok(RecordHeader { version: Version::One, ty: RecordTy::BeginRequest, request_id: 256, content_len: 0, padding_len: 0, reserved: 0 })
    );
    assert_eq!(
        RecordHeader::try_from([1u8, 1, 1, 1, 0, 0, 0, 0]),
        Ok(RecordHeader { version: Version::One, ty: RecordTy::BeginRequest, request_id: 257, content_len: 0, padding_len: 0, reserved: 0 })
    );
    assert_eq!(
        RecordHeader::try_from([1u8, 1, 1, 1, 1, 0, 0, 0]),
        Ok(RecordHeader { version: Version::One, ty: RecordTy::BeginRequest, request_id: 257, content_len: 256, padding_len: 0, reserved: 0 })
    );
    assert_eq!(
        RecordHeader::try_from([1u8, 1, 1, 1, 1, 1, 0, 0]),
        Ok(RecordHeader { version: Version::One, ty: RecordTy::BeginRequest, request_id: 257, content_len: 257, padding_len: 0, reserved: 0 })
    );
    assert_eq!(
        RecordHeader::try_from([1u8, 1, 1, 1, 1, 1, 1, 0]),
        Ok(RecordHeader { version: Version::One, ty: RecordTy::BeginRequest, request_id: 257, content_len: 257, padding_len: 1, reserved: 0 })
    );
    assert_eq!(
        RecordHeader::try_from([1u8, 1, 1, 1, 1, 1, 1, 1]),
        Ok(RecordHeader { version: Version::One, ty: RecordTy::BeginRequest, request_id: 257, content_len: 257, padding_len: 1, reserved: 1 })
    );
}

#[test]
fn test_serialize_record_header() {
    assert_eq!(
        <[u8; 8]>::from(RecordHeader {
            version: Version::One,
            ty: RecordTy::BeginRequest,
            request_id: 0,
            content_len: 0,
            padding_len: 0,
            reserved: 0,
        }),
        [1u8, 1, 0, 0, 0, 0, 0, 0],
    );
    assert_eq!(
        <[u8; 8]>::from(RecordHeader {
            version: Version::One,
            ty: RecordTy::BeginRequest,
            request_id: 256,
            content_len: 0,
            padding_len: 0,
            reserved: 0,
        }),
        [1u8, 1, 1, 0, 0, 0, 0, 0],
    );
    assert_eq!(
        <[u8; 8]>::from(RecordHeader {
            version: Version::One,
            ty: RecordTy::BeginRequest,
            request_id: 257,
            content_len: 0,
            padding_len: 0,
            reserved: 0,
        }),
        [1u8, 1, 1, 1, 0, 0, 0, 0],
    );
    assert_eq!(
        <[u8; 8]>::from(RecordHeader {
            version: Version::One,
            ty: RecordTy::BeginRequest,
            request_id: 257,
            content_len: 256,
            padding_len: 0,
            reserved: 0,
        }),
        [1u8, 1, 1, 1, 1, 0, 0, 0],
    );
    assert_eq!(
        <[u8; 8]>::from(RecordHeader {
            version: Version::One,
            ty: RecordTy::BeginRequest,
            request_id: 257,
            content_len: 257,
            padding_len: 0,
            reserved: 0,
        }),
        [1u8, 1, 1, 1, 1, 1, 0, 0],
    );
    assert_eq!(
        <[u8; 8]>::from(RecordHeader {
            version: Version::One,
            ty: RecordTy::BeginRequest,
            request_id: 257,
            content_len: 257,
            padding_len: 1,
            reserved: 0,
        }),
        [1u8, 1, 1, 1, 1, 1, 1, 0],
    );
    assert_eq!(
        <[u8; 8]>::from(RecordHeader {
            version: Version::One,
            ty: RecordTy::BeginRequest,
            request_id: 257,
            content_len: 257,
            padding_len: 1,
            reserved: 1,
        }),
        [1u8, 1, 1, 1, 1, 1, 1, 1],
    );
}
