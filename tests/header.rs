use cotar::error::CotarError;
use cotar::layout::{write_header, COTAR_V2_HEADER_MAGIC};
use cotar::reader::Cotar;

#[test]
fn test_header() {
    let buf = vec![0x43, 0x4f, 0x54, 0x02, 0x1c, 0x00, 0x00, 0x00, 0x28];
    let header = Cotar::header_from_bytes(&buf).unwrap();

    assert_eq!(header.magic, COTAR_V2_HEADER_MAGIC);
    assert_eq!(header.entries, 28);
}

#[test]
fn test_header_invalid_version() {
    // Set version to 0x01
    let buf = vec![0x43, 0x4f, 0x54, 0x01, 0x1c, 0x00, 0x00, 0x00, 0x28];
    let header = Cotar::header_from_bytes(&buf);

    assert_eq!(header.is_ok(), false)
}

#[test]
fn test_header_invalid_magic() {
    // Set magic to "AOT\x02"
    let buf = vec![0x41, 0x4f, 0x54, 0x02, 0x1c, 0x00, 0x00, 0x00, 0x28];
    let header = Cotar::header_from_bytes(&buf);

    assert_eq!(header.is_ok(), false)
}

#[test]
fn header_round_trips_slot_count() {
    for n in [0u32, 1, 28, 65536, u32::MAX] {
        let mut out = Vec::new();
        write_header(&mut out, n);
        assert_eq!(out.len(), 8);
        assert_eq!(&out[0..4], b"COT\x02");
        let header = Cotar::header_from_bytes(&out).unwrap();
        assert_eq!(header.entries, n);
        assert_eq!(header.version, 2);
    }
}

#[test]
fn header_errors_are_told_apart() {
    assert_eq!(
        Cotar::header_from_bytes(&[0x43, 0x4f, 0x54, 0x02, 1, 0, 0]).unwrap_err(),
        CotarError::TruncatedIndex
    );
    assert_eq!(
        Cotar::header_from_bytes(&[0x43, 0x4f, 0x54, 0x01, 1, 0, 0, 0]).unwrap_err(),
        CotarError::InvalidMagic
    );
    assert_eq!(Cotar::header_from_bytes(&[]).unwrap_err(), CotarError::TruncatedIndex);
}
