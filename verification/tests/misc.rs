use ndsd_read::dst_dec::{decode_status, DecodeError};
use ndsd_read::{detect_container, DSDFormat, DsdContainer, DsdError};

#[test]
fn detect_by_magic() {
    assert_eq!(detect_container(b"DSD \x1c\0\0\0"), Ok(DsdContainer::Dsf));
    assert_eq!(detect_container(b"FRM8\0\0"), Ok(DsdContainer::Dff));
    assert_eq!(detect_container(b"RIFF"), Err(DsdError::UnknownDsdFormat));
    assert_eq!(detect_container(b"DS"), Err(DsdError::UnexpectedEof));
}

#[test]
fn format_difference_ignores_length_and_bit_order() {
    let a = DSDFormat { sampling_rate: 2822400, num_channels: 2, total_samples: 10, is_lsb_first: true };
    let b = DSDFormat { sampling_rate: 2822400, num_channels: 2, total_samples: 99, is_lsb_first: false };
    assert!(!a.is_different(&b));
    assert!(!a.is_different(&a));
    let c = DSDFormat { num_channels: 6, ..a };
    let d = DSDFormat { sampling_rate: 5644800, ..a };
    assert!(a.is_different(&c) && c.is_different(&a));
    assert!(a.is_different(&d));
}

#[test]
fn native_status_codes() {
    assert_eq!(decode_status(0), Ok(()));
    assert_eq!(decode_status(-1), Err(DecodeError::InvalidFrame("C++ decoder error")));
    assert_eq!(decode_status(-2), Err(DecodeError::OutputTooSmall));
    assert_eq!(decode_status(7), Err(DecodeError::NativeError(7)));
}
