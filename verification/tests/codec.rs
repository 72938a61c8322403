use avd::{Avd, AvdError};

const MAGIC: [u8; 4] = [0x41, 0x56, 0x44, 0x00];

#[test]
fn blank_drive_serializes_to_the_bare_header() {
    let drive = Avd::new();
    assert_eq!(drive.save_archive(), vec![0x41, 0x56, 0x44, 0x00]);
}

#[test]
fn one_block_serializes_to_an_exact_record() {
    let mut drive = Avd::new();
    drive.set_block(0x0102, &[7u8; 256]);
    let archive = drive.save_archive();
    let mut expected = vec![0x41, 0x56, 0x44, 0x00, 0x01, 0x02];
    expected.extend(std::iter::repeat(7u8).take(256));
    assert_eq!(archive, expected);
}

#[test]
fn decoding_an_exact_record_restores_the_block() {
    let mut bytes = MAGIC.to_vec();
    bytes.push(0x01);
    bytes.push(0x02);
    bytes.extend(std::iter::repeat(7u8).take(256));
    let drive = Avd::load_archive(&bytes).unwrap();
    assert_eq!(drive.get_block(0x0102), Some([7u8; 256]));
    assert_eq!(drive.get_block(0), None);
}

#[test]
fn decode_rejects_bad_magic() {
    let mut bytes = vec![0x42, 0x56, 0x44, 0x00];
    bytes.extend(std::iter::repeat(0u8).take(258));
    let r = Avd::load_archive(&bytes);
    assert_eq!(r, Err(AvdError::BadHeader(0x42, 0x56, 0x44, 0x00)));

    let r = Avd::load_archive(&[0x41, 0x56, 0x44, 0x01]);
    assert_eq!(r, Err(AvdError::BadHeader(0x41, 0x56, 0x44, 0x01)));
}

#[test]
fn decode_rejects_empty_and_short_input() {
    assert_eq!(Avd::load_archive(&[]), Err(AvdError::BadHeader(0, 0, 0, 0)));
    assert_eq!(Avd::load_archive(&[0x41]), Err(AvdError::BadHeader(0x41, 0, 0, 0)));
    assert_eq!(Avd::load_archive(&[0x41, 0x56, 0x44]), Err(AvdError::BadHeader(0x41, 0x56, 0x44, 0)));
}

#[test]
fn decode_rejects_misaligned_length() {
    for &k in [1usize, 2, 257, 259, 516 + 1].iter() {
        let mut bytes = MAGIC.to_vec();
        bytes.extend(std::iter::repeat(0u8).take(k));
        assert_eq!(Avd::load_archive(&bytes), Err(AvdError::MalformedArchive));
    }
}

#[test]
fn decode_accepts_a_bare_header() {
    let drive = Avd::load_archive(&MAGIC).unwrap();
    assert_eq!(drive.get_block(0), None);
    assert_eq!(drive.save_archive(), MAGIC.to_vec());
}

#[test]
fn decode_keeps_duplicate_records_and_reads_the_first() {
    let mut bytes = MAGIC.to_vec();
    bytes.push(0x00);
    bytes.push(0x05);
    bytes.extend(std::iter::repeat(1u8).take(256));
    bytes.push(0x00);
    bytes.push(0x05);
    bytes.extend(std::iter::repeat(2u8).take(256));
    let drive = Avd::load_archive(&bytes).unwrap();
    assert_eq!(drive.get_block(5), Some([1u8; 256]));
    assert_eq!(drive.save_archive().len(), 4 + 258 * 2);
}

#[test]
fn round_trip_keeps_every_block() {
    let mut drive = Avd::new();
    for &idx in [9u16, 0, 65535, 700, 8].iter() {
        let payload = [(idx % 251) as u8; 256];
        drive.set_block(idx, &payload);
    }
    let archive = drive.save_archive();
    let loaded = Avd::load_archive(&archive).unwrap();
    assert_eq!(loaded, drive);
    for &idx in [9u16, 0, 65535, 700, 8].iter() {
        assert_eq!(loaded.get_block(idx), Some([(idx % 251) as u8; 256]));
    }
    assert_eq!(loaded.get_block(1), None);
}

#[test]
fn end_to_end_scenario() {
    let mut drive = Avd::new();
    let mut data = [0u8; 256];
    for i in 0..256 {
        data[i] = i as u8;
    }
    drive.set_block(1234, &data);
    let archive = drive.save_archive();

    let drive2 = Avd::load_archive(&archive).unwrap();
    assert_eq!(drive.get_block(1234), drive2.get_block(1234));
    assert_eq!(drive2.get_block(1234), Some(data));
    assert_eq!(drive.get_block(0), None);
    assert_eq!(drive2.get_block(0), None);
}
