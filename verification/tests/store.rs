use avd::Avd;

fn counting_payload() -> [u8; 256] {
    let mut data = [0u8; 256];
    for i in 0..256 {
        data[i] = i as u8;
    }
    data
}

#[test]
fn get_set() {
    let mut drive = Avd::new();
    let data = counting_payload();
    drive.set_block(1234, &data);
    assert_eq!(drive.get_block(1234), Some(data));
    let archive = drive.save_archive();
    let drive2 = Avd::load_archive(&archive).unwrap();
    assert_eq!(drive, drive2);
}

#[test]
fn blank_drive_is_sparse() {
    let drive = Avd::new();
    for i in 0..=65535u16 {
        assert_eq!(drive.get_block(i), None);
    }
}

#[test]
fn overwrite_is_idempotent() {
    let mut drive = Avd::new();
    let data = [7u8; 256];
    drive.set_block(42, &data);
    let len_once = drive.save_archive().len();
    drive.set_block(42, &data);
    let len_twice = drive.save_archive().len();
    assert_eq!(drive.get_block(42), Some(data));
    assert_eq!(len_once, len_twice);
    assert_eq!(len_once, 4 + 258);
}

#[test]
fn last_write_wins() {
    let mut drive = Avd::new();
    let a = [1u8; 256];
    let b = [2u8; 256];
    drive.set_block(9, &a);
    drive.set_block(9, &b);
    assert_eq!(drive.get_block(9), Some(b));
}

#[test]
fn set_leaves_other_indices_alone() {
    let mut drive = Avd::new();
    let a = [1u8; 256];
    let b = [2u8; 256];
    drive.set_block(3, &a);
    drive.set_block(4, &b);
    assert_eq!(drive.get_block(3), Some(a));
    assert_eq!(drive.get_block(4), Some(b));
    assert_eq!(drive.get_block(5), None);
}

#[test]
fn sort_preserves_observations() {
    let mut drive = Avd::new();
    let indices: [u16; 5] = [500, 3, 65535, 0, 42];
    for (n, &idx) in indices.iter().enumerate() {
        let payload = [n as u8; 256];
        drive.set_block(idx, &payload);
    }
    drive.sort();
    for (n, &idx) in indices.iter().enumerate() {
        assert_eq!(drive.get_block(idx), Some([n as u8; 256]));
    }
    assert_eq!(drive.get_block(1), None);
}

#[test]
fn sort_orders_the_archive_by_index() {
    let mut drive = Avd::new();
    for &idx in [500u16, 3, 65535, 0, 42].iter() {
        drive.set_block(idx, &[9u8; 256]);
    }
    drive.sort();
    let archive = drive.save_archive();
    assert_eq!(archive.len(), 4 + 258 * 5);
    let mut seen = Vec::new();
    for r in 0..5 {
        let off = 4 + 258 * r;
        let idx = u16::from_be_bytes([archive[off], archive[off + 1]]);
        seen.push(idx);
    }
    assert_eq!(seen, vec![0, 3, 42, 500, 65535]);
}
