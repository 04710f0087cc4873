use libpart::guid::Uuid;

fn mixed(bytes: &[u8]) -> Vec<u8> {
    // the mixed-endian transform, written out independently
    let mut out = bytes.to_vec();
    out[0..4].reverse();
    out[4..6].reverse();
    out[6..8].reverse();
    out
}

#[test]
fn nil_uuid_is_all_zero() {
    let u = Uuid::nil();
    assert_eq!(u.as_bytes().as_slice(), &[0u8; 16]);
    assert!(u.is_nil());
}

#[test]
fn from_bytes_requires_sixteen_bytes() {
    assert!(Uuid::from_bytes(vec![0u8; 15]).is_none());
    assert!(Uuid::from_bytes(vec![0u8; 17]).is_none());
    let u = Uuid::from_bytes((0u8..16).collect()).unwrap();
    assert_eq!(u.as_bytes().as_slice(), (0u8..16).collect::<Vec<u8>>().as_slice());
    assert!(!u.is_nil());
}

#[test]
fn mixed_endian_transform_is_an_involution() {
    let samples: Vec<Vec<u8>> = vec![
        vec![0u8; 16],
        (0u8..16).collect(),
        vec![0x00, 0x11, 0x22, 0x33, 0x44, 0x55, 0x66, 0x77, 0x88, 0x99, 0xaa, 0xbb, 0xcc, 0xdd, 0xee, 0xff],
        vec![0xff; 16],
    ];
    for s in samples {
        assert_eq!(mixed(&mixed(&s)), s);
    }
}

#[test]
fn read_uuid_decodes_the_on_disk_order() {
    // canonical 00112233-4455-6677-8899-aabbccddeeff stored mixed-endian
    let disk: Vec<u8> = vec![
        0x33, 0x22, 0x11, 0x00, 0x55, 0x44, 0x77, 0x66, 0x88, 0x99, 0xaa, 0xbb, 0xcc, 0xdd,
        0xee, 0xff,
    ];
    let u = libpart::guid::read_uuid_at(&disk, 0);
    assert_eq!(
        u.as_bytes().as_slice(),
        &[0x00, 0x11, 0x22, 0x33, 0x44, 0x55, 0x66, 0x77, 0x88, 0x99, 0xaa, 0xbb, 0xcc, 0xdd, 0xee, 0xff]
    );
}

#[test]
fn write_uuid_then_read_uuid_round_trips() {
    let u = Uuid::from_bytes((100u8..116).collect()).unwrap();
    let mut buf = vec![0u8; 16];
    libpart::guid::write_uuid_at(&mut buf, 0, &u);
    let back = libpart::guid::read_uuid_at(&buf, 0);
    assert_eq!(back.as_bytes(), u.as_bytes());
}

#[test]
fn duplicate_copies_the_value() {
    let u = Uuid::from_bytes(vec![9u8; 16]).unwrap();
    let d = u.duplicate();
    assert_eq!(d.as_bytes(), u.as_bytes());
}
