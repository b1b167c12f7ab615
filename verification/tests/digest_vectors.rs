//! Check values of the digest algorithms, fed directly.

use rustruct::digest::{Algo, DigestVal, Hasher};

fn check(name: &str, expected: u64) {
    let algo = Algo::preset(name).unwrap();
    let mut h = Hasher::new(&algo);
    h.update(b"123456789");
    assert_eq!(h.finalize(), DigestVal::Int(expected), "{name}");
}

#[test]
fn crc_vectors() {
    check("crc16_ccitt", 0x29B1);
    check("crc16_ibm", 0xBB3D);
    check("crc32", 0xCBF43926);
    check("crc32c", 0xE3069283);
    check("crc64_xz", 0x995DC9BBDF1939FA);
}

#[test]
fn crc_split_updates() {
    let algo = Algo::preset("crc32").unwrap();
    let mut h = Hasher::new(&algo);
    h.update(b"1234");
    h.update(b"56789");
    assert_eq!(h.finalize(), DigestVal::Int(0xCBF43926));
}

#[test]
fn ip_checksum_rfc1071() {
    // Example: an IPv4 header with the checksum field zeroed out.
    let hdr: [u8; 20] = [
        0x45, 0x00, 0x00, 0x73, 0x00, 0x00, 0x40, 0x00, 0x40, 0x11, 0x00, 0x00, 0xc0, 0xa8,
        0x00, 0x01, 0xc0, 0xa8, 0x00, 0xc7,
    ];
    let mut h = Hasher::new(&Algo::IpChecksum);
    h.update(&hdr);
    assert_eq!(h.finalize(), DigestVal::Int(0xB861));
}

#[test]
fn sha256_empty() {
    let mut h = Hasher::new(&Algo::Sha256);
    h.update(b"");
    let DigestVal::Bytes(b) = h.finalize() else {
        panic!()
    };
    assert_eq!(
        b[..4],
        [0xe3, 0xb0, 0xc4, 0x42],
        "sha256 of empty input must start with e3b0c442"
    );
}
