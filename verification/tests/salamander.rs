use rand::RngExt;
use xray_rs::salamander::{Salamander, SaltSource, SM_SALT_LEN};

#[test]
fn test_salamander() {
    let mut rng = rand::rngs::ThreadRng::default();
    let mut salamander = Salamander::new_thread(b"password").unwrap();

    let mut in_data = [0u8; 1200];
    let mut o_out = [0u8; 2048];
    let mut d_out = [0u8; 2048];

    let in_data = &mut in_data[..];
    let o_out = &mut o_out[..];
    let d_out = &mut d_out[..];

    for _ in 0..1000 {
        rng.fill(in_data);

        let n = salamander.obfuscate(in_data, o_out);
        assert_eq!(n, in_data.len() + SM_SALT_LEN);

        let n = salamander.deobfuscate(&o_out[..n], d_out);
        assert_eq!(n, in_data.len());

        assert_eq!(in_data, &d_out[..n]);
    }
}

struct FixedSalt;

impl SaltSource for FixedSalt {
    fn after_draw(&self) -> Self {
        FixedSalt
    }

    fn may_yield(&self, salt: [u8; 8]) -> bool {
        salt == [1, 2, 3, 4, 5, 6, 7, 8]
    }

    fn next_salt(&mut self) -> [u8; 8] {
        [1, 2, 3, 4, 5, 6, 7, 8]
    }
}

#[test]
fn salamander_rejects_short_keys() {
    assert!(Salamander::new_thread(b"abc").is_err());
    let err = Salamander::new(b"", FixedSalt).err().unwrap();
    assert_eq!(err.kind(), std::io::ErrorKind::InvalidInput);
    assert!(Salamander::new(b"abcd", FixedSalt).is_ok());
}

#[test]
fn salamander_packet_layout() {
    let mut s = Salamander::new(b"secret", FixedSalt).unwrap();
    let data: Vec<u8> = (0..70u8).collect();
    let mut out = [0xAAu8; 100];
    let n = s.obfuscate(&data, &mut out);
    assert_eq!(n, 78);
    assert_eq!(&out[..8], &[1, 2, 3, 4, 5, 6, 7, 8]);
    assert!(out[78..].iter().all(|&b| b == 0xAA));
    // the key is BLAKE2b-256 of the pre-shared key followed by the salt
    let mut input = b"secret".to_vec();
    input.extend_from_slice(&[1, 2, 3, 4, 5, 6, 7, 8]);
    let key: [u8; 32] = <blake2::Blake2b256 as blake2::Digest>::digest(&input).into();
    for i in 0..70 {
        assert_eq!(out[8 + i], data[i] ^ key[i % 32]);
    }
    // the same salt twice gives the same packet
    let mut again = [0xAAu8; 100];
    assert_eq!(s.obfuscate(&data, &mut again), 78);
    assert_eq!(out, again);
}

#[test]
fn salamander_short_buffers() {
    let mut s = Salamander::new(b"secret", FixedSalt).unwrap();
    let mut out = [7u8; 9];
    assert_eq!(s.obfuscate(&[1, 2], &mut out), 0);
    assert_eq!(out, [7u8; 9]);
    assert_eq!(s.deobfuscate(&[0u8; 8], &mut out), 0);
    assert_eq!(s.deobfuscate(&[0u8; 20], &mut out), 0);
    assert_eq!(out, [7u8; 9]);
    // an empty payload is just the salt
    let mut out = [0u8; 8];
    assert_eq!(s.obfuscate(&[], &mut out), 8);
}

#[test]
fn salamander_other_key_does_not_decode() {
    let mut a = Salamander::new(b"key-one", FixedSalt).unwrap();
    let mut b = Salamander::new(b"key-two", FixedSalt).unwrap();
    let data = [42u8; 40];
    let mut packet = [0u8; 48];
    assert_eq!(a.obfuscate(&data, &mut packet), 48);
    let mut plain = [0u8; 40];
    assert_eq!(b.deobfuscate(&packet, &mut plain), 40);
    assert_ne!(plain, data);
    assert_eq!(a.deobfuscate(&packet, &mut plain), 40);
    assert_eq!(plain, data);
}

#[test]
fn salamander_round_trip_small_buffers() {
    let mut a = Salamander::new_thread(b"psk-1").unwrap();
    let mut b = Salamander::new(b"psk-1", FixedSalt).unwrap();
    let data = [7u8, 9];
    let mut packet = [0u8; 10];
    let n = a.obfuscate(&data, &mut packet);
    assert_eq!(n, 10);
    let mut back = [0u8; 2];
    assert_eq!(b.deobfuscate(&packet[..n], &mut back), 2);
    assert_eq!(back, data);
    // too short an output buffer: nothing written
    let mut small = [5u8; 9];
    assert_eq!(a.obfuscate(&data, &mut small), 0);
    assert_eq!(small, [5u8; 9]);
}
