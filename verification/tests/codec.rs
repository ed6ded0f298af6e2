use tspine::crypto::{bytes_equal, Crypto};
use tspine::error::TSpineError;
use tspine::grid::Grid;
use tspine::payload::Payload;
use tspine::rs::ReedSolomon;
use tspine::text::{digit_str, push_binary, push_decimal, push_repeated};
use tspine::types::{ColorMode, DecodedPayload, EccLevel, Rgb};

#[test]
fn rs_parity_of_hello() {
    let rs = ReedSolomon::new(4);
    assert_eq!(rs.encode(b"hello"), vec![104, 101, 108, 108, 111, 203, 186, 169, 186]);
}

#[test]
fn rs_parity_of_small_block() {
    let rs = ReedSolomon::new(2);
    assert_eq!(rs.encode(&[1, 2, 3, 4, 5]), vec![1, 2, 3, 4, 5, 3, 2]);
}

#[test]
fn rs_without_parity_is_identity() {
    let rs = ReedSolomon::new(0);
    assert_eq!(rs.encode(b"abc"), b"abc".to_vec());
    assert_eq!(rs.decode(b"abc").unwrap(), b"abc".to_vec());
}

#[test]
fn rs_decode_inverts_encode_over_several_blocks() {
    let rs = ReedSolomon::new(12);
    let data: Vec<u8> = (0..600u32).map(|i| (i * 7 % 256) as u8).collect();
    let enc = rs.encode(&data);
    assert_eq!(enc.len(), 600 + 3 * 12);
    assert_eq!(rs.decode(&enc).unwrap(), data);
}

#[test]
fn rs_corrects_damaged_bytes() {
    let rs = ReedSolomon::new(12);
    let data = b"Reed-Solomon keeps this text".to_vec();
    let mut enc = rs.encode(&data);
    enc[3] ^= 0x5a;
    assert_eq!(rs.decode(&enc).unwrap(), data);
    enc[10] ^= 0x01;
    assert_eq!(rs.decode(&enc).unwrap(), data);
    enc[30] ^= 0xff;
    enc[35] ^= 0x10;
    assert_eq!(rs.decode(&enc).unwrap(), data);
}

#[test]
fn rs_corrects_one_error_with_two_parity_bytes() {
    let rs = ReedSolomon::new(2);
    assert_eq!(rs.encode(&[1]), vec![1, 3, 2]);
    assert_eq!(rs.decode(&[0, 3, 2]).unwrap(), vec![1]);
    assert_eq!(rs.decode(&[1, 3, 7]).unwrap(), vec![1]);
}

#[test]
fn rs_corrects_errors_in_each_block() {
    let rs = ReedSolomon::new(4);
    let data: Vec<u8> = (0..400u32).map(|i| (i * 13 % 251) as u8).collect();
    let mut enc = rs.encode(&data);
    enc[0] ^= 0x80;
    enc[100] ^= 0x01;
    enc[255] ^= 0x33;
    enc[300] ^= 0x44;
    assert_eq!(rs.decode(&enc).unwrap(), data);
}

#[test]
fn rs_gives_up_on_too_many_errors() {
    let rs = ReedSolomon::new(2);
    let mut enc = rs.encode(&[10, 20, 30, 40, 50, 60]);
    enc[0] ^= 1;
    enc[1] ^= 2;
    enc[2] ^= 3;
    assert!(matches!(rs.decode(&enc), Err(TSpineError::ReedSolomon(_))));
}

#[test]
fn color_mode_counts() {
    assert_eq!(ColorMode::Monochrome.num_colors(), 2);
    assert_eq!(ColorMode::FourColor.num_colors(), 4);
    assert_eq!(ColorMode::EightColor.num_colors(), 8);
    assert_eq!(ColorMode::Monochrome.bits_per_cell(), 1);
    assert_eq!(ColorMode::FourColor.bits_per_cell(), 2);
    assert_eq!(ColorMode::EightColor.bits_per_cell(), 3);
}

#[test]
fn color_mode_names() {
    assert_eq!(ColorMode::from_str_loose("  BW "), Some(ColorMode::Monochrome));
    assert_eq!(ColorMode::from_str_loose("default"), Some(ColorMode::FourColor));
    assert_eq!(ColorMode::from_str_loose("Max"), Some(ColorMode::EightColor));
    assert_eq!(ColorMode::from_str_loose("purple"), None);
}

#[test]
fn ecc_level_names() {
    assert_eq!(EccLevel::from_str_loose("none"), EccLevel::Off);
    assert_eq!(EccLevel::from_str_loose(" LOW"), EccLevel::Low);
    assert_eq!(EccLevel::from_str_loose("normal"), EccLevel::Medium);
    assert_eq!(EccLevel::from_str_loose("3"), EccLevel::High);
    assert_eq!(EccLevel::from_str_loose("40"), EccLevel::Custom(40));
    assert_eq!(EccLevel::from_str_loose("300"), EccLevel::Medium);
    assert_eq!(EccLevel::from_str_loose("whatever"), EccLevel::Medium);
    assert_eq!(EccLevel::High.parity_bytes(), 28);
    assert_eq!(EccLevel::Custom(7).parity_bytes(), 7);
    assert_eq!(EccLevel::Off.parity_bytes(), 0);
}

#[test]
fn palette_and_distance() {
    assert_eq!(Rgb::palette(0), Rgb(255, 255, 255));
    assert_eq!(Rgb::palette(3), Rgb(0, 0, 255));
    assert_eq!(Rgb::palette(7), Rgb(255, 255, 0));
    assert_eq!(Rgb(10, 20, 30).distance_sq(&Rgb(13, 16, 30)), 25);
    assert_eq!(Rgb(0, 0, 0).distance_sq(&Rgb(255, 255, 255)), 195075);
}

#[test]
fn grid_capacity() {
    assert_eq!(Grid::capacity_bytes(13, ColorMode::FourColor, false), 35);
    assert_eq!(Grid::capacity_bytes(21, ColorMode::Monochrome, false), 49);
    assert_eq!(Grid::capacity_bytes(5, ColorMode::EightColor, true), 7);
    assert_eq!(Grid::data_capacity_from_total(35, 12), 23);
    assert_eq!(Grid::data_capacity_from_total(600, 12), 2 * 243 + 78);
    assert_eq!(Grid::data_capacity_from_total(10, 12), 0);
    assert_eq!(Grid::data_capacity_from_total(10, 0), 10);
}

#[test]
fn grid_mask_and_layout() {
    assert!(Grid::mask(0, 0));
    assert!(!Grid::mask(1, 0));
    assert!(Grid::mask(3, 5));
    assert!(Grid::is_nano(7, false));
    assert!(!Grid::is_nano(9, false));
    assert!(Grid::is_nano(9, true));
    let std_coords = Grid::data_coordinates(9, false);
    assert_eq!(std_coords.len(), 81 - 18 - 1);
    assert_eq!(std_coords[0], (0, 1));
    assert!(!std_coords.contains(&(4, 3)));
    let nano_coords = Grid::data_coordinates(5, true);
    assert_eq!(nano_coords.len(), 25 - 6);
    assert_eq!(nano_coords[0], (3, 0));
    assert!(!nano_coords.contains(&(1, 1)));
}

#[test]
fn grid_skeletons() {
    let mut g = Grid::new(9, ColorMode::FourColor);
    g.apply_skeletons(false);
    for x in 0..9 {
        assert_eq!(g.get(x, 0), 1);
    }
    assert_eq!(g.get(4, 1), 1);
    assert_eq!(g.get(4, 8), 0);
    assert_eq!(g.get(4, 7), 1);
    assert_eq!(g.get(4, 6), 2);
    assert_eq!(g.get(4, 5), 3);
    assert_eq!(g.get(0, 8), 1);
    assert_eq!(g.get(8, 8), 0);
    let mut n = Grid::new(5, ColorMode::Monochrome);
    n.apply_skeletons(true);
    assert_eq!((n.get(0, 0), n.get(1, 0), n.get(2, 0), n.get(1, 1)), (1, 1, 1, 1));
    assert_eq!((n.get(0, 4), n.get(4, 4), n.get(3, 0)), (1, 0, 0));
}

#[test]
fn grid_set_get_rgb() {
    let mut g = Grid::new(3, ColorMode::EightColor);
    g.set(2, 1, 5);
    g.set(0, 2, 9);
    assert_eq!(g.get(2, 1), 5);
    assert_eq!(g.get_rgb(2, 1), Rgb(0, 255, 255));
    assert_eq!(g.get_rgb(0, 2), Rgb(0, 0, 0));
    assert_eq!(g.get_rgb(0, 0), Rgb(255, 255, 255));
}

#[test]
fn derive_keys_splits_sha256() {
    let (s, e) = Crypto::derive_keys("pw");
    assert_eq!(s, [48, 201, 82, 250, 177, 34, 195, 249, 117, 159, 2, 166, 217, 92, 55, 88]);
    assert_eq!(e, [178, 70, 180, 254, 226, 57, 149, 123, 45, 79, 238, 70, 226, 97, 112, 196]);
}

#[test]
fn hmac_known_vector() {
    let sig = Crypto::sign_hmac("key", b"The quick brown fox jumps over the lazy dog");
    let hex: String = sig.iter().map(|b| format!("{:02x}", b)).collect();
    assert_eq!(hex, "f7bc83f430538424b13298e6aa6fb143ef4d59a14946175997479dbc2d1a3cd8");
}

#[test]
fn hmac_verification() {
    let data = b"signed words";
    let sig = Crypto::sign_hmac("k", data);
    assert!(Crypto::verify_hmac("k", data, &sig));
    assert!(Crypto::verify_hmac("k", data, &sig[..16]));
    assert!(!Crypto::verify_hmac("other", data, &sig));
    assert!(!Crypto::verify_hmac("k", data, &sig[..20]));
    assert!(!Crypto::verify_hmac("k", b"signed word", &sig));
}

#[test]
fn bytes_equal_compares() {
    assert!(bytes_equal(b"abc", b"abc"));
    assert!(!bytes_equal(b"abc", b"abd"));
    assert!(!bytes_equal(b"abc", b"ab"));
}

#[test]
fn fernet_roundtrip() {
    let token = Crypto::encrypt_fernet("secret", b"attack at dawn");
    assert_ne!(token, b"attack at dawn".to_vec());
    assert_eq!(Crypto::decrypt_fernet("secret", &token).unwrap(), b"attack at dawn".to_vec());
}

#[test]
fn fernet_wrong_password_fails() {
    let token = Crypto::encrypt_fernet("secret", b"attack at dawn");
    assert_eq!(Crypto::decrypt_fernet("guess", &token), Err(TSpineError::DecryptionFailed));
    assert_eq!(Crypto::decrypt_fernet("secret", b"short"), Err(TSpineError::DecryptionFailed));
}

#[test]
fn is_binary_detection() {
    assert!(!Payload::is_binary(b"plain text"));
    assert!(Payload::is_binary(&[0x61, 0x00, 0x62]));
    assert!(Payload::is_binary(&[0xff, 0xfe]));
    let mut late_zero = vec![b'a'; 1100];
    late_zero[1050] = 0;
    assert!(!Payload::is_binary(&late_zero));
}

#[test]
fn prepare_single_full_header_bytes() {
    let (raw, body) = Payload::prepare_single(b"hi", None, None, false).unwrap();
    assert_eq!(body, vec![0, 0, 0, 2, b'h', b'i']);
    assert_eq!(raw, vec![0x54, 0x53, 0x43, 0x00, 0, 0, 0, 2, b'h', b'i']);
}

#[test]
fn prepare_single_min_header_bytes() {
    let (raw, body) = Payload::prepare_single(b"hi", None, None, true).unwrap();
    assert_eq!(body, vec![2, b'h', b'i']);
    assert_eq!(raw, vec![0x80, 2, b'h', b'i']);
}

#[test]
fn prepare_single_signed_bytes() {
    let (raw, _) = Payload::prepare_single(b"hi", None, Some("k"), false).unwrap();
    let mut expected = vec![0x54, 0x53, 0x43, 0x04];
    expected.extend_from_slice(&[
        247, 157, 149, 47, 245, 0, 80, 80, 95, 233, 170, 63, 199, 218, 137, 11, 220, 77, 197, 139, 46, 189, 172,
        245, 113, 85, 229, 26, 4, 101, 197, 222,
    ]);
    expected.extend_from_slice(&[0, 0, 0, 2, b'h', b'i']);
    assert_eq!(raw, expected);
    let (raw_min, _) = Payload::prepare_single(b"hi", None, Some("k"), true).unwrap();
    let mut expected_min = vec![0x84];
    expected_min.extend_from_slice(&[76, 114, 120, 12, 79, 172, 132, 84, 212, 164, 198, 235, 153, 28, 221, 144]);
    expected_min.extend_from_slice(&[2, b'h', b'i']);
    assert_eq!(raw_min, expected_min);
}

#[test]
fn prepare_single_compresses_repetitive_data() {
    let data = vec![b'a'; 500];
    let (raw, body) = Payload::prepare_single(&data, None, None, false).unwrap();
    assert_eq!(raw[3] & 0x01, 0x01);
    assert!(body.len() < 100);
    assert_eq!(Payload::unpack(&raw, None, None).unwrap(), DecodedPayload::Text("a".repeat(500)));
}

#[test]
fn prepare_dual_bytes() {
    let (raw, body) = Payload::prepare_dual(b"pub", b"pr", None, None, true).unwrap();
    assert_eq!(body, vec![3, b'p', b'u', b'b', 3, 0, b'p', b'r']);
    assert_eq!(raw[0], 0x88);
    assert_eq!(&raw[1..], &body[..]);
}

#[test]
fn unpack_roundtrip_text_and_binary() {
    for min in [false, true] {
        let (raw, _) = Payload::prepare_single("grüße".as_bytes(), None, None, min).unwrap();
        let mut padded = raw.clone();
        padded.extend_from_slice(&[0, 0, 0]);
        assert_eq!(Payload::unpack(&padded, None, None).unwrap(), DecodedPayload::Text("grüße".to_string()));
        let bin = vec![1u8, 0, 2, 0, 3];
        let (raw_b, _) = Payload::prepare_single(&bin, None, None, min).unwrap();
        assert_eq!(Payload::unpack(&raw_b, None, None).unwrap(), DecodedPayload::Binary(bin));
    }
}

#[test]
fn unpack_roundtrip_encrypted_signed() {
    let (raw, _) = Payload::prepare_single(b"top secret", Some("pw"), Some("sk"), false).unwrap();
    assert_eq!(raw[3], 0x02 | 0x04);
    assert_eq!(
        Payload::unpack(&raw, Some("pw"), Some("sk")).unwrap(),
        DecodedPayload::Text("top secret".to_string())
    );
    assert_eq!(Payload::unpack(&raw, None, None), Err(TSpineError::PasswordRequired));
    assert_eq!(Payload::unpack(&raw, Some("pw"), Some("bad")), Err(TSpineError::SignatureMismatch));
    assert_eq!(Payload::unpack(&raw, Some("nope"), None), Err(TSpineError::DecryptionFailed));
}

#[test]
fn unpack_dual_roundtrip() {
    let (raw, _) = Payload::prepare_dual(b"visible", b"hidden words", None, Some("sk"), false).unwrap();
    assert_eq!(
        Payload::unpack(&raw, None, Some("sk")).unwrap(),
        DecodedPayload::Dual { public_data: "visible".to_string(), private_data: "hidden words".to_string() }
    );
    let (enc, _) = Payload::prepare_dual(b"visible", &vec![b'z'; 300], Some("pw"), None, true).unwrap();
    assert_eq!(
        Payload::unpack(&enc, Some("pw"), None).unwrap(),
        DecodedPayload::Dual { public_data: "visible".to_string(), private_data: "z".repeat(300) }
    );
    assert_eq!(
        Payload::unpack(&enc, None, None).unwrap(),
        DecodedPayload::Dual {
            public_data: "visible".to_string(),
            private_data: "[Pass password to decrypt]".to_string()
        }
    );
    assert_eq!(
        Payload::unpack(&enc, Some("wrong"), None).unwrap(),
        DecodedPayload::Dual { public_data: "visible".to_string(), private_data: "[Incorrect password]".to_string() }
    );
}

#[test]
fn unpack_errors() {
    assert_eq!(Payload::unpack(&[0x80], None, None), Err(TSpineError::CorruptedBlock(1)));
    assert_eq!(Payload::unpack(&[0x00, 0x01, 0x02], None, None), Err(TSpineError::InvalidHeader));
    assert_eq!(Payload::unpack(&[0x84, 1, 2, 3], None, None), Err(TSpineError::CorruptedSignature));
    assert_eq!(Payload::unpack(&[0x80, 9, 1], None, None), Err(TSpineError::CorruptedBlock(3)));
    assert_eq!(Payload::unpack(&[0x80, 2, 0xff, 0xfe], None, None), Err(TSpineError::Utf8Error));
    assert!(matches!(Payload::unpack(&[0x81, 2, 0xff, 0xfe], None, None), Err(TSpineError::Compression(_))));
}

#[test]
fn decimal_binary_and_repeat_text() {
    let mut s = String::new();
    push_decimal(&mut s, 0);
    s.push('|');
    push_decimal(&mut s, 40961);
    s.push('|');
    push_binary(&mut s, 5, 3);
    s.push('|');
    push_binary(&mut s, 1, 4);
    s.push('|');
    push_repeated(&mut s, "ab", 3);
    assert_eq!(s, "0|40961|101|0001|ababab");
    assert_eq!(digit_str(11), "b");
    assert_eq!(digit_str(7), "7");
}

#[test]
fn rgb_displayed_as_text() {
    assert_eq!(Rgb(255, 0, 17).to_text(), "rgb(255,0,17)");
    assert_eq!(Rgb::palette(1).to_text(), "rgb(0,0,0)");
}

#[test]
fn error_messages() {
    assert_eq!(
        TSpineError::DataTooLarge { required: 30, capacity: 12 }.message(),
        "Data too large: requires 30 bytes, but maximum capacity is 12 bytes"
    );
    assert_eq!(
        TSpineError::SizeExceedsLimit { size: 253 }.message(),
        "Data too large for single TSC: grid size 253 exceeds limit of 251x251"
    );
    assert_eq!(TSpineError::CorruptedBlock(1).message(), "Corrupted payload block: expected at least 2 bytes, got 1");
    assert_eq!(TSpineError::InvalidHeader.message(), "Invalid T-Spine Code header");
    assert_eq!(TSpineError::PasswordRequired.message(), "Data is encrypted: provide password to decrypt");
    assert_eq!(
        TSpineError::DecryptionFailed.message(),
        "Failed to decrypt payload: invalid password or corrupted data"
    );
    assert_eq!(
        TSpineError::SignatureMismatch.message(),
        "Signature verification failed: signature does not match"
    );
    assert_eq!(TSpineError::CorruptedSignature.message(), "Corrupted signature in header");
    assert_eq!(TSpineError::ReedSolomon("bad".to_string()).message(), "Reed-Solomon decoding error: bad");
    assert_eq!(TSpineError::Compression("x".to_string()).message(), "Compression error: x");
    assert_eq!(TSpineError::Audio("quiet".to_string()).message(), "Audio decoding error: quiet");
    assert_eq!(TSpineError::ScanFailed("blur".to_string()).message(), "Image scanning error: blur");
    assert_eq!(TSpineError::Utf8Error.message(), "Invalid UTF-8 payload");
}
