use tspine::decoder::TSpineDecoder;
use tspine::encoder::TSpineEncoder;
use tspine::error::TSpineError;
use tspine::export::audio::AudioModem;
use tspine::grid::Grid;
use tspine::scanner::audio_scan::AudioScanner;
use tspine::scanner::image_scan::{calibrate, classify, nearest_color, ImageScanner};
use tspine::scanner::image_scan_u::{
    orientation_ok, payload_text, rgb_luminance, skeleton_holds, UniversalScanner,
};
use tspine::types::{ColorMode, DecodedPayload, EccLevel, Rgb};

fn samples_of(g: &Grid) -> Vec<Vec<Rgb>> {
    (0..g.size).map(|y| (0..g.size).map(|x| g.get_rgb(x, y)).collect()).collect()
}

#[test]
fn encode_metadata_of_hello_world() {
    let (grid, meta) = TSpineEncoder::new().encode(b"Hello World").unwrap();
    assert_eq!(grid.size, 13);
    assert_eq!(meta.size, 13);
    assert_eq!(meta.raw_bytes, 11);
    assert_eq!(meta.packed_bytes, 19);
    assert_eq!(meta.header_bytes_count, 8);
    assert_eq!(meta.data_bytes_count, 15);
    assert_eq!(meta.ecc_start_byte, 23);
    assert_eq!(meta.total_cap_bytes, 35);
    assert_eq!(meta.ecc_bytes, 12);
    assert_eq!(meta.colors, 4);
    assert_eq!(meta.bits_per_cell, 2);
    assert_eq!(meta.flags, 0);
    assert!(!meta.is_dual && !meta.is_binary && !meta.is_signed && !meta.is_encrypted);
    assert!(!meta.is_min_header && !meta.is_nano);
}

#[test]
fn encode_decode_standard_roundtrip() {
    for mode in [ColorMode::Monochrome, ColorMode::FourColor, ColorMode::EightColor] {
        let (grid, _) = TSpineEncoder::new().color_mode(mode).encode(b"Hello World").unwrap();
        let decoded = TSpineDecoder::new().decode_grid(&grid, None).unwrap();
        assert_eq!(decoded, DecodedPayload::Text("Hello World".to_string()));
    }
}

#[test]
fn encode_decode_binary_roundtrip() {
    let data: Vec<u8> = (0..200u32).map(|i| (i * 31 % 256) as u8).collect();
    let (grid, meta) = TSpineEncoder::new().ecc_level(EccLevel::High).encode(&data).unwrap();
    assert!(meta.is_binary);
    assert_eq!(meta.ecc_bytes, 28);
    assert_eq!(TSpineDecoder::new().decode_grid(&grid, None).unwrap(), DecodedPayload::Binary(data));
}

#[test]
fn encode_decode_secured_roundtrip() {
    let (grid, meta) =
        TSpineEncoder::new().password("pw").sign_key("sk").encode(b"classified").unwrap();
    assert!(meta.is_encrypted && meta.is_signed);
    assert_eq!(meta.header_bytes_count, 4 + 32 + 4);
    let dec = TSpineDecoder::new().password("pw").verify_key("sk");
    assert_eq!(dec.decode_grid(&grid, None).unwrap(), DecodedPayload::Text("classified".to_string()));
    let wrong_key = TSpineDecoder::new().password("pw").verify_key("other");
    assert_eq!(wrong_key.decode_grid(&grid, None), Err(TSpineError::SignatureMismatch));
    assert!(TSpineDecoder::new().decode_grid(&grid, None).is_err());
}

#[test]
fn encode_decode_nano_roundtrip() {
    let (grid, meta) = TSpineEncoder::new()
        .color_mode(ColorMode::Monochrome)
        .ecc_level(EccLevel::Off)
        .min_header(true)
        .encode(b"Hi")
        .unwrap();
    assert_eq!(meta.size, 7);
    assert!(meta.is_nano && meta.is_min_header);
    assert_eq!(meta.packed_bytes, 4);
    assert_eq!(TSpineDecoder::new().decode_grid(&grid, None).unwrap(), DecodedPayload::Text("Hi".to_string()));
}

#[test]
fn encode_forced_nano_layout() {
    let (grid, meta) = TSpineEncoder::new()
        .color_mode(ColorMode::Monochrome)
        .ecc_level(EccLevel::Off)
        .nano(true)
        .encode(b"Hi")
        .unwrap();
    assert_eq!(meta.size, 11);
    assert!(meta.is_nano);
    assert_eq!(
        TSpineDecoder::new().decode_grid(&grid, Some(true)).unwrap(),
        DecodedPayload::Text("Hi".to_string())
    );
}

#[test]
fn encode_forced_size() {
    let (grid, meta) = TSpineEncoder::new().forced_size(20).encode(b"abc").unwrap();
    assert_eq!(grid.size, 21);
    assert_eq!(meta.size, 21);
    assert_eq!(TSpineDecoder::new().decode_grid(&grid, None).unwrap(), DecodedPayload::Text("abc".to_string()));
}

#[test]
fn encode_forced_size_too_small() {
    let r = TSpineEncoder::new().forced_size(9).encode(&[b'q'; 200]);
    assert!(matches!(r, Err(TSpineError::DataTooLarge { .. })));
    if let Err(TSpineError::DataTooLarge { required, capacity }) = r {
        assert_eq!(capacity, 3);
        assert!(required > capacity);
    }
}

#[test]
fn encode_too_large_for_any_size() {
    let mut state: u64 = 0x9e3779b97f4a7c15;
    let data: Vec<u8> = (0..30000)
        .map(|_| {
            state ^= state << 13;
            state ^= state >> 7;
            state ^= state << 17;
            (state >> 24) as u8
        })
        .collect();
    let r = TSpineEncoder::new().color_mode(ColorMode::Monochrome).encode(&data);
    assert_eq!(r.unwrap_err(), TSpineError::SizeExceedsLimit { size: 253 });
}

#[test]
fn encode_dual_roundtrip() {
    let (grid, meta) = TSpineEncoder::new().password("pw").encode_dual(b"public note", b"private note").unwrap();
    assert!(meta.is_dual && meta.is_encrypted);
    assert_eq!(meta.raw_bytes, 11 + 12);
    let dec = TSpineDecoder::new().password("pw");
    assert_eq!(
        dec.decode_grid(&grid, None).unwrap(),
        DecodedPayload::Dual { public_data: "public note".to_string(), private_data: "private note".to_string() }
    );
}

#[test]
fn decode_blank_grid_fails() {
    let g = Grid::new(9, ColorMode::FourColor);
    assert!(TSpineDecoder::new().decode_grid(&g, None).is_err());
}

#[test]
fn image_scanner_reads_sampled_colours() {
    let (grid, _) = TSpineEncoder::new().encode(b"scan me").unwrap();
    let samples = samples_of(&grid);
    let got = ImageScanner::scan_samples(&samples, grid.size, None, None, None);
    assert_eq!(got, Some(DecodedPayload::Text("scan me".to_string())));
    let forced = ImageScanner::scan_samples(&samples, grid.size, None, None, Some(ColorMode::FourColor));
    assert_eq!(forced, Some(DecodedPayload::Text("scan me".to_string())));
}

#[test]
fn image_scanner_rejects_blank_samples() {
    let samples = vec![vec![Rgb(255, 255, 255); 9]; 9];
    assert_eq!(ImageScanner::scan_samples(&samples, 9, None, None, None), None);
}

#[test]
fn palette_calibration_and_classification() {
    let mut g = Grid::new(9, ColorMode::FourColor);
    g.apply_skeletons(false);
    g.set(0, 3, 2);
    let samples = samples_of(&g);
    let palette = calibrate(&samples, 9, false, ColorMode::FourColor, 1);
    assert_eq!(palette, vec![Rgb(255, 255, 255), Rgb(0, 0, 0), Rgb(255, 0, 0), Rgb(0, 0, 255)]);
    let back = classify(&samples, 9, ColorMode::FourColor, &palette);
    assert_eq!(back, g);
    assert_eq!(nearest_color(&palette, Rgb(200, 30, 20)), 2);
    assert_eq!(nearest_color(&palette, Rgb(20, 20, 20)), 1);
}

#[test]
fn universal_scanner_settings() {
    let s = UniversalScanner::new();
    assert_eq!(s.modes_to_test(), vec![ColorMode::FourColor, ColorMode::EightColor, ColorMode::Monochrome]);
    let f = UniversalScanner::new().forced_mode(ColorMode::EightColor);
    assert_eq!(f.modes_to_test(), vec![ColorMode::EightColor]);
    let sizes = UniversalScanner::new().candidate_sizes(Some(20));
    assert_eq!(&sizes[..7], &[21, 19, 23, 17, 25, 15, 27]);
    assert_eq!(sizes.len(), 7 + 124);
    assert_eq!(UniversalScanner::new().forced_size(30).candidate_sizes(Some(20)), vec![31]);
    let all = UniversalScanner::new().candidate_sizes(None);
    assert_eq!(all.len(), 124);
    assert_eq!((all[0], all[123]), (5, 251));
    let edge = UniversalScanner::new().candidate_sizes(Some(5));
    assert_eq!(&edge[..4], &[5, 7, 9, 11]);
}

#[test]
fn universal_scanner_decodes_samples() {
    let (grid, _) = TSpineEncoder::new().color_mode(ColorMode::EightColor).password("pw").encode(b"photo").unwrap();
    let samples = samples_of(&grid);
    let scanner = UniversalScanner::new().password("pw").forced_mode(ColorMode::EightColor);
    let (payload, mode, palette) = scanner.decode_sampled(&samples, grid.size, false).unwrap();
    assert_eq!(payload, DecodedPayload::Text("photo".to_string()));
    assert_eq!(mode, ColorMode::EightColor);
    assert_eq!(palette, (0..8).map(Rgb::palette).collect::<Vec<_>>());
}

#[test]
fn luminance_and_orientation() {
    assert_eq!(rgb_luminance(&Rgb(255, 255, 255)), 255);
    assert_eq!(rgb_luminance(&Rgb(0, 0, 0)), 0);
    assert_eq!(rgb_luminance(&Rgb(255, 0, 0)), 76);
    assert!(orientation_ok(10, 200));
    assert!(!orientation_ok(200, 10));
    assert!(!orientation_ok(100, 124));
    assert!(orientation_ok(100, 125));
    assert!(skeleton_holds(10, 240, &vec![10, 20, 30, 40], true));
    assert!(!skeleton_holds(10, 240, &vec![10, 230, 30, 40], true));
    assert!(skeleton_holds(10, 240, &vec![10, 20, 30, 250], false));
    assert!(!skeleton_holds(10, 240, &vec![10, 250, 250, 250], false));
}

#[test]
fn payload_text_of_each_kind() {
    assert_eq!(payload_text(&DecodedPayload::Text("a".to_string())), Some("a".to_string()));
    assert_eq!(payload_text(&DecodedPayload::Binary(vec![b'o', b'k'])), Some("ok".to_string()));
    assert_eq!(payload_text(&DecodedPayload::Binary(vec![0xff])), None);
}

#[test]
fn audio_tone_levels() {
    assert_eq!(AudioModem::ecc_tone(0), 3);
    assert_eq!(AudioModem::ecc_tone(4), 0);
    assert_eq!(AudioModem::ecc_tone(12), 1);
    assert_eq!(AudioModem::ecc_tone(28), 2);
    assert_eq!(AudioScanner::calibration(1, 0), (8, 4));
    assert_eq!(AudioScanner::calibration(9, 1), (8, 12));
    assert_eq!(AudioScanner::calibration(5, 2), (4, 28));
    assert_eq!(AudioScanner::calibration(3, 3), (2, 0));
}

#[test]
fn audio_modulate_demodulate_roundtrip() {
    for (mode, bpc) in [(ColorMode::Monochrome, 1), (ColorMode::FourColor, 2), (ColorMode::EightColor, 3)] {
        let (symbols, tone) = AudioModem::modulate(b"Hi", mode, EccLevel::Medium, None).unwrap();
        assert_eq!(tone, 1);
        assert_eq!(symbols.len(), (22 * 8 + bpc - 1) / bpc);
        assert!(symbols.iter().all(|&s| (s as usize) < (1 << bpc)));
        let back = AudioScanner::demodulate(&symbols, bpc, 12, None, None).unwrap();
        assert_eq!(back, DecodedPayload::Text("Hi".to_string()));
    }
}

#[test]
fn audio_symbols_are_the_encoded_bits() {
    let (symbols, tone) = AudioModem::modulate(b"Hi", ColorMode::Monochrome, EccLevel::Off, None).unwrap();
    assert_eq!(tone, 3);
    let expected_bytes = [0x54u8, 0x53, 0x43, 0x00, 0, 0, 0, 2, b'H', b'i'];
    let mut bits = Vec::new();
    for b in expected_bytes {
        for k in (0..8).rev() {
            bits.push((b >> k) & 1);
        }
    }
    assert_eq!(symbols, bits);
}

#[test]
fn audio_encrypted_roundtrip() {
    let (symbols, _) = AudioModem::modulate(b"quiet", ColorMode::FourColor, EccLevel::Low, Some("pw")).unwrap();
    let back = AudioScanner::demodulate(&symbols, 2, 4, Some("pw"), None).unwrap();
    assert_eq!(back, DecodedPayload::Text("quiet".to_string()));
    assert_eq!(AudioScanner::demodulate(&symbols, 2, 4, None, None), Err(TSpineError::PasswordRequired));
}

#[test]
fn tone_bits_and_layouts() {
    assert_eq!(AudioScanner::tone_bits(8), 3);
    assert_eq!(AudioScanner::tone_bits(4), 2);
    assert_eq!(AudioScanner::tone_bits(2), 1);
    assert_eq!(UniversalScanner::layouts_for(5), vec![true, false]);
    assert_eq!(UniversalScanner::layouts_for(7), vec![true, false]);
    assert_eq!(UniversalScanner::layouts_for(9), vec![false]);
}

#[test]
fn forced_small_side_reads_in_nano_layout() {
    let (grid, meta) = TSpineEncoder::new()
        .color_mode(ColorMode::EightColor)
        .ecc_level(EccLevel::Off)
        .forced_size(7)
        .encode(b"Hi")
        .unwrap();
    assert_eq!(meta.size, 7);
    assert!(meta.is_nano);
    assert_eq!(TSpineDecoder::new().decode_grid(&grid, None).unwrap(), DecodedPayload::Text("Hi".to_string()));
}

#[test]
fn image_scanner_reads_dual_code() {
    let (grid, _) = TSpineEncoder::new().encode_dual(b"public", b"private").unwrap();
    let samples = samples_of(&grid);
    assert_eq!(
        ImageScanner::scan_samples(&samples, grid.size, None, None, Some(ColorMode::FourColor)),
        Some(DecodedPayload::Dual { public_data: "public".to_string(), private_data: "private".to_string() })
    );
}

#[test]
fn skeleton_holds_on_a_long_spine() {
    let mut lums = vec![10u8; 20000];
    assert!(skeleton_holds(10, 240, &lums, false));
    for l in lums.iter_mut().take(6001) {
        *l = 250;
    }
    assert!(!skeleton_holds(10, 240, &lums, false));
}

#[test]
fn encode_decode_every_level_roundtrip() {
    for level in [EccLevel::Off, EccLevel::Low, EccLevel::Medium, EccLevel::High] {
        let (grid, meta) = TSpineEncoder::new()
            .ecc_level(level)
            .password("pw")
            .sign_key("sk")
            .encode(b"every level reads back")
            .unwrap();
        assert!(!meta.is_nano);
        let dec = TSpineDecoder::new().password("pw").verify_key("sk");
        assert_eq!(
            dec.decode_grid(&grid, None).unwrap(),
            DecodedPayload::Text("every level reads back".to_string())
        );
    }
}

#[test]
fn image_scanner_reads_other_colour_modes() {
    for mode in [ColorMode::EightColor, ColorMode::Monochrome] {
        let (grid, _) = TSpineEncoder::new().color_mode(mode).encode(b"other modes").unwrap();
        let samples = samples_of(&grid);
        assert_eq!(
            ImageScanner::scan_samples(&samples, grid.size, None, None, None),
            Some(DecodedPayload::Text("other modes".to_string()))
        );
    }
}
