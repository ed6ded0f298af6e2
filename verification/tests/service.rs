use tspine::decoder::TSpineDecoder;
use tspine::scanner::contour::{binarize, find_contours, trace_boundary};
use tspine::service::{
    audio_text, generate_code, hex_encode, image_suffix, is_video_name, plan_generate, request_encoder, stream_step,
    GenerateParams, MetadataResponse, OutputFormat, StreamAction, StreamEvent, StreamSettings,
};
use tspine::types::{ColorMode, DecodedPayload, EccLevel, Metadata};

fn params() -> GenerateParams {
    GenerateParams {
        text: None,
        public: None,
        private: None,
        format: None,
        colors: None,
        ecc: None,
        nano: None,
        size: None,
        min_header: None,
        password: None,
        sign: None,
        mod_size: None,
        margin: None,
    }
}

#[test]
fn plan_defaults() {
    let plan = plan_generate(&params());
    assert_eq!(plan.format, OutputFormat::Png);
    assert_eq!(plan.mode, ColorMode::FourColor);
    assert_eq!(plan.ecc, EccLevel::Medium);
    assert_eq!(plan.mod_size, 15);
    assert_eq!(plan.margin, 2);
}

#[test]
fn plan_reads_settings() {
    let mut p = params();
    p.format = Some("SVG".to_string());
    p.colors = Some(" 8 ".to_string());
    p.ecc = Some("high".to_string());
    p.mod_size = Some(0);
    p.margin = Some(5);
    let plan = plan_generate(&p);
    assert_eq!(plan.format, OutputFormat::Svg);
    assert_eq!(plan.mode, ColorMode::EightColor);
    assert_eq!(plan.ecc, EccLevel::High);
    assert_eq!(plan.mod_size, 1);
    assert_eq!(plan.margin, 5);
}

#[test]
fn plan_formats() {
    let cases = [
        ("wav", OutputFormat::Wav),
        ("Html", OutputFormat::Html),
        ("ANSI", OutputFormat::Terminal),
        ("term", OutputFormat::Terminal),
        ("terminal", OutputFormat::Terminal),
        ("json", OutputFormat::Json),
        ("gif", OutputFormat::Png),
        (" svg", OutputFormat::Png),
    ];
    for (name, want) in cases {
        let mut p = params();
        p.format = Some(name.to_string());
        assert_eq!(plan_generate(&p).format, want, "format {}", name);
    }
    let mut p = params();
    p.colors = Some("rainbow".to_string());
    assert_eq!(plan_generate(&p).mode, ColorMode::FourColor);
}

#[test]
fn hex_of_bytes() {
    assert_eq!(hex_encode(&[0x00, 0xab, 0x10, 0xff]), "00ab10ff");
    assert_eq!(hex_encode(&[]), "");
}

#[test]
fn audio_text_default() {
    assert_eq!(audio_text(&params()), "T-Spine Audio Packet");
    let mut p = params();
    p.text = Some("beep".to_string());
    assert_eq!(audio_text(&p), "beep");
}

#[test]
fn metadata_response_copies_fields() {
    let m = Metadata {
        size: 13,
        raw_bytes: 11,
        packed_bytes: 19,
        total_cap_bytes: 35,
        ecc_bytes: 12,
        colors: 4,
        bits_per_cell: 2,
        is_dual: true,
        is_encrypted: false,
        is_signed: true,
        is_nano: false,
        ..Metadata::default()
    };
    let r = MetadataResponse::from_metadata(&m);
    assert_eq!((r.size, r.raw_bytes, r.packed_bytes, r.total_cap_bytes), (13, 11, 19, 35));
    assert_eq!((r.ecc_bytes, r.colors, r.bits_per_cell), (12, 4, 2));
    assert_eq!((r.is_dual, r.is_encrypted, r.is_signed, r.is_nano), (true, false, true, false));
}

#[test]
fn generate_default_greeting() {
    let p = params();
    let plan = plan_generate(&p);
    let (grid, meta) = generate_code(&p, &plan).unwrap();
    assert_eq!(meta.raw_bytes, "Hello from T-Spine Code (TSC)!".len());
    assert_eq!(
        TSpineDecoder::new().decode_grid(&grid, None).unwrap(),
        DecodedPayload::Text("Hello from T-Spine Code (TSC)!".to_string())
    );
}

#[test]
fn generate_dual_secured_request() {
    let mut p = params();
    p.public = Some("menu".to_string());
    p.private = Some("recipe".to_string());
    p.password = Some("pw".to_string());
    p.sign = Some("sk".to_string());
    p.colors = Some("mono".to_string());
    p.size = Some(40);
    let plan = plan_generate(&p);
    let enc = request_encoder(&p, &plan);
    let (grid, meta) = enc.encode_dual(b"menu", b"recipe").unwrap();
    assert_eq!(meta.size, 41);
    assert!(meta.is_dual && meta.is_encrypted && meta.is_signed);
    let (grid2, meta2) = generate_code(&p, &plan).unwrap();
    assert_eq!(meta2.size, 41);
    assert_eq!(grid2.size, grid.size);
    let dec = TSpineDecoder::new().password("pw").verify_key("sk");
    assert_eq!(
        dec.decode_grid(&grid2, None).unwrap(),
        DecodedPayload::Dual { public_data: "menu".to_string(), private_data: "recipe".to_string() }
    );
}

#[test]
fn binarize_by_block_mean() {
    let gray = vec![10, 200, 10, 200, 200, 200, 200, 200, 10, 10, 200, 200, 200, 200, 200, 10];
    let b = binarize(&gray, 4, 4);
    assert_eq!(
        b,
        vec![true, false, true, false, false, false, false, false, true, true, false, false, false, false, false, true]
    );
    let dark = binarize(&vec![5u8; 9], 3, 3);
    assert_eq!(dark, vec![true; 9]);
}

#[test]
fn contour_of_a_ring() {
    let (w, h) = (20usize, 20usize);
    let mut b = vec![false; w * h];
    for y in 4..16 {
        for x in 4..16 {
            if y == 4 || y == 15 || x == 4 || x == 15 {
                b[y * w + x] = true;
            }
        }
    }
    let cs = find_contours(&b, w, h);
    assert_eq!(cs.len(), 1);
    assert_eq!(cs[0].len(), 44);
    assert_eq!(&cs[0][..3], &[(15, 5), (15, 6), (15, 7)]);
}

#[test]
fn small_regions_leave_no_contour() {
    let (w, h) = (20usize, 20usize);
    let mut b = vec![false; w * h];
    for y in 5..15 {
        for x in 5..15 {
            b[y * w + x] = true;
        }
    }
    assert!(find_contours(&b, w, h).is_empty());
    let mut visited = vec![false; w * h];
    let c = trace_boundary(&b, w, h, 5, 5, &mut visited);
    assert_eq!(c, vec![(5, 5), (5, 6), (6, 5)]);
    assert!(visited[5 * w + 5] && visited[6 * w + 5] && visited[5 * w + 6]);
    assert_eq!(visited.iter().filter(|v| **v).count(), 3);
}

#[test]
fn upload_kinds() {
    assert!(is_video_name("clip.mp4"));
    assert!(is_video_name("a.b.webm"));
    assert!(is_video_name("ünïcode.mkv"));
    assert!(!is_video_name("photo.png"));
    assert!(!is_video_name("mp4"));
    assert!(!is_video_name("clip.MP4"));
    assert_eq!(image_suffix(&[0x89, 0x50, 0x4e, 0x47, 0x0d]), ".png");
    assert_eq!(image_suffix(&[0xff, 0xd8, 0xff, 0xe0]), ".jpg");
    assert_eq!(image_suffix(b"RIFF\x10\x00\x00\x00WEBPVP8 "), ".webp");
    assert_eq!(image_suffix(b"RIFF\x10\x00\x00\x00WEBP"), ".jpg");
    assert_eq!(image_suffix(&[]), ".jpg");
}

#[test]
fn stream_steps() {
    let s = StreamSettings { password: None, verify_key: Some("vk".to_string()) };
    let (s, a) = stream_step(s, StreamEvent::Frame(vec![1, 2]));
    match a {
        StreamAction::Scan(f, p, v) => {
            assert_eq!(f, vec![1, 2]);
            assert_eq!(p, None);
            assert_eq!(v, Some("vk".to_string()));
        }
        _ => panic!("a frame is scanned"),
    }
    let (s, a) = stream_step(
        s,
        StreamEvent::Settings { password: Some("pw".to_string()), verify: Some(String::new()) },
    );
    assert!(matches!(a, StreamAction::Nothing));
    assert_eq!(s.password, Some("pw".to_string()));
    assert_eq!(s.verify_key, None);
    let (s, a) = stream_step(s, StreamEvent::Settings { password: None, verify: Some("k2".to_string()) });
    assert!(matches!(a, StreamAction::Nothing));
    assert_eq!(s.password, Some("pw".to_string()));
    assert_eq!(s.verify_key, Some("k2".to_string()));
    let (s, a) = stream_step(s, StreamEvent::Other);
    assert!(matches!(a, StreamAction::Nothing));
    let (_, a) = stream_step(s, StreamEvent::Close);
    assert!(matches!(a, StreamAction::Stop));
}
