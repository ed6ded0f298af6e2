//! The decisions of the code server: reading a generation request, and the shapes of its
//! answers.
use vstd::prelude::*;
use vstd::string::StringExecFns;

use crate::encoder::{built, forced_size_ok, EncoderView, TSpineEncoder};
use crate::payload::{dual_packing, single_packing};
use vstd::string::StringSliceAdditionalSpecFns;
use crate::error::TSpineError;
use crate::grid::Grid;
use crate::text::{digit_char, digit_str, lemma_digit_char};
use crate::types::{
    color_mode_named, ecc_level_named, lowercase_text, lowercased, text_is, trimmed, ColorMode,
    EccLevel, Metadata,
};

verus! {

/// The query of a generation request.
pub struct GenerateParams {
    pub text: Option<String>,
    pub public: Option<String>,
    pub private: Option<String>,
    pub format: Option<String>,
    pub colors: Option<String>,
    pub ecc: Option<String>,
    pub nano: Option<bool>,
    pub size: Option<usize>,
    pub min_header: Option<bool>,
    pub password: Option<String>,
    pub sign: Option<String>,
    pub mod_size: Option<u32>,
    pub margin: Option<u32>,
}

/// The metadata of a generated code as the server reports it.
pub struct MetadataResponse {
    pub size: usize,
    pub raw_bytes: usize,
    pub packed_bytes: usize,
    pub total_cap_bytes: usize,
    pub ecc_bytes: usize,
    pub colors: usize,
    pub bits_per_cell: usize,
    pub is_dual: bool,
    pub is_encrypted: bool,
    pub is_signed: bool,
    pub is_nano: bool,
}

impl MetadataResponse {
    /// The reported part of a code's metadata.
    pub fn from_metadata(m: &Metadata) -> (r: Self)
        ensures
            r.size == m.size,
            r.raw_bytes == m.raw_bytes,
            r.packed_bytes == m.packed_bytes,
            r.total_cap_bytes == m.total_cap_bytes,
            r.ecc_bytes == m.ecc_bytes,
            r.colors == m.colors,
            r.bits_per_cell == m.bits_per_cell,
            r.is_dual == m.is_dual,
            r.is_encrypted == m.is_encrypted,
            r.is_signed == m.is_signed,
            r.is_nano == m.is_nano,
    {
        MetadataResponse {
            size: m.size,
            raw_bytes: m.raw_bytes,
            packed_bytes: m.packed_bytes,
            total_cap_bytes: m.total_cap_bytes,
            ecc_bytes: m.ecc_bytes,
            colors: m.colors,
            bits_per_cell: m.bits_per_cell,
            is_dual: m.is_dual,
            is_encrypted: m.is_encrypted,
            is_signed: m.is_signed,
            is_nano: m.is_nano,
        }
    }
}

/// The lowercase hexadecimal digits of bytes, two to a byte.
pub open spec fn hex_of(bytes: Seq<u8>) -> Seq<char>
    decreases bytes.len(),
{
    if bytes.len() == 0 {
        seq![]
    } else {
        hex_of(bytes.drop_last()) + seq![
            digit_char((bytes.last() / 16) as nat),
            digit_char((bytes.last() % 16) as nat),
        ]
    }
}

/// The value of a lowercase hexadecimal digit.
pub open spec fn hex_digit_value(c: char) -> int {
    if c <= '9' {
        c as int - 48
    } else {
        c as int - 87
    }
}

/// Whether `c` is a lowercase hexadecimal digit.
pub open spec fn is_hex_digit(c: char) -> bool {
    ('0' <= c <= '9') || ('a' <= c <= 'f')
}

/// The hexadecimal text of bytes reads back as the bytes: two lowercase hexadecimal digits
/// for each byte, the first its high four bits and the second its low four bits.
pub proof fn lemma_hex_reads_back(bytes: Seq<u8>)
    ensures
        hex_of(bytes).len() == 2 * bytes.len(),
        forall|i: int|
            0 <= i < hex_of(bytes).len() ==> is_hex_digit(#[trigger] hex_of(bytes)[i]),
        forall|i: int|
            0 <= i < bytes.len() ==> hex_digit_value(hex_of(bytes)[2 * i]) * 16 + hex_digit_value(
                hex_of(bytes)[2 * i + 1],
            ) == #[trigger] bytes[i],
    decreases bytes.len(),
{
    if bytes.len() > 0 {
        let prev = bytes.drop_last();
        lemma_hex_reads_back(prev);
        let b = bytes.last();
        let hi = (b / 16) as nat;
        let lo = (b % 16) as nat;
        lemma_digit_char(hi);
        lemma_digit_char(lo);
        let h = hex_of(bytes);
        let hp = hex_of(prev);
        assert(h == hp + seq![digit_char(hi), digit_char(lo)]);
        assert forall|i: int| 0 <= i < bytes.len() implies hex_digit_value(h[2 * i]) * 16
            + hex_digit_value(h[2 * i + 1]) == #[trigger] bytes[i] by {
            if i < bytes.len() - 1 {
                assert(bytes[i] == prev[i]);
                assert(h[2 * i] == hp[2 * i]);
                assert(h[2 * i + 1] == hp[2 * i + 1]);
            } else {
                assert(h[2 * i] == digit_char(hi));
                assert(h[2 * i + 1] == digit_char(lo));
                assert(hi * 16 + lo == b);
            }
        }
        assert forall|i: int| 0 <= i < h.len() implies is_hex_digit(#[trigger] h[i]) by {
            if i < hp.len() {
                assert(h[i] == hp[i]);
            }
        }
    }
}

/// The lowercase hexadecimal digits of bytes, two to a byte.
pub fn hex_encode(bytes: &[u8]) -> (s: String)
    ensures
        s@ == hex_of(bytes@),
{
    let mut s = String::new();
    let mut i: usize = 0;
    while i < bytes.len()
        invariant
            i <= bytes@.len(),
            s@ == hex_of(bytes@.take(i as int)),
        decreases bytes@.len() - i,
    {
        let b = bytes[i];
        s.append(digit_str((b / 16) as u64));
        s.append(digit_str((b % 16) as u64));
        proof {
            assert(bytes@.take(i as int + 1).drop_last() =~= bytes@.take(i as int));
        }
        i += 1;
    }
    proof {
        assert(bytes@.take(bytes@.len() as int) =~= bytes@);
    }
    s
}

/// The kinds of answer to a generation request.
#[derive(Clone, Copy, PartialEq, Eq, Structural, Debug)]
pub enum OutputFormat {
    Wav,
    Svg,
    Html,
    Terminal,
    Json,
    Png,
}

/// The answer a lowercased format names: "wav", "svg", "html", "term", "terminal" or "ansi",
/// "json"; anything else a PNG image.
pub open spec fn format_named(f: Seq<char>) -> OutputFormat {
    if f == "wav"@ {
        OutputFormat::Wav
    } else if f == "svg"@ {
        OutputFormat::Svg
    } else if f == "html"@ {
        OutputFormat::Html
    } else if f == "term"@ || f == "terminal"@ || f == "ansi"@ {
        OutputFormat::Terminal
    } else if f == "json"@ {
        OutputFormat::Json
    } else {
        OutputFormat::Png
    }
}

/// How a request is answered: its format, colour mode, error-correction level, module size
/// and quiet zone.
pub struct GeneratePlan {
    pub format: OutputFormat,
    pub mode: ColorMode,
    pub ecc: EccLevel,
    pub mod_size: u32,
    pub margin: u32,
}

/// The text of an optional string, if any.
fn opt_text(o: &Option<String>) -> (r: Option<&str>)
    ensures
        match *o {
            Some(s) => r matches Some(t) && t@ == s@,
            None => r is None,
        },
{
    match o {
        Some(s) => Some(s.as_str()),
        None => None,
    }
}

/// Reads the settings of a request: the colour mode named by `colors` (four colours when absent
/// or unknown), the level named by `ecc` (medium when absent), the format (PNG when absent),
/// modules of `mod_size` pixels (15 when absent, at least 1) and a quiet zone of `margin`
/// modules (2 when absent).
pub fn plan_generate(params: &GenerateParams) -> (plan: GeneratePlan)
    ensures
        plan.mode == match params.colors {
            Some(c) => match color_mode_named(lowercased(trimmed(c@))) {
                Some(m) => m,
                None => ColorMode::FourColor,
            },
            None => ColorMode::FourColor,
        },
        plan.ecc == match params.ecc {
            Some(e) => ecc_level_named(lowercased(trimmed(e@))),
            None => EccLevel::Medium,
        },
        plan.format == match params.format {
            Some(f) => format_named(lowercased(f@)),
            None => OutputFormat::Png,
        },
        plan.mod_size == match params.mod_size {
            Some(m) => if m >= 1 {
                m
            } else {
                1
            },
            None => 15,
        },
        plan.margin == match params.margin {
            Some(m) => m,
            None => 2,
        },
{
    let mode = match opt_text(&params.colors) {
        Some(c) => match ColorMode::from_str_loose(c) {
            Some(m) => m,
            None => ColorMode::FourColor,
        },
        None => ColorMode::FourColor,
    };
    let ecc = match opt_text(&params.ecc) {
        Some(e) => EccLevel::from_str_loose(e),
        None => EccLevel::Medium,
    };
    let format = match opt_text(&params.format) {
        Some(f) => {
            let lower = lowercase_text(f);
            if text_is(&lower, "wav") {
                OutputFormat::Wav
            } else if text_is(&lower, "svg") {
                OutputFormat::Svg
            } else if text_is(&lower, "html") {
                OutputFormat::Html
            } else if text_is(&lower, "term") || text_is(&lower, "terminal") || text_is(&lower, "ansi") {
                OutputFormat::Terminal
            } else if text_is(&lower, "json") {
                OutputFormat::Json
            } else {
                OutputFormat::Png
            }
        },
        None => OutputFormat::Png,
    };
    let mod_size = match params.mod_size {
        Some(m) => if m >= 1 {
            m
        } else {
            1
        },
        None => 15,
    };
    let margin = match params.margin {
        Some(m) => m,
        None => 2,
    };
    GeneratePlan { format, mode, ecc, mod_size, margin }
}

/// The text a sound request sends: the request's text, or "T-Spine Audio Packet".
pub fn audio_text(params: &GenerateParams) -> (t: String)
    ensures
        t@ == match params.text {
            Some(s) => s@,
            None => "T-Spine Audio Packet"@,
        },
{
    match &params.text {
        Some(s) => s.clone(),
        None => "T-Spine Audio Packet".to_owned(),
    }
}

/// The encoder settings a request asks for: the plan's colour mode and level, the nano layout
/// and minimal header if asked, the password, signing key and forced side if given.
pub open spec fn requested_encoder(params: GenerateParams, plan: GeneratePlan) -> EncoderView {
    EncoderView {
        color_mode: plan.mode,
        ecc_level: plan.ecc,
        password: match params.password {
            Some(p) => Some(vstd::utf8::encode_utf8(p@)),
            None => None,
        },
        sign_key: match params.sign {
            Some(k) => Some(vstd::utf8::encode_utf8(k@)),
            None => None,
        },
        forced_size: match params.size {
            Some(s) => Some(
                if s % 2 == 0 {
                    (s + 1) as usize
                } else {
                    s
                },
            ),
            None => None,
        },
        nano: match params.nano {
            Some(b) => b,
            None => false,
        },
        min_header: match params.min_header {
            Some(b) => b,
            None => false,
        },
    }
}

/// The encoder a request asks for.
pub fn request_encoder(params: &GenerateParams, plan: &GeneratePlan) -> (e: TSpineEncoder)
    requires
        params.size matches Some(s) ==> s < usize::MAX,
    ensures
        e@ == requested_encoder(*params, *plan),
{
    let mut encoder = TSpineEncoder::new().color_mode(plan.mode).ecc_level(plan.ecc).nano(
        match params.nano {
            Some(b) => b,
            None => false,
        },
    ).min_header(
        match params.min_header {
            Some(b) => b,
            None => false,
        },
    );
    match &params.password {
        Some(p) => {
            encoder = encoder.password(p.as_str());
        },
        None => {},
    }
    match &params.sign {
        Some(k) => {
            encoder = encoder.sign_key(k.as_str());
        },
        None => {},
    }
    match params.size {
        Some(s) => {
            encoder = encoder.forced_size(s);
        },
        None => {},
    }
    encoder
}

/// The text a code request encodes: the request's text, or "Hello from T-Spine Code (TSC)!".
pub open spec fn code_text(params: GenerateParams) -> Seq<char> {
    match params.text {
        Some(s) => s@,
        None => "Hello from T-Spine Code (TSC)!"@,
    }
}

/// Encodes what a request asks for with the encoder it asks for: the public and private texts
/// as a dual payload when both are given, else its text (or the greeting) as a single one.
pub fn generate_code(params: &GenerateParams, plan: &GeneratePlan) -> (r: Result<(Grid, Metadata), TSpineError>)
    requires
        params.size matches Some(s) ==> 2 <= s < usize::MAX && (s + 1) * (s + 1) * 3 <= usize::MAX,
        vstd::utf8::encode_utf8(code_text(*params)).len() <= usize::MAX / 4,
        params.public matches Some(p) ==> params.private matches Some(q) ==> vstd::utf8::encode_utf8(
            q@,
        ).len() < usize::MAX / 4 && vstd::utf8::encode_utf8(p@).len() + vstd::utf8::encode_utf8(
            q@,
        ).len() <= usize::MAX,
    ensures
        match (params.public, params.private) {
            (Some(p), Some(q)) => exists|raw: Seq<u8>, body: Seq<u8>, iv: Seq<u8>, ts: u64|
                #[trigger] dual_packing(
                    raw,
                    body,
                    vstd::utf8::encode_utf8(p@),
                    vstd::utf8::encode_utf8(q@),
                    requested_encoder(*params, *plan).password,
                    requested_encoder(*params, *plan).sign_key,
                    requested_encoder(*params, *plan).min_header,
                    iv,
                    ts,
                ) && built(
                    requested_encoder(*params, *plan),
                    raw,
                    body.len(),
                    vstd::utf8::encode_utf8(p@).len() + vstd::utf8::encode_utf8(q@).len(),
                    true,
                    r,
                ),
            _ => exists|raw: Seq<u8>, body: Seq<u8>, iv: Seq<u8>, ts: u64|
                #[trigger] single_packing(
                    raw,
                    body,
                    vstd::utf8::encode_utf8(code_text(*params)),
                    requested_encoder(*params, *plan).password,
                    requested_encoder(*params, *plan).sign_key,
                    requested_encoder(*params, *plan).min_header,
                    iv,
                    ts,
                ) && built(
                    requested_encoder(*params, *plan),
                    raw,
                    body.len(),
                    vstd::utf8::encode_utf8(code_text(*params)).len(),
                    false,
                    r,
                ),
        },
{
    let encoder = request_encoder(params, plan);
    assert(forced_size_ok(encoder@)) by {
        match params.size {
            Some(s) => {
                if s % 2 == 0 {
                    assert((s + 1) * (s + 1) * 3 <= usize::MAX);
                } else {
                    assert(s * s * 3 <= (s + 1) * (s + 1) * 3) by (nonlinear_arith);
                }
            },
            None => {},
        }
    }
    match (&params.public, &params.private) {
        (Some(p), Some(q)) => encoder.encode_dual(p.as_str().as_bytes(), q.as_str().as_bytes()),
        _ => match &params.text {
            Some(t) => encoder.encode(t.as_str().as_bytes()),
            None => encoder.encode("Hello from T-Spine Code (TSC)!".as_bytes()),
        },
    }
}

/// Whether `s` ends with `suffix`.
pub open spec fn has_suffix(s: Seq<char>, suffix: Seq<char>) -> bool {
    suffix.len() <= s.len() && s.subrange(s.len() - suffix.len(), s.len() as int) == suffix
}

/// Whether `s` ends with `suffix`, compared character by character.
fn ends_with_text(s: &str, suffix: &str) -> (b: bool)
    ensures
        b == has_suffix(s@, suffix@),
{
    let n: usize = s.unicode_len();
    let k: usize = suffix.unicode_len();
    if k > n {
        return false;
    }
    let start: usize = n - k;
    let mut i: usize = 0;
    while i < k
        invariant
            n == s@.len(),
            k == suffix@.len(),
            start == n - k,
            i <= k,
            forall|j: int| 0 <= j < i ==> s@[start + j] == suffix@[j],
        decreases k - i,
    {
        if s.get_char(start + i) != suffix.get_char(i) {
            assert(s@.subrange(start as int, n as int)[i as int] != suffix@[i as int]);
            return false;
        }
        i += 1;
    }
    assert(s@.subrange(start as int, n as int) =~= suffix@);
    true
}

/// Whether an uploaded file's name marks a video: it ends in ".mp4", ".webm", ".mov", ".avi"
/// or ".mkv".
pub open spec fn video_name(name: Seq<char>) -> bool {
    has_suffix(name, ".mp4"@) || has_suffix(name, ".webm"@) || has_suffix(name, ".mov"@)
        || has_suffix(name, ".avi"@) || has_suffix(name, ".mkv"@)
}

/// Whether an uploaded file is scanned as a video, by its name.
pub fn is_video_name(name: &str) -> (b: bool)
    ensures
        b == video_name(name@),
{
    ends_with_text(name, ".mp4") || ends_with_text(name, ".webm") || ends_with_text(name, ".mov")
        || ends_with_text(name, ".avi") || ends_with_text(name, ".mkv")
}

/// The file suffix an uploaded image is stored under, by its first bytes: PNG and JPEG by
/// their signatures, WebP by its RIFF container, and JPEG for anything else.
pub open spec fn image_suffix_of(b: Seq<u8>) -> Seq<char> {
    if b.len() >= 4 && b[0] == 0x89 && b[1] == 0x50 && b[2] == 0x4e && b[3] == 0x47 {
        ".png"@
    } else if b.len() >= 3 && b[0] == 0xff && b[1] == 0xd8 && b[2] == 0xff {
        ".jpg"@
    } else if b.len() > 12 && b[0] == 0x52 && b[1] == 0x49 && b[2] == 0x46 && b[3] == 0x46 && b[8]
        == 0x57 && b[9] == 0x45 && b[10] == 0x42 && b[11] == 0x50 {
        ".webp"@
    } else {
        ".jpg"@
    }
}

/// The file suffix for an uploaded image.
pub fn image_suffix(bytes: &[u8]) -> (s: &'static str)
    ensures
        s@ == image_suffix_of(bytes@),
{
    let n: usize = bytes.len();
    if n >= 4 && bytes[0] == 0x89 && bytes[1] == 0x50 && bytes[2] == 0x4e && bytes[3] == 0x47 {
        ".png"
    } else if n >= 3 && bytes[0] == 0xff && bytes[1] == 0xd8 && bytes[2] == 0xff {
        ".jpg"
    } else if n > 12 && bytes[0] == 0x52 && bytes[1] == 0x49 && bytes[2] == 0x46 && bytes[3] == 0x46
        && bytes[8] == 0x57 && bytes[9] == 0x45 && bytes[10] == 0x42 && bytes[11] == 0x50 {
        ".webp"
    } else {
        ".jpg"
    }
}

/// The settings of a scanning stream: the password and the verification key frames are
/// scanned with.
pub struct StreamSettings {
    pub password: Option<String>,
    pub verify_key: Option<String>,
}

/// What a scanning stream receives: a frame, new settings (each field as sent, absent when not
/// sent), a request to close, or anything else.
pub enum StreamEvent {
    Frame(Vec<u8>),
    Settings { password: Option<String>, verify: Option<String> },
    Close,
    Other,
}

/// What a scanning stream does next: scan a frame with the given password and verification
/// key, nothing, or stop.
pub enum StreamAction {
    Scan(Vec<u8>, Option<String>, Option<String>),
    Nothing,
    Stop,
}

/// A text's view, inside an option.
pub open spec fn opt_view(o: Option<String>) -> Option<Seq<char>> {
    match o {
        Some(t) => Some(t@),
        None => None,
    }
}

/// The frame and settings a scan action uses, if it is one.
pub open spec fn scan_of(a: StreamAction) -> Option<(Seq<u8>, Option<Seq<char>>, Option<Seq<char>>)> {
    match a {
        StreamAction::Scan(f, p, v) => Some((f@, opt_view(p), opt_view(v))),
        _ => None,
    }
}

/// A setting after a message that sent `sent`: unchanged when not sent, cleared when sent
/// empty, else the text sent.
pub open spec fn updated_setting(current: Option<Seq<char>>, sent: Option<Seq<char>>) -> Option<Seq<char>> {
    match sent {
        Some(t) => if t.len() == 0 {
            None
        } else {
            Some(t)
        },
        None => current,
    }
}

/// A setting after a message.
fn update_setting(current: Option<String>, sent: Option<String>) -> (r: Option<String>)
    ensures
        opt_view(r) == updated_setting(opt_view(current), opt_view(sent)),
{
    match sent {
        Some(t) => if t.as_str().unicode_len() == 0 {
            None
        } else {
            Some(t)
        },
        None => current,
    }
}

/// One step of a scanning stream: a frame is scanned with the current settings, a settings
/// message updates them, a close request stops the stream, and anything else is ignored.
pub fn stream_step(settings: StreamSettings, event: StreamEvent) -> (r: (StreamSettings, StreamAction))
    ensures
        match event {
            StreamEvent::Frame(b) => opt_view(r.0.password) == opt_view(settings.password)
                && opt_view(r.0.verify_key) == opt_view(settings.verify_key) && scan_of(r.1) == Some(
                (b@, opt_view(settings.password), opt_view(settings.verify_key)),
            ),
            StreamEvent::Settings { password, verify } => opt_view(r.0.password) == updated_setting(
                opt_view(settings.password),
                opt_view(password),
            ) && opt_view(r.0.verify_key) == updated_setting(
                opt_view(settings.verify_key),
                opt_view(verify),
            ) && r.1 is Nothing,
            StreamEvent::Close => opt_view(r.0.password) == opt_view(settings.password) && opt_view(
                r.0.verify_key,
            ) == opt_view(settings.verify_key) && r.1 is Stop,
            StreamEvent::Other => opt_view(r.0.password) == opt_view(settings.password) && opt_view(
                r.0.verify_key,
            ) == opt_view(settings.verify_key) && r.1 is Nothing,
        },
{
    match event {
        StreamEvent::Frame(b) => {
            let p = settings.password.clone();
            let v = settings.verify_key.clone();
            (settings, StreamAction::Scan(b, p, v))
        },
        StreamEvent::Settings { password, verify } => {
            let StreamSettings { password: cur_p, verify_key: cur_v } = settings;
            (
                StreamSettings {
                    password: update_setting(cur_p, password),
                    verify_key: update_setting(cur_v, verify),
                },
                StreamAction::Nothing,
            )
        },
        StreamEvent::Close => (settings, StreamAction::Stop),
        StreamEvent::Other => (settings, StreamAction::Nothing),
    }
}

} // verus!
