//! Sound-effect and music-track identifiers with their asset paths and labels.

use vstd::prelude::*;

verus! {

/// Sound effect identifiers — each maps to a .wav file in assets/audio/sfx/.
#[derive(Clone, Copy, PartialEq, Eq, Hash, Debug)]
pub enum SoundEffect {
    FootstepWalk,
    FootstepRun,
    QteCorrect,
    QteWrong,
    QteRoundComplete,
    QteSessionComplete,
    UrgencyWarning,
    UrgencyCritical,
    Victory,
    GameOver,
}

impl SoundEffect {
    /// Asset path of this effect, as a character sequence.
    pub open spec fn spec_path(self) -> Seq<char> {
        match self {
            SoundEffect::FootstepWalk => "assets/audio/sfx/footstep_walk.wav"@,
            SoundEffect::FootstepRun => "assets/audio/sfx/footstep_run.wav"@,
            SoundEffect::QteCorrect => "assets/audio/sfx/qte_correct.wav"@,
            SoundEffect::QteWrong => "assets/audio/sfx/qte_wrong.wav"@,
            SoundEffect::QteRoundComplete => "assets/audio/sfx/qte_round_complete.wav"@,
            SoundEffect::QteSessionComplete => "assets/audio/sfx/qte_session_complete.wav"@,
            SoundEffect::UrgencyWarning => "assets/audio/sfx/urgency_warning.wav"@,
            SoundEffect::UrgencyCritical => "assets/audio/sfx/urgency_critical.wav"@,
            SoundEffect::Victory => "assets/audio/sfx/victory.wav"@,
            SoundEffect::GameOver => "assets/audio/sfx/game_over.wav"@,
        }
    }

    /// Human-readable label of this effect.
    pub open spec fn spec_label(self) -> Seq<char> {
        match self {
            SoundEffect::FootstepWalk => "Footstep walk"@,
            SoundEffect::FootstepRun => "Footstep run"@,
            SoundEffect::QteCorrect => "QTE correct"@,
            SoundEffect::QteWrong => "QTE wrong"@,
            SoundEffect::QteRoundComplete => "QTE round"@,
            SoundEffect::QteSessionComplete => "QTE session"@,
            SoundEffect::UrgencyWarning => "Urgency warn"@,
            SoundEffect::UrgencyCritical => "Urgency crit"@,
            SoundEffect::Victory => "Victory"@,
            SoundEffect::GameOver => "Game over"@,
        }
    }

    pub fn path(self) -> (p: &'static str)
        ensures
            p@ == self.spec_path(),
    {
        match self {
            SoundEffect::FootstepWalk => "assets/audio/sfx/footstep_walk.wav",
            SoundEffect::FootstepRun => "assets/audio/sfx/footstep_run.wav",
            SoundEffect::QteCorrect => "assets/audio/sfx/qte_correct.wav",
            SoundEffect::QteWrong => "assets/audio/sfx/qte_wrong.wav",
            SoundEffect::QteRoundComplete => "assets/audio/sfx/qte_round_complete.wav",
            SoundEffect::QteSessionComplete => "assets/audio/sfx/qte_session_complete.wav",
            SoundEffect::UrgencyWarning => "assets/audio/sfx/urgency_warning.wav",
            SoundEffect::UrgencyCritical => "assets/audio/sfx/urgency_critical.wav",
            SoundEffect::Victory => "assets/audio/sfx/victory.wav",
            SoundEffect::GameOver => "assets/audio/sfx/game_over.wav",
        }
    }

    pub fn label(self) -> (l: &'static str)
        ensures
            l@ == self.spec_label(),
    {
        match self {
            SoundEffect::FootstepWalk => "Footstep walk",
            SoundEffect::FootstepRun => "Footstep run",
            SoundEffect::QteCorrect => "QTE correct",
            SoundEffect::QteWrong => "QTE wrong",
            SoundEffect::QteRoundComplete => "QTE round",
            SoundEffect::QteSessionComplete => "QTE session",
            SoundEffect::UrgencyWarning => "Urgency warn",
            SoundEffect::UrgencyCritical => "Urgency crit",
            SoundEffect::Victory => "Victory",
            SoundEffect::GameOver => "Game over",
        }
    }
}

/// Music track identifiers — each maps to an .ogg file in assets/audio/music/.
#[derive(Clone, Copy, PartialEq, Eq, Hash, Debug)]
pub enum MusicTrack {
    MainTheme,
    TenseLoop,
    VictoryStinger,
    DefeatStinger,
}

impl MusicTrack {
    /// Asset path of this track, as a character sequence.
    pub open spec fn spec_path(self) -> Seq<char> {
        match self {
            MusicTrack::MainTheme => "assets/audio/music/main_theme.ogg"@,
            MusicTrack::TenseLoop => "assets/audio/music/tense_loop.ogg"@,
            MusicTrack::VictoryStinger => "assets/audio/music/victory_stinger.ogg"@,
            MusicTrack::DefeatStinger => "assets/audio/music/defeat_stinger.ogg"@,
        }
    }

    /// Human-readable label of this track.
    pub open spec fn spec_label(self) -> Seq<char> {
        match self {
            MusicTrack::MainTheme => "Main theme"@,
            MusicTrack::TenseLoop => "Tense loop"@,
            MusicTrack::VictoryStinger => "Victory"@,
            MusicTrack::DefeatStinger => "Defeat"@,
        }
    }

    pub fn path(self) -> (p: &'static str)
        ensures
            p@ == self.spec_path(),
    {
        match self {
            MusicTrack::MainTheme => "assets/audio/music/main_theme.ogg",
            MusicTrack::TenseLoop => "assets/audio/music/tense_loop.ogg",
            MusicTrack::VictoryStinger => "assets/audio/music/victory_stinger.ogg",
            MusicTrack::DefeatStinger => "assets/audio/music/defeat_stinger.ogg",
        }
    }

    /// Only the background themes loop; the stingers play once.
    pub fn looped(self) -> (b: bool)
        ensures
            b <==> (self is MainTheme || self is TenseLoop),
    {
        match self {
            MusicTrack::MainTheme | MusicTrack::TenseLoop => true,
            MusicTrack::VictoryStinger | MusicTrack::DefeatStinger => false,
        }
    }

    pub fn label(self) -> (l: &'static str)
        ensures
            l@ == self.spec_label(),
    {
        match self {
            MusicTrack::MainTheme => "Main theme",
            MusicTrack::TenseLoop => "Tense loop",
            MusicTrack::VictoryStinger => "Victory",
            MusicTrack::DefeatStinger => "Defeat",
        }
    }
}

/// `b` holds `pat` starting at offset `i`.
pub open spec fn bytes_at(b: Seq<u8>, i: int, pat: Seq<u8>) -> bool {
    0 <= i && i + pat.len() <= b.len() && b.subrange(i, i + pat.len()) == pat
}

/// Little-endian 16-bit value at offset `i`.
pub open spec fn le16(b: Seq<u8>, i: int) -> int {
    b[i] + 256 * b[i + 1]
}

/// ASCII `OggS`.
pub open spec fn ogg_magic() -> Seq<u8> { seq![79u8, 103u8, 103u8, 83u8] }
/// ASCII `OpusHead`.
pub open spec fn opus_magic() -> Seq<u8> { seq![79u8, 112u8, 117u8, 115u8, 72u8, 101u8, 97u8, 100u8] }
/// ASCII `RIFF`.
pub open spec fn riff_magic() -> Seq<u8> { seq![82u8, 73u8, 70u8, 70u8] }
/// ASCII `WAVE`.
pub open spec fn wave_magic() -> Seq<u8> { seq![87u8, 65u8, 86u8, 69u8] }

/// What is wrong with an audio file's bytes, if anything: too short; an
/// OGG container whose first 128 bytes name the Opus codec; a RIFF/WAVE
/// file with a compressed format tag or an unusual bit depth; or neither
/// OGG nor RIFF/WAVE.
pub open spec fn format_problem_spec(b: Seq<u8>) -> Option<Seq<char>> {
    if b.len() < 12 {
        Some("file too small"@)
    } else if bytes_at(b, 0, ogg_magic()) {
        let hl = if b.len() < 128 { b.len() as int } else { 128 };
        if exists|i: int| 0 <= i && i + 8 <= hl && #[trigger] bytes_at(b, i, opus_magic()) {
            Some("OGG Opus codec — re-encode as OGG Vorbis"@)
        } else {
            None
        }
    } else if bytes_at(b, 0, riff_magic()) && b.len() >= 44 && bytes_at(b, 8, wave_magic()) {
        let fmt = le16(b, 20);
        let bits = le16(b, 34);
        if !(fmt == 1 || fmt == 3 || fmt == 0xFFFE) {
            Some("compressed WAV — re-encode as PCM (pcm_s16le)"@)
        } else if !(bits == 8 || bits == 16 || bits == 24 || bits == 32) {
            Some("unusual bit depth in WAV"@)
        } else {
            None
        }
    } else {
        Some("unrecognised format (expected OGG Vorbis or WAV)"@)
    }
}

/// Whether `b` holds the first `n` bytes of `pat` at offset `i`.
fn match_at(b: &[u8], i: usize, pat: &[u8; 8], n: usize) -> (r: bool)
    requires
        n <= 8,
        i + n <= b@.len(),
    ensures
        r == (b@.subrange(i as int, i + n) == pat@.subrange(0, n as int)),
{
    let blen = b.len();
    let mut j: usize = 0;
    while j < n
        invariant
            n <= 8,
            blen == b@.len(),
            i + n <= b@.len(),
            j <= n,
            b@.subrange(i as int, i + j) == pat@.subrange(0, j as int),
        decreases n - j,
    {
        if b[i + j] != pat[j] {
            proof {
                assert(b@.subrange(i as int, i + n)[j as int] != pat@.subrange(0, n as int)[j as int]);
            }
            return false;
        }
        proof {
            assert(b@.subrange(i as int, i + j + 1) =~= b@.subrange(i as int, i + j).push(b@[i + j]));
            assert(pat@.subrange(0, j + 1) =~= pat@.subrange(0, j as int).push(pat@[j as int]));
        }
        j = j + 1;
    }
    true
}

/// Check raw audio bytes for known-bad formats: a human-readable reason,
/// or `None` when the format is fine.
pub fn format_problem(bytes: &[u8]) -> (r: Option<&'static str>)
    ensures
        match r {
            None => format_problem_spec(bytes@) is None,
            Some(s) => format_problem_spec(bytes@) == Some(s@),
        },
{
    if bytes.len() < 12 {
        return Some("file too small");
    }
    let ogg: [u8; 8] = [79, 103, 103, 83, 0, 0, 0, 0];
    let opus: [u8; 8] = [79, 112, 117, 115, 72, 101, 97, 100];
    let riff: [u8; 8] = [82, 73, 70, 70, 0, 0, 0, 0];
    let wave: [u8; 8] = [87, 65, 86, 69, 0, 0, 0, 0];
    proof {
        assert(ogg@.subrange(0, 4) =~= ogg_magic());
        assert(opus@.subrange(0, 8) =~= opus_magic());
        assert(riff@.subrange(0, 4) =~= riff_magic());
        assert(wave@.subrange(0, 4) =~= wave_magic());
    }
    if match_at(bytes, 0, &ogg, 4) {
        let hl = if bytes.len() < 128 { bytes.len() } else { 128 };
        let mut i: usize = 0;
        while i + 8 <= hl
            invariant
                i <= hl,
                bytes@.len() >= 12,
                bytes_at(bytes@, 0, ogg_magic()),
                hl <= bytes@.len(),
                hl == (if bytes@.len() < 128 { bytes@.len() as int } else { 128 }),
                opus@.subrange(0, 8) == opus_magic(),
                forall|j: int| 0 <= j < i && j + 8 <= hl ==> !#[trigger] bytes_at(bytes@, j, opus_magic()),
            decreases hl - i,
        {
            if match_at(bytes, i, &opus, 8) {
                proof {
                    assert(bytes@.subrange(i as int, i + 8) == opus_magic());
                    assert(bytes_at(bytes@, i as int, opus_magic()));
                }
                return Some("OGG Opus codec — re-encode as OGG Vorbis");
            }
            i = i + 1;
        }
        return None;
    }
    if match_at(bytes, 0, &riff, 4) && bytes.len() >= 44 && match_at(bytes, 8, &wave, 4) {
        let fmt: u32 = bytes[20] as u32 + 256 * bytes[21] as u32;
        if !(fmt == 1 || fmt == 3 || fmt == 0xFFFE) {
            return Some("compressed WAV — re-encode as PCM (pcm_s16le)");
        }
        let bits: u32 = bytes[34] as u32 + 256 * bytes[35] as u32;
        if !(bits == 8 || bits == 16 || bits == 24 || bits == 32) {
            return Some("unusual bit depth in WAV");
        }
        return None;
    }
    Some("unrecognised format (expected OGG Vorbis or WAV)")
}

/// Little-endian 32-bit value at offset `i`.
pub open spec fn le32(b: Seq<u8>, i: int) -> int {
    b[i] + 256 * b[i + 1] + 65536 * b[i + 2] + 16777216 * b[i + 3]
}

/// ASCII `fmt `.
pub open spec fn fmt_id() -> Seq<u8> { seq![102u8, 109u8, 116u8, 32u8] }
/// ASCII `data`.
pub open spec fn data_id() -> Seq<u8> { seq![100u8, 97u8, 116u8, 97u8] }

/// Walk the RIFF chunks from offset `i` (each an id, a 32-bit size and a
/// body padded to even length), remembering the byte rate of the last
/// complete `fmt ` chunk seen; stop at the first `data` chunk. Returns the
/// byte rate and the data size found.
pub open spec fn wav_scan(b: Seq<u8>, i: int, br: Option<u32>) -> (Option<u32>, Option<u32>)
    decreases b.len() - i,
{
    if i < 0 || i + 8 > b.len() {
        (br, None)
    } else {
        let sz = le32(b, i + 4);
        let d = i + 8;
        let next = d + sz + sz % 2;
        let fmt_here = bytes_at(b, i, fmt_id()) && d + 16 <= b.len();
        let br2 = if fmt_here { Some(le32(b, d + 8) as u32) } else { br };
        if !fmt_here && bytes_at(b, i, data_id()) {
            (br, Some(sz as u32))
        } else if next > b.len() {
            (br2, None)
        } else {
            wav_scan(b, next, br2)
        }
    }
}

/// Byte rate and data size of a RIFF/WAVE file, when both chunks are there
/// and the byte rate is not zero.
pub open spec fn wav_info_spec(b: Seq<u8>) -> Option<(u32, u32)> {
    if b.len() < 44 || !bytes_at(b, 0, riff_magic()) || !bytes_at(b, 8, wave_magic()) {
        None
    } else {
        match wav_scan(b, 12, None) {
            (Some(br), Some(ds)) => if br > 0 { Some((br, ds)) } else { None },
            _ => None,
        }
    }
}

/// Little-endian 32-bit value at offset `i`.
fn read_le32(b: &[u8], i: usize) -> (r: u32)
    requires
        i + 4 <= b@.len(),
    ensures
        r as int == le32(b@, i as int),
{
    let v: u64 = b[i] as u64 + 256 * (b[i + 1] as u64) + 65536 * (b[i + 2] as u64) + 16777216 * (b[i + 3] as u64);
    v as u32
}

/// The byte rate and data size of a WAV file, from which its duration in
/// seconds is `data / rate`: `None` for anything but a RIFF/WAVE file with
/// a `fmt ` chunk before its `data` chunk and a byte rate above zero.
pub fn wav_info(bytes: &[u8]) -> (r: Option<(u32, u32)>)
    ensures
        r == wav_info_spec(bytes@),
{
    if bytes.len() < 44 {
        return None;
    }
    let riff: [u8; 8] = [82, 73, 70, 70, 0, 0, 0, 0];
    let wave: [u8; 8] = [87, 65, 86, 69, 0, 0, 0, 0];
    let fmt: [u8; 8] = [102, 109, 116, 32, 0, 0, 0, 0];
    let data: [u8; 8] = [100, 97, 116, 97, 0, 0, 0, 0];
    proof {
        assert(riff@.subrange(0, 4) =~= riff_magic());
        assert(wave@.subrange(0, 4) =~= wave_magic());
        assert(fmt@.subrange(0, 4) =~= fmt_id());
        assert(data@.subrange(0, 4) =~= data_id());
    }
    if !match_at(bytes, 0, &riff, 4) || !match_at(bytes, 8, &wave, 4) {
        return None;
    }
    proof {
        assert(bytes_at(bytes@, 0, riff_magic()));
        assert(bytes_at(bytes@, 8, wave_magic()));
    }
    let len = bytes.len();
    let mut i: usize = 12;
    let mut byte_rate: Option<u32> = None;
    loop
        invariant
            len == bytes@.len(),
            len >= 44,
            12 <= i <= len,
            fmt@.subrange(0, 4) == fmt_id(),
            data@.subrange(0, 4) == data_id(),
            bytes_at(bytes@, 0, riff_magic()),
            bytes_at(bytes@, 8, wave_magic()),
            wav_scan(bytes@, 12, None) == wav_scan(bytes@, i as int, byte_rate),
        decreases len - i,
    {
        if i > len - 8 {
            return None;
        }
        let sz = read_le32(bytes, i + 4);
        let d = i + 8;
        let next: u128 = d as u128 + sz as u128 + (sz % 2) as u128;
        if match_at(bytes, i, &fmt, 4) && d <= len - 16 {
            let br = read_le32(bytes, d + 8);
            if next > len as u128 {
                return None;
            }
            byte_rate = Some(br);
            i = next as usize;
        } else if match_at(bytes, i, &data, 4) {
            proof {
                assert(bytes_at(bytes@, i as int, data_id()));
                assert(!(bytes_at(bytes@, i as int, fmt_id()) && d + 16 <= len));
                assert(wav_scan(bytes@, i as int, byte_rate) == (byte_rate, Some(sz)));
            }
            return match byte_rate {
                Some(br) => if br > 0 { Some((br, sz)) } else { None },
                None => None,
            };
        } else {
            if next > len as u128 {
                return None;
            }
            i = next as usize;
        }
    }
}

} // verus!
