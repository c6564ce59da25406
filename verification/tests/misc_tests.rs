use brownshock::audio::{wav_info, format_problem, MusicTrack, SoundEffect};
use brownshock::config::WindowSettings;
use brownshock::edges::{BlockEdge, Dir, BLOCK_TILE_SIZE};
use brownshock::state::{Phase, QteKey};

#[test]
fn sound_assets() {
    assert_eq!(SoundEffect::FootstepWalk.path(), "assets/audio/sfx/footstep_walk.wav");
    assert_eq!(SoundEffect::FootstepWalk.label(), "Footstep walk");
    assert_eq!(SoundEffect::GameOver.path(), "assets/audio/sfx/game_over.wav");
    assert_eq!(MusicTrack::MainTheme.label(), "Main theme");
    assert!(MusicTrack::MainTheme.looped());
    assert!(MusicTrack::TenseLoop.looped());
    assert!(!MusicTrack::VictoryStinger.looped());
    assert!(!MusicTrack::DefeatStinger.looped());
}

fn wav(fmt: u16, bits: u16) -> Vec<u8> {
    let mut b = vec![0u8; 44];
    b[0..4].copy_from_slice(b"RIFF");
    b[8..12].copy_from_slice(b"WAVE");
    b[20..22].copy_from_slice(&fmt.to_le_bytes());
    b[34..36].copy_from_slice(&bits.to_le_bytes());
    b
}

#[test]
fn audio_format_checks() {
    assert_eq!(format_problem(&[0u8; 5]), Some("file too small"));
    let mut vorbis = b"OggS".to_vec();
    vorbis.extend_from_slice(&[0u8; 40]);
    assert_eq!(format_problem(&vorbis), None);
    let mut opus = b"OggS".to_vec();
    opus.extend_from_slice(&[0u8; 20]);
    opus.extend_from_slice(b"OpusHead");
    assert_eq!(format_problem(&opus), Some("OGG Opus codec — re-encode as OGG Vorbis"));
    let mut late = b"OggS".to_vec();
    late.extend_from_slice(&[0u8; 200]);
    late.extend_from_slice(b"OpusHead");
    assert_eq!(format_problem(&late), None);
    assert_eq!(format_problem(&wav(1, 16)), None);
    assert_eq!(format_problem(&wav(3, 32)), None);
    assert_eq!(format_problem(&wav(0xFFFE, 24)), None);
    assert_eq!(format_problem(&wav(2, 16)), Some("compressed WAV — re-encode as PCM (pcm_s16le)"));
    assert_eq!(format_problem(&wav(1, 12)), Some("unusual bit depth in WAV"));
    let short_riff = &wav(1, 16)[..20];
    assert_eq!(format_problem(short_riff), Some("unrecognised format (expected OGG Vorbis or WAV)"));
    assert_eq!(format_problem(b"ABCDEFGHIJKLMNOP"), Some("unrecognised format (expected OGG Vorbis or WAV)"));
}

#[test]
fn directions() {
    for d in [Dir::North, Dir::East, Dir::South, Dir::West] {
        assert_eq!(d.opposite().opposite(), d);
        let (dx, dy) = d.delta();
        let (ox, oy) = d.opposite().delta();
        assert_eq!((dx + ox, dy + oy), (0, 0));
        assert_eq!(dx.abs() + dy.abs(), 1);
    }
    assert_eq!(Dir::North.delta(), (0, -1));
    assert_eq!(Dir::East.opposite(), Dir::West);
}

#[test]
fn block_edges() {
    assert_eq!(BlockEdge::open(), BlockEdge(0));
    assert_eq!(BlockEdge::mid(), BlockEdge(0b010));
    assert_eq!(BLOCK_TILE_SIZE, 3);
}

#[test]
fn qte_labels_and_phases() {
    assert_eq!(QteKey::W.label(), "W");
    assert_eq!(QteKey::A.label(), "A");
    assert_eq!(QteKey::S.label(), "S");
    assert_eq!(QteKey::D.label(), "D");
    assert_ne!(Phase::Playing, Phase::Win);
}

#[test]
fn window_defaults() {
    let s = WindowSettings::default();
    assert_eq!(s.width, 1280);
    assert_eq!(s.height, 720);
    assert_eq!(s.title, "Brownshock");
}

fn le32_bytes(v: u32) -> [u8; 4] {
    v.to_le_bytes()
}

fn riff_file(chunks: &[(&[u8; 4], Vec<u8>)]) -> Vec<u8> {
    let mut b: Vec<u8> = Vec::new();
    b.extend_from_slice(b"RIFF");
    b.extend_from_slice(&le32_bytes(0));
    b.extend_from_slice(b"WAVE");
    for (id, body) in chunks {
        b.extend_from_slice(&id[..]);
        b.extend_from_slice(&le32_bytes(body.len() as u32));
        b.extend_from_slice(body);
        if body.len() % 2 == 1 {
            b.push(0);
        }
    }
    while b.len() < 44 {
        b.push(0);
    }
    b
}

fn fmt_body(byte_rate: u32) -> Vec<u8> {
    let mut f = vec![1, 0, 2, 0, 0x44, 0xAC, 0, 0];
    f.extend_from_slice(&le32_bytes(byte_rate));
    f.extend_from_slice(&[4, 0, 16, 0]);
    f
}

#[test]
fn wav_info_reads_rate_and_size() {
    let b = riff_file(&[(b"fmt ", fmt_body(176400)), (b"data", vec![0; 10])]);
    assert_eq!(wav_info(&b), Some((176400, 10)));
}

#[test]
fn wav_info_skips_padded_chunks() {
    let b = riff_file(&[(b"fmt ", fmt_body(8000)), (b"LIST", vec![1, 2, 3]), (b"data", vec![0; 4])]);
    assert_eq!(wav_info(&b), Some((8000, 4)));
}

#[test]
fn wav_info_rejects_bad_files() {
    let no_fmt = riff_file(&[(b"data", vec![0; 30])]);
    assert_eq!(wav_info(&no_fmt), None);
    let zero_rate = riff_file(&[(b"fmt ", fmt_body(0)), (b"data", vec![0; 4])]);
    assert_eq!(wav_info(&zero_rate), None);
    let mut not_riff = riff_file(&[(b"fmt ", fmt_body(8000)), (b"data", vec![0; 4])]);
    not_riff[0] = b'X';
    assert_eq!(wav_info(&not_riff), None);
    assert_eq!(wav_info(&[0u8; 10]), None);
}

#[test]
fn music_tracks_are_ogg() {
    assert_eq!(MusicTrack::MainTheme.path(), "assets/audio/music/main_theme.ogg");
    assert_eq!(MusicTrack::DefeatStinger.path(), "assets/audio/music/defeat_stinger.ogg");
}
