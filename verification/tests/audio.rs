use arachne::audio::backend::{BackendConfig, BackendError, NullAudioOutput, NullBackend, WasmBackend};
use arachne::audio::wav::{build_test_wav, parse_wav, pcm16_samples, wav_fmt_truncated, WavError, WavStream};

#[test]
fn test_null_backend_double_init() {
    let mut backend = NullBackend::new();
    backend.init(BackendConfig::default()).unwrap();
    assert_eq!(backend.init(BackendConfig::default()), Err(BackendError::AlreadyRunning));
}

#[test]
fn test_null_output_pause_resume() {
    let mut null = NullAudioOutput::new();
    assert!(null.is_playing());

    null.pause();
    assert!(!null.is_playing());

    null.resume();
    assert!(null.is_playing());
}

#[test]
fn null_backend_lifecycle_counts_frames() {
    let mut backend = NullBackend::new();
    assert!(!backend.is_running());
    assert_eq!(backend.submit_samples(10), Err(BackendError::NotInitialized));
    backend.init(BackendConfig::default()).unwrap();
    assert!(backend.is_running());
    assert_eq!(backend.sample_rate(), 48000);
    backend.submit_samples(2048).unwrap();
    assert_eq!(backend.frames_submitted, 1024);
    backend.submit_samples(3).unwrap();
    assert_eq!(backend.frames_submitted, 1025);
    backend.shutdown().unwrap();
    assert!(!backend.is_running());
    assert_eq!(backend.sample_rate(), 0);
    assert_eq!(backend.shutdown(), Err(BackendError::NotInitialized));
}

#[test]
fn wasm_backend_lifecycle() {
    let mut backend = WasmBackend::default();
    assert_eq!(backend.submit_samples(4), Err(BackendError::NotInitialized));
    let config = BackendConfig { sample_rate: 22050, channels: 1, buffer_size: 256 };
    backend.init(config).unwrap();
    assert_eq!(backend.sample_rate(), 22050);
    assert_eq!(backend.init(config), Err(BackendError::AlreadyRunning));
    assert!(backend.submit_samples(4).is_ok());
    backend.shutdown().unwrap();
    assert!(!backend.is_running());
}

#[test]
fn wav_roundtrip_build_parse() {
    let samples: Vec<i16> = (-500..500).collect();
    let wav = build_test_wav(2, 48000, &samples);
    assert_eq!(wav.len(), 44 + 2000);
    assert!(!wav_fmt_truncated(&wav));
    let format = parse_wav(&wav).unwrap();
    assert_eq!(format.channels, 2);
    assert_eq!(format.sample_rate, 48000);
    assert_eq!(format.data_offset, 44);
    assert_eq!(format.data_len, 2000);
    let decoded = pcm16_samples(&wav, format.data_offset, format.data_len);
    assert_eq!(decoded, samples);
}

#[test]
fn wav_header_fields() {
    let wav = build_test_wav(1, 44100, &[i16::MIN, i16::MAX, 0, 1, -1]);
    assert_eq!(&wav[0..4], b"RIFF");
    assert_eq!(u32::from_le_bytes([wav[4], wav[5], wav[6], wav[7]]), 36 + 10);
    assert_eq!(&wav[8..16], b"WAVEfmt ");
    assert_eq!(u32::from_le_bytes([wav[28], wav[29], wav[30], wav[31]]), 88200);
    assert_eq!(u16::from_le_bytes([wav[32], wav[33]]), 2);
    assert_eq!(&wav[36..40], b"data");
    let decoded = pcm16_samples(&wav, 44, 10);
    assert_eq!(decoded, vec![i16::MIN, i16::MAX, 0, 1, -1]);
}

#[test]
fn wav_errors() {
    assert_eq!(parse_wav(b"RIFF").unwrap_err(), WavError::TooShort);

    let mut data = vec![0u8; 44];
    data[0..4].copy_from_slice(b"XXXX");
    data[4..8].copy_from_slice(&36u32.to_le_bytes());
    data[8..12].copy_from_slice(b"WAVE");
    assert_eq!(parse_wav(&data).unwrap_err(), WavError::InvalidRiff);

    let mut data = vec![0u8; 44];
    data[0..4].copy_from_slice(b"RIFF");
    data[8..12].copy_from_slice(b"XXXX");
    assert_eq!(parse_wav(&data).unwrap_err(), WavError::InvalidWave);

    let mut wav = build_test_wav(1, 8000, &[1, 2, 3]);
    wav[20] = 3;
    assert_eq!(parse_wav(&wav).unwrap_err(), WavError::UnsupportedFormat(3));

    let mut wav = build_test_wav(1, 8000, &[1, 2, 3]);
    wav[34] = 8;
    assert_eq!(parse_wav(&wav).unwrap_err(), WavError::UnsupportedBitsPerSample(8));

    let mut wav = build_test_wav(1, 8000, &[1, 2, 3]);
    wav[12..16].copy_from_slice(b"junk");
    assert_eq!(parse_wav(&wav).unwrap_err(), WavError::MissingFmt);

    let mut wav = build_test_wav(1, 8000, &[1, 2, 3]);
    wav[36..40].copy_from_slice(b"junk");
    assert_eq!(parse_wav(&wav).unwrap_err(), WavError::MissingData);
}

#[test]
fn wav_data_size_is_cut_to_file() {
    let mut wav = build_test_wav(1, 8000, &[1, 2, 3, 4]);
    wav[40..44].copy_from_slice(&1000u32.to_le_bytes());
    let format = parse_wav(&wav).unwrap();
    assert_eq!(format.data_len, 8);
}

#[test]
fn wav_fmt_chunk_at_end_is_truncated() {
    let mut wav = vec![0u8; 44];
    wav[0..4].copy_from_slice(b"RIFF");
    wav[8..12].copy_from_slice(b"WAVE");
    wav[12..16].copy_from_slice(b"data");
    wav[16..20].copy_from_slice(&16u32.to_le_bytes());
    wav[36..40].copy_from_slice(b"fmt ");
    wav[40..44].copy_from_slice(&0u32.to_le_bytes());
    assert!(wav_fmt_truncated(&wav));
    assert!(!wav_fmt_truncated(&build_test_wav(1, 8000, &[1])));
}

#[test]
fn test_wav_stream() {
    let samples_i16: Vec<i16> = (0..100).map(|i| (i * 200) as i16).collect();
    let wav_data = build_test_wav(1, 44100, &samples_i16);

    let mut stream = WavStream::new(wav_data).unwrap();
    assert_eq!(stream.channels(), 1);
    assert_eq!(stream.sample_rate(), 44100);

    let first = stream.read_pcm_frames(50);
    assert_eq!(first.len(), 50);
    for i in 0..50 {
        assert_eq!(first[i], (i as i16) * 200);
    }
    let rest = stream.read_pcm_frames(50);
    assert_eq!(rest.len(), 50);
    assert!(stream.read_pcm_frames(50).is_empty());

    stream.reset();
    let again = stream.read_pcm_frames(50);
    assert_eq!(again.len(), 50);
    assert_eq!(again[0], 0);
}

#[test]
fn wav_stream_stereo_whole_frames() {
    let wav = build_test_wav(2, 8000, &[1, -1, 2, -2, 3, -3]);
    let mut stream = WavStream::new(wav).unwrap();
    let frames = stream.read_pcm_frames(5);
    assert_eq!(frames, vec![1, -1, 2, -2]);
    let last = stream.read_pcm_frames(5);
    assert_eq!(last, vec![3, -3]);
}

#[test]
fn wav_stream_small_reads_deliver_every_sample_in_order() {
    let samples: Vec<i16> = (0..30).map(|i| (i * 7 - 90) as i16).collect();
    let mut stream = WavStream::new(build_test_wav(2, 22050, &samples)).unwrap();
    let mut got: Vec<i16> = Vec::new();
    loop {
        // Capacity 5 holds two whole stereo frames.
        let chunk = stream.read_pcm_frames(5);
        if chunk.is_empty() {
            break;
        }
        assert_eq!(chunk.len() % 2, 0);
        got.extend_from_slice(&chunk);
    }
    assert_eq!(got, samples);
}
