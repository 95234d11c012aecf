use stream_audio::sink::file::{
    can_write_header, samples_to_bytes, update_wav_header, write_wav_header, WAV_DATA_SIZE_OFFSET,
    WAV_FILE_SIZE_OFFSET, WAV_HEADER_SIZE,
};
use stream_audio::time::Duration;
use stream_audio::{AudioChunk, FileSink};

/// A file in memory with the sink that records into it.
struct Recording {
    sink: FileSink,
    file: Option<Vec<u8>>,
}

impl Recording {
    fn new(path: &str) -> Self {
        Recording { sink: FileSink::wav(path), file: None }
    }

    fn write(&mut self, chunk: &AudioChunk) {
        let plan = self.sink.state.plan_write(&chunk.samples, chunk.sample_rate, chunk.channels);
        if let Some(header) = plan.header {
            self.file = Some(header);
            self.sink.state.opened(chunk.sample_rate, chunk.channels);
        }
        self.file.as_mut().unwrap().extend(plan.data);
        self.sink.state.wrote(chunk.samples.len());
    }

    fn on_stop(&mut self) {
        assert!(self.sink.state.can_finalize());
        if let Some(update) = self.sink.state.plan_finalize() {
            let file = self.file.as_mut().unwrap();
            file[WAV_FILE_SIZE_OFFSET as usize..][..4].copy_from_slice(&update.file_size);
            file[WAV_DATA_SIZE_OFFSET as usize..][..4].copy_from_slice(&update.data_size);
            self.sink.state.closed();
        }
    }

    fn data(&self) -> &[u8] {
        self.file.as_ref().unwrap()
    }
}

#[test]
fn test_file_sink_creates_wav() {
    let mut sink = Recording::new("test.wav");

    // Write some audio
    let chunk = AudioChunk::new(vec![100, 200, 300, 400], Duration::zero(), 16000, 1);
    sink.write(&chunk);
    sink.on_stop();

    // Verify valid WAV header
    let data = sink.data();
    assert_eq!(&data[0..4], b"RIFF");
    assert_eq!(&data[8..12], b"WAVE");
    assert_eq!(&data[12..16], b"fmt ");
}

#[test]
fn test_file_sink_writes_samples() {
    let mut sink = Recording::new("test.wav");

    let samples = vec![0x1234i16, 0x5678i16];
    let chunk = AudioChunk::new(samples, Duration::zero(), 16000, 1);
    sink.write(&chunk);
    sink.on_stop();

    // Check data section
    let data = sink.data();
    let start = WAV_HEADER_SIZE as usize;
    assert_eq!(data[start], 0x34); // Low byte of 0x1234
    assert_eq!(data[start + 1], 0x12); // High byte of 0x1234
    assert_eq!(data[start + 2], 0x78); // Low byte of 0x5678
    assert_eq!(data[start + 3], 0x56); // High byte of 0x5678
}

#[test]
fn test_file_sink_on_stop_before_write() {
    let mut sink = Recording::new("test.wav");

    // Stop without writing anything - should not create file
    sink.on_stop();
    assert!(sink.file.is_none());
}

#[test]
fn test_file_sink_multiple_chunks_correct_header() {
    let mut sink = Recording::new("test.wav");

    // Write multiple chunks
    let chunk1 = AudioChunk::new(vec![100, 200], Duration::zero(), 16000, 1);
    let chunk2 = AudioChunk::new(vec![300, 400], Duration::from_millis(100), 16000, 1);
    let chunk3 = AudioChunk::new(vec![500, 600], Duration::from_millis(200), 16000, 1);

    sink.write(&chunk1);
    sink.write(&chunk2);
    sink.write(&chunk3);
    sink.on_stop();

    let data = sink.data();

    // Total samples: 6, each 2 bytes = 12 bytes of audio data
    // Data size is at offset 40 (little-endian u32)
    let data_size = u32::from_le_bytes([data[40], data[41], data[42], data[43]]);
    assert_eq!(data_size, 12); // 6 samples * 2 bytes

    // File size (at offset 4) should be header_size - 8 + data_size
    let file_size = u32::from_le_bytes([data[4], data[5], data[6], data[7]]);
    assert_eq!(file_size, WAV_HEADER_SIZE as u32 - 8 + 12);
}

#[test]
fn test_file_sink_stereo_wav_header() {
    let mut sink = Recording::new("stereo.wav");

    // Write stereo audio (interleaved L,R,L,R)
    let chunk = AudioChunk::new(vec![100, 200, 300, 400], Duration::zero(), 44100, 2);
    sink.write(&chunk);
    sink.on_stop();

    let data = sink.data();

    // Channels at offset 22 (u16 LE)
    let channels = u16::from_le_bytes([data[22], data[23]]);
    assert_eq!(channels, 2);

    // Sample rate at offset 24 (u32 LE)
    let sample_rate = u32::from_le_bytes([data[24], data[25], data[26], data[27]]);
    assert_eq!(sample_rate, 44100);

    // Byte rate at offset 28 (u32 LE) = sample_rate * channels * bytes_per_sample
    let byte_rate = u32::from_le_bytes([data[28], data[29], data[30], data[31]]);
    assert_eq!(byte_rate, 44100 * 2 * 2); // 44100 Hz * 2 channels * 2 bytes

    // Block align at offset 32 (u16 LE) = channels * bytes_per_sample
    let block_align = u16::from_le_bytes([data[32], data[33]]);
    assert_eq!(block_align, 4); // 2 channels * 2 bytes
}

#[test]
fn test_file_sink_different_sample_rates() {
    // Test 48kHz
    let mut sink_48k = Recording::new("48k.wav");
    sink_48k.write(&AudioChunk::new(vec![100, 200], Duration::zero(), 48000, 1));
    sink_48k.on_stop();

    let data = sink_48k.data();
    let sample_rate = u32::from_le_bytes([data[24], data[25], data[26], data[27]]);
    assert_eq!(sample_rate, 48000);

    // Test 8kHz
    let mut sink_8k = Recording::new("8k.wav");
    sink_8k.write(&AudioChunk::new(vec![100, 200], Duration::zero(), 8000, 1));
    sink_8k.on_stop();

    let data = sink_8k.data();
    let sample_rate = u32::from_le_bytes([data[24], data[25], data[26], data[27]]);
    assert_eq!(sample_rate, 8000);
}

#[test]
fn test_file_sink_name() {
    let sink = FileSink::wav("/path/to/audio.wav");
    assert_eq!(sink.name(), "file:/path/to/audio.wav");
}

#[test]
fn test_file_sink_round_trip() {
    let mut sink = Recording::new("test_output.wav");

    // Write some audio (1 second at 16kHz mono)
    let samples: Vec<i16> = (0..16000)
        .map(|i| ((i as f32 / 16.0).sin() * 10000.0) as i16)
        .collect();
    let chunk = AudioChunk::new(samples.clone(), Duration::zero(), 16000, 1);
    sink.write(&chunk);

    // Stop sink (finalizes WAV header)
    sink.on_stop();

    // WAV header (44 bytes) + 16000 samples * 2 bytes = 32044 bytes
    let data = sink.data();
    assert_eq!(data.len(), 44 + 16000 * 2);

    // Verify WAV header
    assert_eq!(&data[0..4], b"RIFF");
    assert_eq!(&data[8..12], b"WAVE");

    // The samples can be read back
    let read: Vec<i16> =
        data[44..].chunks_exact(2).map(|b| i16::from_le_bytes([b[0], b[1]])).collect();
    assert_eq!(read, samples);
}

#[test]
fn a_finalized_recording_is_one_with_the_right_header() {
    let samples = vec![-1i16, 0, 1, i16::MIN, i16::MAX];
    let mut sink = Recording::new("a.wav");
    sink.write(&AudioChunk::new(samples[..2].to_vec(), Duration::zero(), 8000, 1));
    sink.write(&AudioChunk::new(samples[2..].to_vec(), Duration::zero(), 8000, 1));
    sink.on_stop();
    let mut expected = write_wav_header(8000, 1, 10);
    expected.extend(samples_to_bytes(&samples));
    assert_eq!(sink.data(), &expected[..]);
}

#[test]
fn bytes_are_those_of_little_endian_samples() {
    let samples = [i16::MIN, -2, -1, 0, 1, 255, 256, i16::MAX];
    let expected: Vec<u8> = samples.iter().flat_map(|s| s.to_le_bytes()).collect();
    assert_eq!(samples_to_bytes(&samples), expected);
}

#[test]
fn headers_that_do_not_fit_are_recognised() {
    assert!(can_write_header(48000, 2, 0));
    assert!(!can_write_header(48000, 2, u32::MAX));
    assert!(!can_write_header(u32::MAX, 2, 0));
    assert!(!can_write_header(1, 40000, 0));
    let update = update_wav_header(0x0102_0304);
    assert_eq!(update.data_size, vec![4, 3, 2, 1]);
    assert_eq!(update.file_size, (0x0102_0304u32 + 36).to_le_bytes().to_vec());
}
