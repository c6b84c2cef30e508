use flacenc::{PCMWaveFormatChunk, WaveReader, WaveReaderError};

#[test]
fn wav_tpl_it_works() {
    let samp_1 = PCMWaveFormatChunk { num_channels: 1, samp_rate: 44100, bps: 16 };
    let samp_2 = PCMWaveFormatChunk { num_channels: 2, samp_rate: 32000, bps: 8 };
    let samp_3 = PCMWaveFormatChunk { num_channels: 1, samp_rate: 12000, bps: 4 };
    let res_1 = samp_1.byte_rate();
    let res_2 = samp_2.byte_rate();
    let res_3 = samp_3.byte_rate();

    assert_eq!(res_1, 88200 as u32);
    assert_eq!(res_2, 64000 as u32);
    assert_eq!(res_3, 6000 as u32);

    let samp_1 = PCMWaveFormatChunk { num_channels: 1, samp_rate: 44100, bps: 16 };
    let samp_2 = PCMWaveFormatChunk { num_channels: 2, samp_rate: 32000, bps: 8 };
    let samp_3 = PCMWaveFormatChunk { num_channels: 2, samp_rate: 12000, bps: 4 };
    let res_1 = samp_1.block_align();
    let res_2 = samp_2.block_align();
    let res_3 = samp_3.block_align();

    assert_eq!(res_1, 2);
    assert_eq!(res_2, 2);
    assert_eq!(res_3, 1);
}

fn riff_of(bytes: &[u8]) -> Result<(u32, bool), WaveReaderError> {
    WaveReader::read_riff_chunk(bytes).map(|c| (c.file_size, c.is_big_endian))
}

#[test]
fn riff_headers() {
    let le = [0x52, 0x49, 0x46, 0x46, 0x1C, 0x40, 0x36, 0x0, 0x57, 0x41, 0x56, 0x45];
    assert_eq!(riff_of(&le), Ok((3_555_356, false)));
    let le = [0x52, 0x49, 0x46, 0x46, 0x80, 0x0, 0x0, 0x0, 0x57, 0x41, 0x56, 0x45];
    assert_eq!(riff_of(&le), Ok((128, false)));
    let be = [0x52, 0x49, 0x46, 0x58, 0x00, 0x0, 0x0, 0x80, 0x57, 0x41, 0x56, 0x45];
    assert_eq!(riff_of(&be), Ok((128, true)));
    let be = [0x52, 0x49, 0x46, 0x58, 0x00, 0x36, 0x40, 0x1C, 0x57, 0x41, 0x56, 0x45];
    assert_eq!(riff_of(&be), Ok((3_555_356, true)));
}

#[test]
fn riff_errors() {
    let bad_riff = [0x00, 0x49, 0x46, 0x46, 0x00, 0x36, 0x40, 0x1C, 0x57, 0x41, 0x56, 0x45];
    assert_eq!(riff_of(&bad_riff), Err(WaveReaderError::NotRiffError));
    let bad_wave = [0x52, 0x49, 0x46, 0x46, 0x00, 0x36, 0x40, 0x1C, 0x57, 0x41, 0x56, 0x00];
    assert_eq!(riff_of(&bad_wave), Err(WaveReaderError::NotWaveError));
    assert_eq!(riff_of(&[0x52, 0x49]), Err(WaveReaderError::ReadError));
    assert_eq!(riff_of(&[0x52, 0x49, 0x46, 0x46, 0x00]), Err(WaveReaderError::ReadError));
}

fn fmt_chunk(format: u16, channels: u16, rate: u32, byte_rate: u32, align: u16, bps: u16) -> Vec<u8> {
    let mut v = vec![0x66, 0x6d, 0x74, 0x20, 0x10, 0, 0, 0];
    v.extend_from_slice(&format.to_le_bytes());
    v.extend_from_slice(&channels.to_le_bytes());
    v.extend_from_slice(&rate.to_le_bytes());
    v.extend_from_slice(&byte_rate.to_le_bytes());
    v.extend_from_slice(&align.to_le_bytes());
    v.extend_from_slice(&bps.to_le_bytes());
    v
}

#[test]
fn fmt_chunks() {
    let f = WaveReader::read_fmt_chunk(&fmt_chunk(1, 2, 44100, 176400, 4, 16), 0).unwrap();
    assert_eq!((f.num_channels, f.samp_rate, f.bps), (2, 44100, 16));
    let f = WaveReader::read_fmt_chunk(&fmt_chunk(1, 1, 44100, 44100, 1, 8), 0).unwrap();
    assert_eq!((f.num_channels, f.samp_rate, f.bps), (1, 44100, 8));
}

#[test]
fn fmt_errors() {
    let mut bad_tag = fmt_chunk(1, 2, 44100, 176400, 4, 16);
    bad_tag[0] = 0;
    assert_eq!(WaveReader::read_fmt_chunk(&bad_tag, 0).err(), Some(WaveReaderError::ChunkTypeError));
    let not_pcm = fmt_chunk(3, 2, 44100, 352800, 8, 32);
    assert_eq!(WaveReader::read_fmt_chunk(&not_pcm, 0).err(), Some(WaveReaderError::NotPCMError));
    let bad_rate = fmt_chunk(1, 2, 44100, 176000, 4, 16);
    assert_eq!(
        WaveReader::read_fmt_chunk(&bad_rate, 0).err(),
        Some(WaveReaderError::DataAlignmentError)
    );
    let bad_align = fmt_chunk(1, 2, 44100, 176400, 2, 16);
    assert_eq!(
        WaveReader::read_fmt_chunk(&bad_align, 0).err(),
        Some(WaveReaderError::DataAlignmentError)
    );
    let short = fmt_chunk(1, 2, 44100, 176400, 4, 16);
    assert_eq!(WaveReader::read_fmt_chunk(&short[..20], 0).err(), Some(WaveReaderError::ReadError));
}

fn wav_file(channels: u16, bps: u16, chunks: &[&[u8]]) -> Vec<u8> {
    let align = channels * bps / 8;
    let mut v = vec![0x52, 0x49, 0x46, 0x46, 0, 0, 0, 0, 0x57, 0x41, 0x56, 0x45];
    v.extend(fmt_chunk(1, channels, 8000, 8000 * align as u32, align, bps));
    for c in chunks {
        v.extend_from_slice(&[0x64, 0x61, 0x74, 0x61]);
        v.extend_from_slice(&(c.len() as u32).to_le_bytes());
        v.extend_from_slice(c);
    }
    v
}

#[test]
fn read_pcm_16_bit_stereo() {
    let file = wav_file(2, 16, &[&[0x01, 0x00, 0xff, 0xff, 0x00, 0x80, 0xff, 0x7f]]);
    let info = WaveReader::read_pcm(&file).unwrap();
    assert!(!info.riff_header.is_big_endian);
    assert_eq!(info.fmt_header.num_channels, 2);
    assert_eq!(info.data_chunks.len(), 1);
    let mut chunk = info.data_chunks.into_iter().next().unwrap();
    assert_eq!(chunk.size_bytes, 8);
    assert_eq!(chunk.next(), Some(vec![1, -1]));
    assert_eq!(chunk.next(), Some(vec![-32768, 32767]));
    assert_eq!(chunk.next(), None);
}

#[test]
fn read_pcm_8_and_24_bit() {
    let file = wav_file(1, 8, &[&[0x00, 0x80, 0xff]]);
    let mut chunk = WaveReader::read_pcm(&file).unwrap().data_chunks.remove(0);
    assert_eq!(chunk.next(), Some(vec![0]));
    assert_eq!(chunk.next(), Some(vec![128]));
    assert_eq!(chunk.next(), Some(vec![255]));
    assert_eq!(chunk.next(), None);

    let file = wav_file(1, 24, &[&[0x01, 0x00, 0x00, 0xff, 0xff, 0xff, 0x00, 0x00, 0x80]]);
    let mut chunk = WaveReader::read_pcm(&file).unwrap().data_chunks.remove(0);
    assert_eq!(chunk.next(), Some(vec![1]));
    assert_eq!(chunk.next(), Some(vec![-1]));
    assert_eq!(chunk.next(), Some(vec![-8388608]));
    assert_eq!(chunk.next(), None);
}

#[test]
fn read_pcm_several_data_chunks() {
    let file = wav_file(1, 16, &[&[0x02, 0x00], &[0x03, 0x00, 0x04, 0x00]]);
    let info = WaveReader::read_pcm(&file).unwrap();
    assert_eq!(info.data_chunks.len(), 2);
    assert_eq!(info.data_chunks[0].data, vec![0x02, 0x00]);
    assert_eq!(info.data_chunks[1].data, vec![0x03, 0x00, 0x04, 0x00]);
}

#[test]
fn read_pcm_truncated_data_chunk() {
    let mut file = wav_file(1, 16, &[&[0x02, 0x00, 0x03, 0x00]]);
    file.truncate(file.len() - 1);
    let info = WaveReader::read_pcm(&file).unwrap();
    assert_eq!(info.data_chunks.len(), 1);
    assert_eq!(info.data_chunks[0].size_bytes, 4);
    let mut chunk = info.data_chunks.into_iter().next().unwrap();
    assert_eq!(chunk.next(), Some(vec![2]));
    assert_eq!(chunk.next(), None);
}

#[test]
fn read_pcm_errors() {
    let mut file = wav_file(1, 16, &[]);
    file[11] = 0;
    assert_eq!(WaveReader::read_pcm(&file).err(), Some(WaveReaderError::NotWaveError));
    let file = wav_file(1, 16, &[]);
    assert_eq!(WaveReader::read_pcm(&file[..30]).err(), Some(WaveReaderError::ReadError));
    let info = WaveReader::read_pcm(&file).unwrap();
    assert!(info.data_chunks.is_empty());
}

#[test]
fn windows_of_frames() {
    let file = wav_file(1, 16, &[&[1, 0, 2, 0, 3, 0, 4, 0, 5, 0]]);
    let chunk = WaveReader::read_pcm(&file).unwrap().data_chunks.remove(0);
    let mut w = chunk.chunks(2);
    assert_eq!(w.next(), Some(vec![vec![1], vec![2]]));
    assert_eq!(w.next(), Some(vec![vec![3], vec![4]]));
    assert_eq!(w.next(), Some(vec![vec![5]]));
    assert_eq!(w.next(), None);
}

#[test]
fn windows_of_one_second() {
    let mut samples = Vec::new();
    for i in 0..10u16 {
        samples.extend_from_slice(&i.to_le_bytes());
    }
    let file = wav_file(1, 16, &[&samples]);
    let mut chunk = WaveReader::read_pcm(&file).unwrap().data_chunks.remove(0);
    chunk.format.samp_rate = 2;
    let mut w = chunk.chunks_byte_rate();
    assert_eq!(w.next(), Some(vec![vec![0], vec![1], vec![2], vec![3]]));
    assert_eq!(w.next(), Some(vec![vec![4], vec![5], vec![6], vec![7]]));
    assert_eq!(w.next(), Some(vec![vec![8], vec![9]]));
    assert_eq!(w.next(), None);
}

#[test]
fn error_messages() {
    assert_eq!(WaveReaderError::NotRiffError.message(), "Not a RIFF file");
    assert_eq!(WaveReaderError::ReadError.message(), "Error reading file");
}
