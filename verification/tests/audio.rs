use rusty_whisper::audio::{
    check_format, frame, frame_count, mel_frame_count, pad_audio, pad_or_trim, reflect_pad,
    split_segments, AudioError, Matrix, HOP_LENGTH, N_FFT, N_FRAMES, N_MELS, PAD,
};

#[test]
fn reflection_copies_from_both_ends() {
    let padded = reflect_pad(&[1.0f32, 2.0, 3.0, 4.0], 2);
    assert_eq!(padded, vec![3.0, 2.0, 1.0, 2.0, 3.0, 4.0, 4.0, 3.0]);
}

#[test]
fn reflection_with_one_sample_of_padding() {
    let padded = reflect_pad(&[10u8, 20, 30], 1);
    assert_eq!(padded, vec![20, 10, 20, 30, 30]);
}

#[test]
fn reflection_without_padding_copies_the_audio() {
    assert_eq!(reflect_pad(&[7i16, 8], 0), vec![7, 8]);
}

#[test]
fn audio_is_padded_by_half_a_frame() {
    let audio: Vec<i32> = (0..1000).collect();
    let padded = pad_audio(&audio).unwrap();
    assert_eq!(padded.len(), 1000 + 2 * PAD);
    assert_eq!(padded[0], 200);
    assert_eq!(padded[199], 1);
    assert_eq!(padded[200], 0);
    assert_eq!(padded[1199], 999);
    assert_eq!(padded[1200], 999);
    assert_eq!(padded[1399], 800);
}

#[test]
fn short_audio_cannot_be_padded() {
    assert_eq!(pad_audio::<f32>(&[]), None);
    assert_eq!(pad_audio(&vec![0.5f32; PAD]), None);
    assert_eq!(pad_audio(&vec![0.5f32; PAD + 1]).map(|p| p.len()), Some(3 * PAD + 1));
}

#[test]
fn one_second_has_a_hundred_frames() {
    assert_eq!(mel_frame_count(16000), 100);
    let padded = pad_audio(&vec![0.0f32; 16000]).unwrap();
    assert_eq!(frame_count(padded.len()), 100);
}

#[test]
fn frame_counts_round_down() {
    assert_eq!(mel_frame_count(0), 0);
    assert_eq!(mel_frame_count(159), 0);
    assert_eq!(mel_frame_count(160), 1);
    assert_eq!(mel_frame_count(480000), 3000);
    assert_eq!(frame_count(0), 0);
    assert_eq!(frame_count(399), 0);
    assert_eq!(frame_count(400), 0);
    assert_eq!(frame_count(559), 0);
    assert_eq!(frame_count(560), 1);
}

#[test]
fn frames_start_every_hop() {
    let padded: Vec<u32> = (0..2000).collect();
    assert_eq!(frame_count(padded.len()), 10);
    let first = frame(&padded, 0);
    assert_eq!(first.len(), N_FFT);
    assert_eq!(first[0], 0);
    assert_eq!(first[399], 399);
    let last = frame(&padded, 9);
    assert_eq!(last[0] as usize, 9 * HOP_LENGTH);
    assert_eq!(last[399] as usize, 9 * HOP_LENGTH + 399);
}

#[test]
fn only_mono_sixteen_bit_sixteen_kilohertz_is_accepted() {
    assert_eq!(check_format(16000, 1, 16), Ok(()));
    assert_eq!(check_format(44100, 1, 16), Err(AudioError::SampleRate(44100)));
    assert_eq!(check_format(44100, 2, 8), Err(AudioError::SampleRate(44100)));
    assert_eq!(check_format(16000, 2, 16), Err(AudioError::Channels(2)));
    assert_eq!(check_format(16000, 1, 24), Err(AudioError::SampleWidth(24)));
}

#[test]
fn matrix_needs_rows_of_one_length() {
    assert!(Matrix::from_rows(vec![vec![1, 2], vec![3]], 2).is_none());
    assert!(Matrix::from_rows(vec![vec![1, 2], vec![3, 4]], 3).is_none());
    let m = Matrix::from_rows(vec![vec![1, 2, 3], vec![4, 5, 6]], 3).unwrap();
    assert_eq!(m.n_rows(), 2);
    assert_eq!(m.n_cols(), 3);
    assert_eq!(m.get(1, 2), 6);
    assert_eq!(m.columns(1, 3).into_rows(), vec![vec![2, 3], vec![5, 6]]);
    let empty = Matrix::<u8>::from_rows(vec![], 7).unwrap();
    assert_eq!(empty.n_rows(), 0);
    assert_eq!(empty.n_cols(), 7);
}

#[test]
fn pad_or_trim_cuts_fills_or_keeps() {
    let rows = vec![vec![1.0f32, 2.0, 3.0], vec![4.0, 5.0, 6.0]];
    let m = Matrix::from_rows(rows.clone(), 3).unwrap();
    assert_eq!(pad_or_trim(m, 2, 0.0).into_rows(), vec![vec![1.0, 2.0], vec![4.0, 5.0]]);
    let m = Matrix::from_rows(rows.clone(), 3).unwrap();
    assert_eq!(
        pad_or_trim(m, 5, 0.0).into_rows(),
        vec![vec![1.0, 2.0, 3.0, 0.0, 0.0], vec![4.0, 5.0, 6.0, 0.0, 0.0]]
    );
    let m = Matrix::from_rows(rows.clone(), 3).unwrap();
    assert_eq!(pad_or_trim(m, 3, 0.0).into_rows(), rows);
    let m = Matrix::from_rows(rows, 3).unwrap();
    assert_eq!(pad_or_trim(m, 0, 0.0).into_rows(), vec![Vec::<f32>::new(), vec![]]);
}

#[test]
fn short_spectrogram_gives_one_padded_segment() {
    let rows: Vec<Vec<f32>> = (0..N_MELS).map(|r| vec![r as f32 + 1.0; 100]).collect();
    let mel = Matrix::from_rows(rows, 100).unwrap();
    let segments = split_segments(&mel, 0.0);
    assert_eq!(segments.len(), 1);
    assert_eq!(segments[0].n_rows(), N_MELS);
    assert_eq!(segments[0].n_cols(), N_FRAMES);
    assert_eq!(segments[0].get(5, 99), 6.0);
    assert_eq!(segments[0].get(5, 100), 0.0);
    assert_eq!(segments[0].get(79, 2999), 0.0);
}

#[test]
fn empty_spectrogram_gives_no_segment() {
    let mel = Matrix::<f32>::from_rows(vec![vec![]; N_MELS], 0).unwrap();
    assert_eq!(split_segments(&mel, 0.0).len(), 0);
}

#[test]
fn long_spectrogram_is_cut_every_three_thousand_frames() {
    let rows: Vec<Vec<u32>> = (0..2).map(|r| (0..6001).map(|c| r * 10000 + c).collect()).collect();
    let mel = Matrix::from_rows(rows, 6001).unwrap();
    let segments = split_segments(&mel, 77);
    assert_eq!(segments.len(), 3);
    for segment in &segments {
        assert_eq!(segment.n_rows(), 2);
        assert_eq!(segment.n_cols(), N_FRAMES);
    }
    assert_eq!(segments[0].get(0, 0), 0);
    assert_eq!(segments[0].get(1, 2999), 12999);
    assert_eq!(segments[1].get(0, 0), 3000);
    assert_eq!(segments[1].get(1, 2999), 15999);
    assert_eq!(segments[2].get(0, 0), 6000);
    assert_eq!(segments[2].get(0, 1), 77);
    assert_eq!(segments[2].get(1, 2999), 77);
}

#[test]
fn exact_multiple_adds_no_empty_segment() {
    let mel = Matrix::from_rows(vec![vec![1u8; 3000]], 3000).unwrap();
    let segments = split_segments(&mel, 0);
    assert_eq!(segments.len(), 1);
    assert_eq!(segments[0].get(0, 2999), 1);
}

#[test]
fn last_bin_of_a_frame_stays_zero() {
    let spectrum: Vec<u16> = (1..=400).collect();
    let bins = rusty_whisper::audio::kept_bins(&spectrum, 0);
    assert_eq!(bins.len(), 201);
    assert_eq!(bins[0], 1);
    assert_eq!(bins[199], 200);
    assert_eq!(bins[200], 0);
}

#[test]
fn filter_bank_has_a_row_for_each_band_and_a_column_for_each_bin() {
    assert_eq!(rusty_whisper::audio::check_filters(80, 201), Ok(()));
    assert_eq!(rusty_whisper::audio::check_filters(80, 200), Err(AudioError::FilterShape(80, 200)));
    assert_eq!(rusty_whisper::audio::check_filters(128, 201), Err(AudioError::FilterShape(128, 201)));
}
