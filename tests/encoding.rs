use wav2pwl::encode::{plan_encoding, EncodeError, EncodePlan};

fn plan(channels: u16, decimate: u64) -> EncodePlan {
    plan_encoding(channels, 16, false, decimate).ok().unwrap()
}

#[test]
fn zero_decimation_is_rejected() {
    assert_eq!(plan_encoding(1, 16, false, 0), Err(EncodeError::ZeroDecimation));
    assert_eq!(plan_encoding(0, 16, false, 1), Err(EncodeError::NoChannels));
    assert_eq!(plan_encoding(1, 0, false, 1), Err(EncodeError::BadSampleWidth));
    assert_eq!(plan_encoding(1, 64, false, 1), Err(EncodeError::BadSampleWidth));
}

#[test]
fn integer_full_scale_is_half_the_range() {
    assert_eq!(plan(1, 1).full_scale, 32768);
    assert_eq!(plan_encoding(2, 24, false, 1).ok().unwrap().full_scale, 8388608);
    assert_eq!(plan_encoding(1, 8, false, 1).ok().unwrap().full_scale, 128);
    assert_eq!(plan_encoding(1, 32, true, 1).ok().unwrap().full_scale, 0);
}

#[test]
fn only_first_channel_of_kept_frames_becomes_a_row() {
    let p = plan(2, 3);
    assert_eq!(p.row_of_sample(0), Some(0));
    assert_eq!(p.row_of_sample(1), None);
    assert_eq!(p.row_of_sample(2), None);
    assert_eq!(p.row_of_sample(4), None);
    assert_eq!(p.row_of_sample(6), Some(1));
    assert_eq!(p.row_of_sample(7), None);
    assert_eq!(p.row_of_sample(12), Some(2));
}

#[test]
fn row_count_is_ceiling_of_frames_over_decimation() {
    for (frames, d, rows) in [(10u64, 3u64, 4u64), (9, 3, 3), (0, 5, 0), (1, 5, 1), (7, 1, 7)] {
        let p = plan(1, d);
        assert_eq!(p.row_count(frames), rows);
        let kept = (0..frames).filter(|&i| p.row_of_sample(i).is_some()).count() as u64;
        assert_eq!(kept, rows);
    }
}

#[test]
fn stereo_stream_rows_match_count() {
    let p = plan(2, 4);
    let frames = 11u64;
    let kept: Vec<u64> = (0..frames * 2).filter_map(|i| p.row_of_sample(i)).collect();
    assert_eq!(kept, vec![0, 1, 2]);
    assert_eq!(p.row_count(frames), 3);
}
