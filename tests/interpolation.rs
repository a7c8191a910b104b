use wav2pwl::interp::{bracket, pcm_sample, time_key, Bracket};
use wav2pwl::pwl::parse_pwl;

fn keys(times: &[f64]) -> Vec<i64> {
    times.iter().map(|t| time_key(t.to_bits())).collect()
}

fn key(t: f64) -> i64 {
    time_key(t.to_bits())
}

#[test]
fn unit_ramp_brackets_inside_and_clamps_outside() {
    let k = keys(&[0.0, 1.0]);
    assert_eq!(bracket(&k, key(0.5)), Bracket::Between(0));
    assert_eq!(bracket(&k, key(-1.0)), Bracket::First);
    assert_eq!(bracket(&k, key(2.0)), Bracket::Last);
    assert_eq!(bracket(&k, key(0.0)), Bracket::First);
    assert_eq!(bracket(&k, key(1.0)), Bracket::Last);
}

#[test]
fn search_finds_tightest_interval() {
    let k = keys(&[0.0, 0.25, 0.5, 0.75, 1.0, 2.0, 4.0]);
    assert_eq!(bracket(&k, key(0.3)), Bracket::Between(1));
    assert_eq!(bracket(&k, key(0.5)), Bracket::Between(2));
    assert_eq!(bracket(&k, key(3.9)), Bracket::Between(5));
    assert_eq!(bracket(&k, key(1e-9)), Bracket::Between(0));
}

#[test]
fn repeated_times_are_skipped_over() {
    let k = keys(&[0.0, 0.5, 0.5, 1.0]);
    assert_eq!(bracket(&k, key(0.5)), Bracket::Between(2));
    assert_eq!(bracket(&k, key(0.4)), Bracket::Between(0));
}

#[test]
fn single_point_series_is_flat() {
    let k = keys(&[0.5]);
    assert_eq!(bracket(&k, key(0.0)), Bracket::First);
    assert_eq!(bracket(&k, key(0.5)), Bracket::First);
    assert_eq!(bracket(&k, key(0.7)), Bracket::Last);
}

#[test]
fn keys_order_like_doubles() {
    let xs = [-1e300, -2.5, -1.0, -1e-300, 0.0, 1e-300, 0.5, 1.0, 3.0, 1e300];
    for w in xs.windows(2) {
        assert!(key(w[0]) < key(w[1]), "{} {}", w[0], w[1]);
    }
    assert_eq!(key(-0.0), key(0.0));
    assert_eq!(key(0.0), 0);
}

#[test]
fn pcm_values_clamp_to_sixteen_bits() {
    assert_eq!(pcm_sample(0), 0);
    assert_eq!(pcm_sample(32767), 32767);
    assert_eq!(pcm_sample(40000), 32767);
    assert_eq!(pcm_sample(-32768), -32768);
    assert_eq!(pcm_sample(-99999), -32768);
    assert_eq!(pcm_sample(-1234), -1234);
}

#[test]
fn round_trip_at_two_hertz_gives_two_samples() {
    let lines: Vec<Vec<u8>> = "0.0,0.0\n0.5,1.0\n1.0,0.0"
        .lines()
        .map(|l| l.as_bytes().to_vec())
        .collect();
    let data = parse_pwl(&lines, &None).ok().unwrap();
    let num = |b: &Vec<u8>| std::str::from_utf8(b).unwrap().parse::<f64>().unwrap();
    let samples: Vec<(f64, f64)> = data.points.iter().map(|(t, v)| (num(t), num(v))).collect();
    let k: Vec<i64> = samples.iter().map(|s| key(s.0)).collect();
    let rate = 2u32;
    let count = (samples[samples.len() - 1].0 * rate as f64).ceil() as usize;
    assert_eq!(count, 2);
    let mut pcm = Vec::new();
    for i in 0..count {
        let t = i as f64 / rate as f64;
        let v = match bracket(&k, key(t)) {
            Bracket::First => samples[0].1,
            Bracket::Last => samples[samples.len() - 1].1,
            Bracket::Between(l) => {
                let (t0, v0) = samples[l];
                let (t1, v1) = samples[l + 1];
                v0 + (t - t0) / (t1 - t0) * (v1 - v0)
            }
        };
        pcm.push(pcm_sample((v / 1.0 * 32767.0).round() as i64));
    }
    assert_eq!(pcm, vec![0, 32767]);
}
