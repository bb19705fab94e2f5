//! AUTO: the onset detector, with the arithmetic of its levels done here.

use lf_engine::autorec::Detector;
use lf_engine::float::{Double, Single};

const ONSET_THRESHOLD_RATIO: f64 = 0.2;

fn onset_floor() -> f64 {
    10f64.powf(-72.0 / 20.0)
}

fn double(x: f64) -> Double {
    Double { bits: x.to_bits() }
}

fn single(x: f32) -> Single {
    Single { bits: x.to_bits() }
}

/// The block of the history the sound was first there in.
fn first_active_block(d: &Detector, threshold: f64) -> Option<usize> {
    let onset = onset_floor().max(threshold * ONSET_THRESHOLD_RATIO);
    let onset_energy = onset * onset;
    let analysis = d.analysis();
    let mut start = 0;
    while start < d.heard() {
        let end = d.heard().min(start + analysis);
        let sum: f64 = (start..end)
            .map(|i| {
                let x = f32::from_bits(d.history_at(i).bits) as f64;
                x * x
            })
            .sum();
        if sum / (end - start) as f64 >= onset_energy {
            return Some(start);
        }
        start += analysis;
    }
    None
}

/// Hand the detector a block; where it triggers, its retained history is in `out`.
fn scan(d: &mut Detector, data: &[f32], threshold: f64, out: &mut Vec<Single>) -> Option<usize> {
    let required = threshold * threshold * d.analysis() as f64;
    for (i, &x) in data.iter().enumerate() {
        let square = x as f64 * x as f64;
        let mut sum = f64::from_bits(d.energy().bits);
        if let Some(old) = d.leaving() {
            sum -= f64::from_bits(old.bits);
        }
        sum += square;
        if d.hear(single(x), double(square), double(sum), double(required)) {
            let active = first_active_block(d, threshold);
            d.retain(active, out);
            return Some(i + 1);
        }
    }
    None
}

fn floats(v: &[Single]) -> Vec<f32> {
    v.iter().map(|x| f32::from_bits(x.bits)).collect()
}

#[test]
fn silence_and_sub_threshold_sound_do_not_trigger() {
    let mut d = Detector::new(1000); // 4-frame RMS window, 40-frame history
    let mut out = vec![single(0.0); 100];
    assert_eq!(scan(&mut d, &[0.01; 30], 0.2, &mut out), None);
    assert_eq!(scan(&mut d, &[0.05; 20], 0.2, &mut out), None);
    assert_eq!(d.copied(), 0);
}

#[test]
fn a_trigger_recovers_the_soft_onset_and_appends_the_batch_once() {
    let mut d = Detector::new(1000);
    let mut out = vec![single(0.0); 100];
    let data: Vec<f32> = [0.0; 20].iter().chain(&[0.05; 8]).chain(&[0.2; 8]).copied().collect();
    let offset = scan(&mut d, &data, 0.2, &mut out).unwrap();
    assert_eq!((offset, d.copied()), (32, 16));
    let combined: Vec<f32> = floats(&out[..16]).iter().chain(&data[offset..]).copied().collect();
    assert_eq!(combined, data[16..]);
}

#[test]
fn a_batch_boundary_cannot_hide_or_duplicate_the_onset() {
    let mut d = Detector::new(1000);
    let mut out = vec![single(0.0); 100];
    let before: Vec<f32> = [0.0; 20].iter().chain(&[0.05; 8]).copied().collect();
    assert_eq!(scan(&mut d, &before, 0.2, &mut out), None);
    let crossing = [0.2; 8];
    let offset = scan(&mut d, &crossing, 0.2, &mut out).unwrap();
    assert_eq!(offset, 4);
    let combined: Vec<f32> = floats(&out[..d.copied()]).iter().chain(&crossing[offset..]).copied().collect();
    let stream: Vec<f32> = before.iter().chain(&crossing).copied().collect();
    assert_eq!(combined, stream[16..]);
}

#[test]
fn reset_and_history_wrap_cannot_leak_an_older_arm() {
    let mut d = Detector::new(1000);
    let mut out = vec![single(0.0); 100];
    scan(&mut d, &[0.04; 35], 0.2, &mut out);
    d.reset();
    assert_eq!(scan(&mut d, &[0.2; 4], 0.2, &mut out), Some(4));
    assert_eq!((d.copied(), floats(&out[..4])), (4, vec![0.2f32; 4]));
    d.reset();
    scan(&mut d, &[0.0; 50], 0.2, &mut out);
    let tail: Vec<f32> = [0.05; 8].iter().chain(&[0.2; 4]).copied().collect();
    assert_eq!(scan(&mut d, &tail, 0.2, &mut out), Some(12));
    assert_eq!(d.copied(), 16);
}
