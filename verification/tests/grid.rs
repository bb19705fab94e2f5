//! The grid: bars, beats, stop plans, take fill.

use lf_engine::deck::{job_frames, JOB_RATE};
use lf_engine::float::Double;
use lf_engine::grid::{
    bars_at, ceil_div, clamp_bars, clamp_bpm, commit_anchor, frames_per_bar, later_take_bars, loop_pos, max_whole_bars,
    next_boundary, plan_commit, plan_free_stop, plan_later_stop, plan_retake_stop, Frame, Grid, RetakeStop, TakeFill,
    MAX_BPM, MIN_BPM,
};

fn double(x: f64) -> Double {
    Double { bits: x.to_bits() }
}

/// A bar at a tempo that is no whole number of beats a minute.
fn bar(bpm: f64, sample_rate: u32) -> Frame {
    (240.0 / bpm * sample_rate as f64).round() as Frame
}

#[test]
fn frames_per_bar_matches_the_ts_rounding() {
    assert_eq!(frames_per_bar(120, 48000), 96000);
    assert_eq!(frames_per_bar(120, 44100), 88200);
    assert_eq!(frames_per_bar(137, 44100), 77255);
    assert_eq!(frames_per_bar(137, 48000), 84088);
}

#[test]
fn a_bar_is_the_rounded_quotient_at_every_tempo() {
    for sr in [8000u32, 22050, 44100, 48000, 88200, 96000, 192000] {
        for bpm in MIN_BPM..=MAX_BPM {
            assert_eq!(frames_per_bar(bpm, sr), bar(bpm as f64, sr), "bpm={bpm} sr={sr}");
        }
    }
}

#[test]
fn whole_bar_clamps() {
    assert_eq!(max_whole_bars(96000 * 4, 96000), 4);
    assert_eq!(max_whole_bars(96000 * 4 + 1, 96000), 4);
    assert_eq!(max_whole_bars(100, 96000), 1);
    assert_eq!(clamp_bars(0, 8), 1);
    assert_eq!(clamp_bars(3, 8), 3);
    assert_eq!(clamp_bars(99, 8), 8);
    let fpb = frames_per_bar(120, 48000);
    for req in [1, 7, 30, 31, 999] {
        let bars = clamp_bars(req, max_whole_bars(60 * 48000, fpb));
        assert!(bars >= 1 && bars * fpb <= 60 * 48000);
    }
}

#[test]
fn bpm_clamps_and_rounds() {
    assert_eq!(clamp_bpm(double(120.3)), 120);
    assert_eq!(clamp_bpm(double(10.0)), MIN_BPM);
    assert_eq!(clamp_bpm(double(999.0)), MAX_BPM);
    assert_eq!(clamp_bpm(double(f64::NAN)), MIN_BPM);
}

#[test]
fn a_tempo_rounds_as_a_double_does() {
    let mut x = 39.0f64;
    while x < 310.0 {
        let want = x.round().clamp(MIN_BPM as f64, MAX_BPM as f64) as u32;
        assert_eq!(clamp_bpm(double(x)), want, "{x}");
        x += 0.125;
    }
    assert_eq!(clamp_bpm(double(-1e300)), MIN_BPM);
    assert_eq!(clamp_bpm(double(1e300)), MAX_BPM);
    assert_eq!(clamp_bpm(double(99.49999999999999)), 99);
    assert_eq!(clamp_bpm(double(99.5)), 100);
}

#[test]
fn master_grid_beats_span_the_loop_exactly() {
    for sr in [48000, 44100] {
        for bpm in [120.0, 90.0, 137.0, 100.0, 200.0, 73.5] {
            for bars in [1, 2, 3, 4, 7, 8] {
                let master = bars * bar(bpm, sr);
                let grid = Grid::master(1000, master, bars);
                for k in 0..50u64 {
                    assert_eq!(grid.beat_frame(k * 4 * bars as u64), 1000 + k as Frame * master);
                }
                // Every beat within half a frame of its exact time.
                for n in 0..200u64 {
                    let exact = 1000.0 + n as f64 * master as f64 / (4 * bars) as f64;
                    assert!((grid.beat_frame(n) as f64 - exact).abs() <= 0.5);
                }
            }
        }
    }
}

#[test]
fn first_beat_at_or_after_inverts_beat_frame() {
    let grids = [
        Grid::tempo(0, 0, 137, 44100),
        Grid::tempo(-5000, 7, 90, 48000),
        Grid::master(123, 77255 * 3, 3),
        Grid { base_frame: 10, base_index: 123457, num: 22050, den: 1 },
        // Beats on a half frame (77255 / 4 * 2 = 38627.5): round half up puts them one frame later.
        Grid::master(0, 77255, 1),
        Grid { base_frame: 0, base_index: 0, num: 3, den: 2 },
    ];
    for g in grids {
        let mut probes: Vec<Frame> = Vec::new();
        let mut f = g.base_frame - 3;
        while f < g.base_frame + 200_000 {
            probes.push(f);
            f += 997;
        }
        for n in 0..40u64 {
            probes.push(g.beat_frame(n));
        }
        for f in probes {
            let n = g.first_beat_at_or_after(f);
            assert!(g.beat_frame(n) >= f);
            assert!(n == g.base_index || g.beat_frame(n - 1) < f);
        }
    }
}

#[test]
fn a_large_beat_index_stays_exact() {
    let g = Grid::tempo(0, 0, 120, 48000);
    assert_eq!(g.beat_frame(123_457), 123_457 * 24000);
}

#[test]
fn plan_commit_floors_to_completed_bars() {
    for sr in [48000u32, 44100] {
        for bpm in [120u32, 90, 137, 100, 73, 200] {
            let fpb = frames_per_bar(bpm, sr);
            for bars in [1, 2, 3, 4, 7, 16] {
                let plan = plan_commit(bars * fpb, bpm, sr, bars * fpb + 16);
                assert_eq!((plan.master, plan.bars), (bars * fpb, bars));
                let derived = plan.derived_bpm.top as f64 / plan.derived_bpm.bottom as f64;
                assert!((derived - bpm as f64).abs() < 0.05);
                assert_eq!(clamp_bpm(double(derived)), clamp_bpm(double(bpm as f64)));
            }
            // A hair past a bar line keeps the completed bars; below one bar pads up to one.
            assert_eq!(plan_commit(3 * fpb + fpb / 3, bpm, sr, 60 * sr as Frame).master, 3 * fpb);
            assert_eq!(plan_commit(fpb / 3, bpm, sr, 60 * sr as Frame).master, fpb);
        }
    }
    // 42 bpm at 44.1 kHz fits 10.5 bars in 60 s: the clamp floors to 10.
    let fpb = frames_per_bar(42, 44100);
    assert_eq!(plan_commit(32 * fpb, 42, 44100, 60 * 44100).master, 10 * fpb);
}

#[test]
fn commit_anchor_lands_on_the_count_grid() {
    for master in [96000, 77255, 3 * 84088] {
        let downbeat = 1_234_567;
        for at in [downbeat, downbeat + 1, downbeat + master - 1, downbeat + master, downbeat + 5 * master + 17] {
            let anchor = commit_anchor(Some(downbeat), master, at);
            assert_eq!((anchor - downbeat) % master, 0);
            assert!(anchor <= at && at < anchor + master);
        }
    }
    assert_eq!(commit_anchor(None, 96000, 500), 500);
    assert_eq!(commit_anchor(Some(100), 0, 500), 500, "no master: anchor at the commit");
}

#[test]
fn stop_plans_use_a_quarter_beat_grace() {
    let fpb = frames_per_bar(120, 48000);
    let plan = |bars: f64| plan_later_stop((bars * fpb as f64) as Frame + 480_000, 480_000, 0, fpb, 8, 30) / fpb;
    assert_eq!(plan(0.4), 1);
    assert_eq!(plan(1.5), 1);
    assert_eq!(plan(2.0 - 1.0 / 32.0), 2);
    assert_eq!(plan(2.0 + 1e-6), 2);
    assert_eq!(plan(8.0), 8);
    assert_eq!(plan(11.0), 8);
    // Past the master the completed bars floor to whole loops, grace included.
    assert_eq!(plan(16.0 - 1.0 / 32.0), 16);
    assert_eq!(plan(23.9), 16);
    // The alignment shifts the window, not the musical time: a press just outside the grace stays out.
    let outside = 2 * fpb - fpb / 16 - 240;
    assert_eq!(plan_later_stop(480_000 + outside, 480_000, 0, fpb, 8, 30), fpb);
    assert_eq!(plan_later_stop(480_000 + outside, 480_000 + 960, 960, fpb, 8, 30), fpb);
    // Musical time starts `align` before the window: a press on the grace edge keeps the bar.
    let edge = 480_000 + 2 * fpb - fpb / 16;
    assert_eq!(plan_later_stop(edge, 480_000 + 960, 960, fpb, 8, 30), 2 * fpb);
    assert_eq!(plan_later_stop(edge - 1, 480_000 + 960, 960, fpb, 8, 30), fpb);
    // Free stop: no completed bar yet is None; the grace edge is inclusive.
    assert_eq!(plan_free_stop(fpb / 2, fpb, 60 * 48000), None);
    assert_eq!(plan_free_stop(fpb - fpb / 16, fpb, 60 * 48000), Some(fpb));
    assert_eq!(plan_free_stop(fpb - fpb / 16 - 1, fpb, 60 * 48000), None);
}

#[test]
fn a_later_take_is_its_bars_up_to_the_master_and_whole_loops_past_it() {
    // Up to the master (and a request below 1): at least one bar.
    for (req, m, want) in [(0, 2, 1), (1, 2, 1), (2, 2, 2), (3, 4, 3), (4, 4, 4), (32, 75, 32)] {
        assert_eq!(later_take_bars(req, m, 30), want, "req={req} m={m}");
    }
    // Past it: floored to whole loops, so below two loops is the master.
    for (req, m, want) in
        [(3, 2, 2), (4, 2, 4), (5, 2, 4), (8, 2, 8), (4, 1, 4), (7, 3, 6), (8, 3, 6), (9, 3, 9), (5, 4, 4)]
    {
        assert_eq!(later_take_bars(req, m, 30), want, "req={req} m={m}");
    }
    // Capped at the largest multiple within the bound, never below the master.
    for (req, m, max, want) in [
        (32, 1, 30, 30),
        (32, 2, 30, 30),
        (32, 3, 30, 30),
        (32, 4, 30, 28),
        (32, 7, 30, 28),
        (32, 3, 10, 9),
        (32, 4, 10, 8),
        (32, 6, 10, 6),
        (12, 6, 6, 6),
    ] {
        assert_eq!(later_take_bars(req, m, max), want, "req={req} m={m} max={max}");
    }
    // Always a whole number of loops once past the master, and never past the bound.
    for m in 1..=12 {
        for max in m..=32 {
            for req in m + 1..=32 {
                let bars = later_take_bars(req, m, max);
                assert!(
                    bars % m == 0 && bars >= m && bars <= req.max(m) && bars <= max,
                    "req={req} m={m} max={max} -> {bars}"
                );
            }
        }
    }
}

#[test]
fn the_retake_grace_equals_the_free_stop_grace() {
    for sr in [44100u32, 48000] {
        for bpm in [60u32, 97, 120, 174] {
            let fpb = frames_per_bar(bpm, sr);
            let grace = fpb / 16;
            let end = 1_000_000;
            assert_eq!(plan_retake_stop(end - fpb * 2, end, fpb, true), RetakeStop::KeepLast);
            assert_eq!(plan_retake_stop(end - fpb * 2, end, fpb, false), RetakeStop::StopNow);
            assert_eq!(plan_retake_stop(end - grace, end, fpb, false), RetakeStop::FinishPass);
            assert_eq!(plan_retake_stop(end - grace - 1, end, fpb, true), RetakeStop::KeepLast);
            assert_eq!(plan_retake_stop(end, end, fpb, true), RetakeStop::FinishPass);
            for bars in [1, 2, 4] {
                let len = bars * fpb;
                for early in [0, 1, grace - 1, grace + 2, fpb] {
                    let free = plan_free_stop(len - early, fpb, 60 * sr as Frame).is_some_and(|t| t >= len);
                    let retake = plan_retake_stop(len - early, len, fpb, true) == RetakeStop::FinishPass;
                    assert_eq!(free, retake, "bars={bars} early={early}");
                }
            }
        }
    }
}

#[test]
fn next_boundary_and_loop_pos() {
    assert_eq!(next_boundary(100, 50, 100), 100);
    assert_eq!(next_boundary(100, 50, 101), 150);
    assert_eq!(next_boundary(100, 50, 60), 100);
    assert_eq!(next_boundary(100, 0, 77), 77);
    assert_eq!(loop_pos(99, 100, 50), 49);
    assert_eq!(loop_pos(150, 100, 50), 0);
}

#[test]
fn bars_and_quotients() {
    assert_eq!(ceil_div(7, 2), 4);
    assert_eq!(ceil_div(8, 2), 4);
    assert_eq!(ceil_div(-7, 2), -3);
    assert_eq!(bars_at(2 * 96000, 96000), 2);
    assert_eq!(bars_at(2 * 96000 - 96000 / 16, 96000), 2);
    assert_eq!(bars_at(2 * 96000 - 96000 / 16 - 1, 96000), 1);
}

fn fill(buf: &mut [f32], f: TakeFill) {
    let src = buf.to_vec();
    for p in f.untouched()..f.master {
        buf[p as usize] = f.source(p).map_or(0.0, |q| src[q as usize]);
    }
}

#[test]
fn later_takes_tile_whole_bars_and_blank_a_short_window() {
    // 1 bar (3 frames) over a master of 8 bars.
    let mut buf = vec![99.0; 26];
    buf[..3].copy_from_slice(&[1.0, 2.0, 3.0]);
    fill(&mut buf, TakeFill::later(3, 3, 24));
    assert!((0..24).all(|i| buf[i] == [1.0, 2.0, 3.0][i % 3]));
    assert_eq!(&buf[24..], &[99.0, 99.0]);
    // 3 bars over 8: the last copy is cut at the master edge.
    let mut buf: Vec<f32> = (1..=9).map(|v| v as f32).chain([77.0; 17]).collect();
    fill(&mut buf, TakeFill::later(9, 3, 24));
    assert!((0..24).all(|i| buf[i] == ((i % 9) + 1) as f32));
    assert_eq!(buf[24], 77.0);
    // A take as long as the master is untouched.
    let before = [1.0, 2.0, 3.0, 4.0, 5.0, 6.0, 88.0, 89.0];
    let mut buf = before.to_vec();
    fill(&mut buf, TakeFill::later(6, 3, 6));
    assert_eq!(buf, before);
    // 2.5 captured bars floor to two and tile.
    let mut buf: Vec<f32> = (1..=10).map(|v| v as f32).chain([9.0; 6]).collect();
    fill(&mut buf, TakeFill::later(10, 4, 16));
    assert_eq!(buf, [1., 2., 3., 4., 5., 6., 7., 8., 1., 2., 3., 4., 5., 6., 7., 8.]);
    // A window cut short of its first bar line blanks its stale tail before tiling.
    let mut buf = vec![9.0; 16];
    buf[..2].copy_from_slice(&[1.0, 2.0]);
    fill(&mut buf, TakeFill::later(2, 4, 16));
    assert_eq!(buf, [1., 2., 0., 0., 1., 2., 0., 0., 1., 2., 0., 0., 1., 2., 0., 0.]);
    // A first take pads its short tail.
    let mut buf = vec![5.0; 8];
    fill(&mut buf, TakeFill::first(3, 8));
    assert_eq!(buf, [5., 5., 5., 0., 0., 0., 0., 0.]);
    // A master that is no whole number of bars (a foreign import) is padded, never tiled.
    assert_eq!(TakeFill::later(5, 4, 10), TakeFill::first(5, 10));
    assert_eq!(TakeFill::later(5, 0, 10), TakeFill::first(5, 10));
    // A multiply extends a committed loop to whole copies of it; played backwards it is the loop
    // backwards, repeating.
    let mut buf: Vec<f32> = (1..=4).map(|v| v as f32).chain([7.0; 9]).collect();
    let f = TakeFill::extend(4, 12);
    assert_eq!(f.untouched(), 4);
    fill(&mut buf, f);
    assert_eq!(buf, [1., 2., 3., 4., 1., 2., 3., 4., 1., 2., 3., 4., 7.]);
    let back: Vec<f32> = buf[..12].iter().rev().copied().collect();
    assert!((0..12).all(|k| back[k] == [4., 3., 2., 1.][k % 4]));
}

#[test]
fn a_job_takes_one_frame_per_job_rate_positions_rounded_up() {
    assert_eq!(job_frames(1), 1);
    assert_eq!(job_frames(JOB_RATE), 1);
    assert_eq!(job_frames(JOB_RATE + 1), 2);
    assert_eq!(job_frames(2 * JOB_RATE - 1), 2);
    assert_eq!(job_frames(2 * JOB_RATE), 2);
}

#[test]
fn a_bar_of_no_frames_completes_nothing() {
    assert_eq!(bars_at(Frame::MAX, 0), 0);
    assert_eq!(bars_at(Frame::MIN, -96000), 0);
    assert_eq!(plan_free_stop(Frame::MAX, 0, 60 * 48000), None);
    assert_eq!(plan_later_stop(Frame::MAX, 0, 0, 0, 8, 30), 0);
    assert_eq!(plan_later_stop(Frame::MAX, 0, 0, -5, 8, 30), -5);
    assert_eq!(max_whole_bars(-10, -3), 3);
    assert_eq!(max_whole_bars(10, -3), 1);
    assert_eq!(max_whole_bars(-10, 3), 1);
}

#[test]
fn fills_of_odd_lengths() {
    assert_eq!(TakeFill::later(5, 3, 0), TakeFill { raw: 0, period: 3, master: 0 });
    assert_eq!(TakeFill::later(5, 3, -6), TakeFill { raw: -6, period: 3, master: -6 });
    assert_eq!(TakeFill::later(5, 3, -7), TakeFill { raw: -7, period: -7, master: -7 });
    let f = TakeFill { raw: 3, period: 4, master: 8 };
    assert_eq!((f.source(6), f.source(7)), (Some(2), None));
    assert_eq!((f.source(-1), f.source(-6), f.source(Frame::MIN)), (Some(-1), Some(-2), Some(0)));
    let back = TakeFill { raw: 3, period: -4, master: 8 };
    assert_eq!((back.source(6), back.source(-7)), (Some(2), Some(-3)));
}
