use lcevc_enc::dequant::{DequantLayer, DequantTable, TemporalSignal};
use lcevc_enc::entropy::rle::CoeffEvent;
use lcevc_enc::gop::{Action, Event, GopLoop};
use lcevc_enc::quant::{dequantize, encode_tu_residual, quantize};
use lcevc_enc::rate::{decide, is_better, scale_step, RatePlan};
use lcevc_enc::runs::{events_of_layer, flush_run, push_coeff, runs_of_signals};
use lcevc_enc::transform::ForwardTransform;
use lcevc_enc::tu::TuState;

#[test]
fn quantizer_levels() {
    assert_eq!(quantize(0, 4, 100, 0), 0);
    assert_eq!(quantize(4 * 250, 4, 100, 0), 3);
    assert_eq!(quantize(-4 * 250, 4, 100, 0), -3);
    assert_eq!(quantize(4 * 250, 4, 100, 30), 3);
    assert_eq!(quantize(16 * 240, 16, 100, 0), 2);
    assert_eq!(quantize(0x20_0000, 4, 1, 0), 8191);
    assert_eq!(quantize(-0x20_0000, 4, 1, 0), -8192);
}

#[test]
fn quantizer_picks_the_nearest_level() {
    let (sw, dz) = (40, 12);
    let value = |c: i32| match c {
        0 => 0,
        _ if c > 0 => c * sw - dz,
        _ => c * sw + dz,
    };
    for num in -2000i32..=2000 {
        let q = quantize(num, 16, sw, dz) as i32;
        if q != 0 && 2 * num.abs() < 16 * (sw - dz) {
            continue;
        }
        for k in -200i32..=200 {
            assert!((num - 16 * value(q)).abs() <= (num - 16 * value(k)).abs());
        }
    }
    // Just below half of the first value, the deadzone still rounds up.
    assert_eq!(quantize(16 * 13, 16, sw, dz), 1);
}

#[test]
fn refined_levels_are_the_cheapest() {
    let layer = DequantLayer { step_width: 10, offset: 0, deadzone: 0 };
    let table = DequantTable { layers: vec![vec![layer; 4], vec![layer; 4]] };
    let forward = ForwardTransform::new(0, false);
    let mut energy = vec![0u128; 16];
    let mut level = |v: i16, rdoq: bool| {
        let (levels, _) = encode_tu_residual(
            &vec![v; 4],
            &table,
            &forward,
            TemporalSignal::Inter,
            false,
            0,
            0,
            &mut energy,
            rdoq,
        );
        levels[0]
    };
    // The coefficient 23 has the numerator 92: level 2 costs 144 + 864, level 3 costs 784 + 864.
    assert_eq!(level(23, false), 2);
    assert_eq!(level(23, true), 2);
    assert_eq!(level(-23, true), -2);
    // Level 1 costs 256 + 864, and zero 576.
    assert_eq!(level(6, false), 1);
    assert_eq!(level(6, true), 0);
    assert_eq!(level(-6, true), 0);
    // Level 3 costs 256 + 864.
    assert_eq!(level(26, true), 3);
}

#[test]
fn dequantized_levels() {
    let layer = DequantLayer { step_width: 100, offset: 7, deadzone: -7 };
    assert_eq!(dequantize(3, &layer), 307);
    assert_eq!(dequantize(-3, &layer), -307);
    assert_eq!(dequantize(0, &layer), 0);
    assert_eq!(dequantize(1000, &layer), 32767);
}

#[test]
fn zero_runs_between_values() {
    let mut events = Vec::new();
    let mut run = 0;
    for c in [5i16, 0, 0, -2, 0] {
        push_coeff(&mut events, &mut run, c);
    }
    flush_run(&mut events, run);
    let got: Vec<(i16, u32)> = events.iter().map(|e| (e.value, e.zero_run)).collect();
    assert_eq!(got, vec![(5, 2), (-2, 1)]);
    let mut only = Vec::new();
    flush_run(&mut only, 4);
    assert_eq!((only[0].value, only[0].zero_run), (0, 3));
}

#[test]
fn events_of_one_layer() {
    let coeffs = vec![vec![1i16, 9], vec![0, 8], vec![2, 7]];
    let events: Vec<CoeffEvent> = events_of_layer(&coeffs, 0, false);
    let got: Vec<(i16, u32)> = events.iter().map(|e| (e.value, e.zero_run)).collect();
    assert_eq!(got, vec![(1, 1), (2, 0)]);
}

#[test]
fn runs_of_equal_signals() {
    let runs = runs_of_signals(&vec![0, 0, 1, 1, 1, 0]);
    let got: Vec<(u8, u32)> = runs.iter().map(|r| (r.signal, r.count)).collect();
    assert_eq!(got, vec![(0, 2), (1, 3), (0, 1)]);
}

#[test]
fn block_order_visits_every_tu_once() {
    let tu = TuState::new(72, 40, 0, 0, 2);
    let mut seen = vec![0u32; 18 * 10];
    for i in 0..tu.tu_total {
        let (x, y) = tu.block_position(i);
        assert!(x % 4 == 0 && y % 4 == 0);
        seen[(y / 4) * 18 + x / 4] += 1;
    }
    assert!(seen.iter().all(|&n| n == 1));
    // The first block of 32x32 samples comes first.
    for i in 0..64 {
        let (x, y) = tu.block_position(i);
        assert!(x < 32 && y < 32);
    }
    assert_eq!(tu.surface_position(19), (4, 4));
    assert_eq!(tu.surface_or_block_position(19, false), (4, 4));
}

#[test]
fn rate_decisions() {
    let plan = RatePlan { target: 1000, stage: 0, sw1: 400, sw2: 100 };
    assert!(decide(&plan, 1250).is_none());
    let next = decide(&plan, 4000).unwrap();
    // The step widths grow with the square root of the excess: twice as large.
    assert_eq!((next.stage, next.sw1, next.sw2), (1, 800, 200));
    assert!(decide(&next, 1000).is_none());
    let third = decide(&next, 2000).unwrap();
    assert_eq!((third.stage, third.sw1), (2, 800));
    assert_eq!(scale_step(400, 9000, 1000, 4, 16, 16384), 1200);
    // At most four times as large, and within the limits.
    assert_eq!(scale_step(400, 1_000_000, 1000, 4, 16, 16384), 1600);
    assert_eq!(scale_step(2, 1, 1000, 4, 16, 16384), 16);
}

#[test]
fn better_candidates() {
    assert!(is_better(900, 1200, 1000));
    assert!(is_better(900, 800, 1000));
    assert!(!is_better(800, 900, 1000));
    assert!(is_better(1100, 1200, 1000));
    assert!(!is_better(1100, 900, 1000));
}

#[test]
fn a_session_codes_every_frame_once() {
    for background in [false, true] {
        for (available, frames, gop) in [(10u32, 100u32, 4usize), (3, 2, 1), (0, 5, 3), (7, 7, 30)] {
            let mut order = GopLoop::new(gop, frames, background);
            let (mut read, mut group, mut pending, mut coded) = (0u32, 0u32, 0u32, 0u32);
            loop {
                let event = match order.action() {
                    Action::Read => {
                        if read < available {
                            read += 1;
                            group += 1;
                            Event::FrameRead
                        } else {
                            Event::InputEnded
                        }
                    }
                    Action::Enhance => {
                        assert!(pending > 0);
                        coded += pending;
                        pending = 0;
                        Event::Done
                    }
                    Action::Start => {
                        assert!(background && pending == 0 && group > 0);
                        pending = group;
                        group = 0;
                        Event::Done
                    }
                    Action::Encode => {
                        assert!(!background);
                        coded += group;
                        group = 0;
                        Event::Done
                    }
                    Action::Finish => break,
                };
                order.advance(event);
            }
            assert_eq!(read, available.min(frames));
            assert_eq!(coded, read);
        }
    }
}
