use klang::args::{parse_bars, parse_max_length, parse_resolution, parse_time_sig};
use klang::grid::{grid_layout, plan_grid, GridLayout, Hit};
use klang::onsets::{pick_onsets, slice_bounds};
use klang::place::{choose_slices, grid_hit_span, onset_windows, template_span, Span};
use klang::rng::{Rng, GAMMA};
use klang::sample::{encode_int_sample, IntSample};
use klang::size::format_bytes;

fn err(s: &str) -> Result<u32, String> {
    Err(s.to_string())
}

#[test]
fn bars_accepts_one_to_256() {
    assert_eq!(parse_bars("1"), Ok(1));
    assert_eq!(parse_bars("4"), Ok(4));
    assert_eq!(parse_bars("256"), Ok(256));
    assert_eq!(parse_bars("+12"), Ok(12));
    assert_eq!(parse_bars("007"), Ok(7));
}

#[test]
fn bars_rejects_out_of_range_and_non_numbers() {
    assert_eq!(parse_bars("0"), err("must be between 1 and 256"));
    assert_eq!(parse_bars("257"), err("must be between 1 and 256"));
    assert_eq!(parse_bars(""), err("must be a whole number"));
    assert_eq!(parse_bars("+"), err("must be a whole number"));
    assert_eq!(parse_bars("-1"), err("must be a whole number"));
    assert_eq!(parse_bars(" 4"), err("must be a whole number"));
    assert_eq!(parse_bars("4.0"), err("must be a whole number"));
    assert_eq!(parse_bars("4294967296"), err("must be a whole number"));
    assert_eq!(parse_bars("4294967295"), err("must be between 1 and 256"));
}

#[test]
fn resolution_accepts_powers_of_two_to_64() {
    for (s, v) in [("1", 1), ("2", 2), ("4", 4), ("8", 8), ("16", 16), ("32", 32), ("64", 64)] {
        assert_eq!(parse_resolution(s), Ok(v));
    }
    assert_eq!(parse_resolution("3"), err("must be one of 1, 2, 4, 8, 16, 32, 64"));
    assert_eq!(parse_resolution("128"), err("must be one of 1, 2, 4, 8, 16, 32, 64"));
    assert_eq!(parse_resolution("0"), err("must be one of 1, 2, 4, 8, 16, 32, 64"));
    assert_eq!(parse_resolution("sixteen"), err("must be a whole number"));
}

#[test]
fn max_length_accepts_one_to_64() {
    assert_eq!(parse_max_length("1"), Ok(1));
    assert_eq!(parse_max_length("64"), Ok(64));
    assert_eq!(parse_max_length("65"), err("must be between 1 and 64"));
    assert_eq!(parse_max_length("0"), err("must be between 1 and 64"));
    assert_eq!(parse_max_length("x"), err("must be a whole number"));
}

fn sig_err(s: &str) -> Result<(u32, u32), String> {
    Err(s.to_string())
}

#[test]
fn time_sig_reads_n_over_d() {
    assert_eq!(parse_time_sig("4/4"), Ok((4, 4)));
    assert_eq!(parse_time_sig("6/8"), Ok((6, 8)));
    assert_eq!(parse_time_sig(" 7 / 16 "), Ok((7, 16)));
    assert_eq!(parse_time_sig("\u{3000}3/4\t"), Ok((3, 4)));
    assert_eq!(parse_time_sig("32/32"), Ok((32, 32)));
    assert_eq!(parse_time_sig("1/1"), Ok((1, 1)));
}

#[test]
fn time_sig_errors() {
    assert_eq!(parse_time_sig("44"), sig_err("must be in the form N/D, e.g. 4/4"));
    assert_eq!(parse_time_sig(""), sig_err("must be in the form N/D, e.g. 4/4"));
    assert_eq!(parse_time_sig("x/4"), sig_err("numerator must be a number"));
    assert_eq!(parse_time_sig("/4"), sig_err("numerator must be a number"));
    assert_eq!(parse_time_sig("4/x"), sig_err("denominator must be a number"));
    assert_eq!(parse_time_sig("4/4/4"), sig_err("denominator must be a number"));
    assert_eq!(parse_time_sig("0/4"), sig_err("numerator must be between 1 and 32"));
    assert_eq!(parse_time_sig("33/4"), sig_err("numerator must be between 1 and 32"));
    assert_eq!(parse_time_sig("4/3"), sig_err("denominator must be 1, 2, 4, 8, 16, or 32"));
    assert_eq!(parse_time_sig("4/64"), sig_err("denominator must be 1, 2, 4, 8, 16, or 32"));
    assert_eq!(parse_time_sig("x/y"), sig_err("numerator must be a number"));
}

#[test]
fn rng_matches_splitmix64_reference() {
    let mut r = Rng::new(0);
    assert_eq!(r.next_u64(), 0xe220a8397b1dcdaf);
    assert_eq!(r.next_u64(), 0x6e789e6aa1b965f4);
    assert_eq!(r.next_u64(), 0x06c45d188009454f);
}

#[test]
fn rng_same_seed_same_stream() {
    let mut a = Rng::new(42);
    let mut b = Rng::new(42);
    for _ in 0..100 {
        assert_eq!(a.next_u64(), b.next_u64());
    }
    let mut c = Rng::new(43);
    assert_ne!(Rng::new(42).next_u64(), c.next_u64());
}

#[test]
fn rng_skip_ahead_closed_form() {
    // The n-th draw equals the first draw of a generator seeded n * GAMMA further on.
    let seed = 12345u64;
    let mut a = Rng::new(seed);
    for n in 0..50u64 {
        let mut b = Rng::new(seed.wrapping_add(GAMMA.wrapping_mul(n)));
        assert_eq!(a.next_u64(), b.next_u64());
    }
}

#[test]
fn format_bytes_whole_bytes() {
    assert_eq!(format_bytes(0), "0 B");
    assert_eq!(format_bytes(1), "1 B");
    assert_eq!(format_bytes(512), "512 B");
    assert_eq!(format_bytes(1023), "1023 B");
}

#[test]
fn format_bytes_units() {
    assert_eq!(format_bytes(1024), "1.00 KB");
    assert_eq!(format_bytes(1536), "1.50 KB");
    assert_eq!(format_bytes(10235), "10.00 KB");
    assert_eq!(format_bytes(1048575), "1024.00 KB");
    assert_eq!(format_bytes(1048576), "1.00 MB");
    assert_eq!(format_bytes(36626841), "34.93 MB");
    assert_eq!(format_bytes(1073741824), "1.00 GB");
    assert_eq!(format_bytes(1610612736), "1.50 GB");
    assert_eq!(format_bytes(5373952000), "5.00 GB");
}

#[test]
fn format_bytes_rounds_like_float_formatting() {
    // 1152 / 1024 = 1.125 exactly: the tie goes to the even digit.
    assert_eq!(format_bytes(1152), "1.12 KB");
    assert_eq!(format_bytes(1153), "1.13 KB");
    // Above 2^53 the byte count is first rounded to a double.
    assert_eq!(format_bytes((1u64 << 53) + 1), "8388608.00 GB");
    assert_eq!(format_bytes((1u64 << 53) + 3), "8388608.00 GB");
    assert_eq!(format_bytes(u64::MAX), "17179869184.00 GB");
}

#[test]
fn format_bytes_agrees_with_float_formatting() {
    let samples = [
        1024u64, 1100, 2047, 5000, 99999, 123456789, 987654321, 1 << 40, (1 << 40) + 12345,
        3_000_000_000, 77_777_777_777,
    ];
    for b in samples {
        let expected = if b >= 1 << 30 {
            format!("{:.2} GB", b as f64 / (1u64 << 30) as f64)
        } else if b >= 1 << 20 {
            format!("{:.2} MB", b as f64 / (1u64 << 20) as f64)
        } else {
            format!("{:.2} KB", b as f64 / 1024.0)
        };
        assert_eq!(format_bytes(b), expected);
    }
}

#[test]
fn grid_layout_cuts_bars_into_steps() {
    assert_eq!(grid_layout(4, 4, 16, 4), Ok(GridLayout { steps_per_bar: 16, total_steps: 64 }));
    assert_eq!(grid_layout(6, 8, 8, 2), Ok(GridLayout { steps_per_bar: 6, total_steps: 12 }));
    assert_eq!(grid_layout(7, 16, 16, 1), Ok(GridLayout { steps_per_bar: 7, total_steps: 7 }));
}

#[test]
fn grid_layout_uneven_bar_is_an_error() {
    assert_eq!(
        grid_layout(3, 8, 4, 1),
        Err("a 3/8 bar does not divide evenly into 1/4 steps; try a finer --resolution".to_string())
    );
    assert_eq!(
        grid_layout(1, 32, 16, 4),
        Err("a 1/32 bar does not divide evenly into 1/16 steps; try a finer --resolution"
            .to_string())
    );
}

/// The pattern roll written out step by step, as the grid mode describes it.
fn reference_pattern(seed: u64, n: usize, threshold: u32, pool: usize, max_len: u32) -> Vec<Option<Hit>> {
    let mut rng = Rng::new(seed);
    let mut out = Vec::new();
    for _ in 0..n {
        if rng.next_u64() >> 40 < threshold as u64 {
            let slice = (rng.next_u64() % pool as u64) as usize;
            let steps = (rng.next_u64() % max_len as u64) as usize + 1;
            out.push(Some(Hit { slice, steps }));
        } else {
            out.push(None);
        }
    }
    out
}

#[test]
fn plan_grid_follows_the_roll() {
    let layout = GridLayout { steps_per_bar: 16, total_steps: 64 };
    let mut rng = Rng::new(42);
    let plan = plan_grid(&mut rng, layout, false, 1 << 23, 5, 4);
    assert_eq!(plan, reference_pattern(42, 64, 1 << 23, 5, 4));
    // First draw of seed 42 has top bits 12441394 >= 2^23: step 0 is silent.
    assert_eq!(plan[0], None);
    for h in plan.iter().flatten() {
        assert!(h.slice < 5 && 1 <= h.steps && h.steps <= 4);
    }
}

#[test]
fn plan_grid_density_extremes() {
    let layout = GridLayout { steps_per_bar: 4, total_steps: 8 };
    let mut none = Rng::new(7);
    let plan = plan_grid(&mut none, layout, false, 0, 3, 2);
    assert!(plan.iter().all(|p| p.is_none()));
    // Eight silent steps draw eight numbers.
    let mut eight = Rng::new(7);
    for _ in 0..8 {
        eight.next_u64();
    }
    assert_eq!(none.next_u64(), eight.next_u64());

    let mut all = Rng::new(7);
    let plan = plan_grid(&mut all, layout, false, 1 << 24, 3, 2);
    assert!(plan.iter().all(|p| p.is_some()));
    // Eight fired steps draw three numbers each.
    let mut many = Rng::new(7);
    for _ in 0..24 {
        many.next_u64();
    }
    assert_eq!(all.next_u64(), many.next_u64());
}

#[test]
fn plan_grid_repeat_plays_one_bar_every_bar() {
    let layout = GridLayout { steps_per_bar: 6, total_steps: 24 };
    let mut rng = Rng::new(99);
    let plan = plan_grid(&mut rng, layout, true, 1 << 23, 4, 8);
    assert_eq!(plan.len(), 24);
    let bar = reference_pattern(99, 6, 1 << 23, 4, 8);
    for s in 0..24 {
        assert_eq!(plan[s], bar[s % 6]);
    }
}

#[test]
fn pick_onsets_edge_cases() {
    assert_eq!(pick_onsets(0, 10, &vec![], 5), Vec::<usize>::new());
    assert_eq!(pick_onsets(25, 10, &vec![true, true], 5), vec![0]);
    // No peak taken: onset at frame 0 only.
    assert_eq!(pick_onsets(100, 10, &vec![false; 10], 5), vec![0]);
    // The first and last blocks are never candidates.
    assert_eq!(pick_onsets(100, 10, &vec![true, false, false, false, false, false, false, false, false, true], 5), vec![0]);
}

#[test]
fn pick_onsets_respects_min_gap() {
    let mut peaks = vec![false; 20];
    for i in [2, 3, 5, 9, 10, 15] {
        peaks[i] = true;
    }
    // Blocks of 10 frames, onsets at least 40 frames apart.
    assert_eq!(pick_onsets(200, 10, &peaks, 40), vec![20, 90, 150]);
    assert_eq!(pick_onsets(200, 10, &peaks, 0), vec![20, 30, 50, 90, 100, 150]);
    assert_eq!(pick_onsets(205, 10, &peaks, 25), vec![20, 50, 90, 150]);
}

#[test]
fn slice_bounds_cut_between_onsets() {
    assert_eq!(slice_bounds(&vec![0, 100, 150], 400, 1000), vec![(0, 100), (100, 150), (150, 400)]);
    // Capped at max_slice frames.
    assert_eq!(slice_bounds(&vec![0, 100, 150], 400, 80), vec![(0, 80), (100, 150), (150, 230)]);
    assert_eq!(slice_bounds(&vec![0], 0, 80), Vec::<(usize, usize)>::new());
    // An onset at the very end gives no slice.
    assert_eq!(slice_bounds(&vec![0, 50], 50, 80), vec![(0, 50)]);
}

#[test]
fn onset_windows_run_to_next_onset() {
    assert_eq!(onset_windows(&vec![0, 30, 70], 100), vec![(0, 30), (30, 70), (70, 100)]);
    assert_eq!(onset_windows(&vec![], 100), Vec::<(usize, usize)>::new());
}

#[test]
fn choose_slices_draws_for_audible_events_only() {
    let mut rng = Rng::new(42);
    let picks = choose_slices(&mut rng, &vec![true, false, true, true], 5);
    // Seed 42 draws ...95, ...03, ...52: 3, 1, 3 modulo 5.
    assert_eq!(picks, vec![Some(3), None, Some(1), Some(3)]);
    let mut three = Rng::new(42);
    for _ in 0..3 {
        three.next_u64();
    }
    assert_eq!(rng.next_u64(), three.next_u64());
}

#[test]
fn spans_stay_inside_their_buffers() {
    assert_eq!(grid_hit_span(100, 50, 200, 1000, 10), Some(Span { play: 50, fade: 10 }));
    assert_eq!(grid_hit_span(980, 50, 200, 1000, 10), Some(Span { play: 20, fade: 10 }));
    assert_eq!(grid_hit_span(990, 50, 200, 1000, 10), Some(Span { play: 10, fade: 5 }));
    assert_eq!(grid_hit_span(999, 50, 200, 1000, 10), Some(Span { play: 1, fade: 1 }));
    assert_eq!(grid_hit_span(1000, 50, 200, 1000, 10), None);
    assert_eq!(template_span(10, 110, 40, 132), Some(Span { play: 40, fade: 20 }));
    assert_eq!(template_span(10, 10, 40, 132), None);
    assert_eq!(template_span(10, 110, 0, 132), None);
}

#[test]
fn int_samples_truncate_to_width() {
    assert_eq!(encode_int_sample(100, 8), Some(IntSample::I8(100)));
    assert_eq!(encode_int_sample(300, 8), Some(IntSample::I8(44)));
    assert_eq!(encode_int_sample(-32768, 16), Some(IntSample::I16(-32768)));
    assert_eq!(encode_int_sample(8388607, 24), Some(IntSample::I32(8388607)));
    assert_eq!(encode_int_sample(-5, 32), Some(IntSample::I32(-5)));
    assert_eq!(encode_int_sample(1, 12), None);
    assert_eq!(encode_int_sample(1, 64), None);
}
