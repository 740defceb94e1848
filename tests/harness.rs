use read_bench::report::push_decimal;
use read_bench::stats::average_of;
use read_bench::{
    collect_samples, compute_stats, render_comparison, samples_from_readings, time_func, to_unit,
    use_input, Clock,
};
use read_bench::TimingStats;

fn stats(median: u128, average: u128, min: u128, max: u128) -> TimingStats {
    TimingStats { median, average, min, max }
}

#[test]
fn median_takes_upper_middle_for_even_count() {
    let r = compute_stats(vec![10, 20, 30, 40]);
    assert_eq!(r.median, 30);
    assert_eq!(r, stats(30, 25, 10, 40));
}

#[test]
fn unsorted_samples_are_ordered_first() {
    let r = compute_stats(vec![40, 10, 30, 20, 5]);
    assert_eq!(r, stats(20, 21, 5, 40));
}

#[test]
fn single_sample_is_every_statistic() {
    assert_eq!(compute_stats(vec![17]), stats(17, 17, 17, 17));
}

#[test]
fn constant_samples_give_constant_statistics() {
    assert_eq!(compute_stats(vec![250; 6]), stats(250, 250, 250, 250));
}

#[test]
fn empty_sample_set_gives_zeros() {
    assert_eq!(compute_stats(Vec::new()), stats(0, 0, 0, 0));
}

#[test]
fn average_truncates() {
    assert_eq!(average_of(&vec![1, 2]), 1);
    assert_eq!(average_of(&vec![3, 3, 4]), 3);
    assert_eq!(compute_stats(vec![1, 2, 2]).average, 1);
}

#[test]
fn average_of_largest_values_does_not_overflow() {
    assert_eq!(average_of(&vec![u128::MAX, u128::MAX, u128::MAX]), u128::MAX);
    assert_eq!(average_of(&vec![u128::MAX, u128::MAX - 1]), u128::MAX - 1);
}

#[test]
fn average_lies_between_min_and_max() {
    let r = compute_stats(vec![9, 1, 1, 1]);
    assert_eq!(r.average, 3);
    assert!(r.min <= r.average && r.average <= r.max);
}

#[test]
fn order_of_statistics_holds() {
    let r = compute_stats(vec![5, 100, 3, 8, 1000, 2, 7]);
    assert_eq!(r, stats(7, 160, 2, 1000));
    assert!(r.min <= r.median && r.median <= r.max);
}

#[test]
fn unit_conversion_truncates_to_microseconds() {
    assert_eq!(to_unit(1999, true), 1999);
    assert_eq!(to_unit(1999, false), 1);
    assert_eq!(to_unit(999, false), 0);
    assert_eq!(to_unit(2000, false), 2);
    for n in [0u128, 1, 999, 1000, 123_456_789] {
        let micros = to_unit(n, false);
        let nanos = to_unit(n, true);
        assert!(micros * 1000 <= nanos && nanos <= micros * 1000 + 999);
    }
}

#[test]
fn sample_count_equals_repeats() {
    assert_eq!(collect_samples(&|| {}, 5, true, &mut Clock::start()).len(), 5);
    assert_eq!(collect_samples(&|| {}, 1, false, &mut Clock::start()).len(), 1);
    assert_eq!(collect_samples(&|| {}, 0, false, &mut Clock::start()).len(), 0);
}

#[test]
fn zero_repeats_gives_zero_statistics() {
    assert_eq!(time_func(&|| {}, 0, true, &mut Clock::start()), stats(0, 0, 0, 0));
}

#[test]
fn every_run_executes_once() {
    let count = std::cell::Cell::new(0u32);
    let r = time_func(&|| count.set(count.get() + 1), 7, true, &mut Clock::start());
    assert_eq!(count.get(), 7);
    assert!(r.min <= r.median && r.median <= r.max);
    assert!(r.min <= r.average && r.average <= r.max);
}

#[test]
fn clock_measures_work() {
    let r = time_func(
        &|| {
            let mut acc: u64 = 0;
            for i in 0..200_000u64 {
                acc = std::hint::black_box(acc.wrapping_add(i));
            }
            std::hint::black_box(acc);
        },
        3,
        true,
        &mut Clock::start(),
    );
    assert!(r.max > 0);
}

#[test]
fn decimal_digits() {
    let mut s = String::from("x=");
    push_decimal(&mut s, 0);
    push_decimal(&mut s, 9);
    push_decimal(&mut s, 1050);
    assert_eq!(s, "x=091050");
    let mut t = String::new();
    push_decimal(&mut t, u128::MAX);
    assert_eq!(t, u128::MAX.to_string());
}

#[test]
fn report_text_is_exact() {
    let out = render_comparison("first", &stats(30, 25, 10, 40), "second", &stats(2, 1, 0, 3), false);
    assert_eq!(
        out,
        "first\nMedian: 30 μs\nAverage: 25 μs\nMin: 10 μs\nMax: 40 μs\n\n\
         second\nMedian: 2 μs\nAverage: 1 μs\nMin: 0 μs\nMax: 3 μs\n"
    );
    let ns = render_comparison("a", &stats(1, 1, 1, 1), "b", &stats(7, 7, 7, 7), true);
    assert_eq!(ns, "a\nMedian: 1 ns\nAverage: 1 ns\nMin: 1 ns\nMax: 1 ns\n\nb\nMedian: 7 ns\nAverage: 7 ns\nMin: 7 ns\nMax: 7 ns\n");
}

fn consume(text: &str) -> Result<(), String> {
    for line in text.lines() {
        use_input(line.to_string());
    }
    Ok(())
}

fn always_fails(_text: &str) -> Result<(), String> {
    Err(String::from("no such file"))
}

fn count_prefix(out: &str, prefix: &str) -> usize {
    out.lines().filter(|l| l.starts_with(prefix)).count()
}

#[test]
fn two_candidates_give_two_full_reports() {
    let text = "one\ntwo\nthree\n";
    let mut clock = Clock::start();
    let a = time_func(&|| { let _ = consume(text); }, 5, false, &mut clock);
    let b = time_func(&|| { let _ = consume(text); }, 5, false, &mut clock);
    let out = render_comparison("read_file_bufreader", &a, "read_file_read_to_string", &b, false);
    assert_eq!(count_prefix(&out, "Median: "), 2);
    assert_eq!(count_prefix(&out, "Average: "), 2);
    assert_eq!(count_prefix(&out, "Min: "), 2);
    assert_eq!(count_prefix(&out, "Max: "), 2);
    assert_eq!(out.lines().filter(|l| l.is_empty()).count(), 1);
    assert!(out.starts_with("read_file_bufreader\n"));
}

#[test]
fn swallowed_failures_still_give_full_reports() {
    let runs = std::cell::Cell::new(0u32);
    let op = || {
        runs.set(runs.get() + 1);
        let _ = always_fails("missing.txt");
    };
    assert_eq!(collect_samples(&op, 4, true, &mut Clock::start()).len(), 4);
    let a = time_func(&op, 4, true, &mut Clock::start());
    let b = time_func(&op, 4, true, &mut Clock::start());
    assert_eq!(runs.get(), 12);
    let out = render_comparison("x", &a, "y", &b, true);
    assert_eq!(count_prefix(&out, "Max: "), 2);
}

#[test]
fn readings_pair_into_samples() {
    let readings = vec![100, 1300, 1300, 4350, 5000, 5000, 9000];
    assert_eq!(samples_from_readings(&readings, true), vec![1200, 3050, 0]);
    assert_eq!(samples_from_readings(&readings, false), vec![1, 3, 0]);
    assert_eq!(samples_from_readings(&vec![7, 3], true), vec![0]);
    assert_eq!(samples_from_readings(&Vec::new(), true), Vec::<u128>::new());
}

#[test]
fn fixed_trial_time_gives_that_time_everywhere() {
    let readings = vec![0, 500, 900, 1400, 2000, 2500, 2600, 3100];
    let r = compute_stats(samples_from_readings(&readings, true));
    assert_eq!(r, stats(500, 500, 500, 500));
}

#[test]
fn same_durations_in_both_units() {
    let readings = vec![0, 1999, 2000, 5500, 6000, 6999, 7000, 12000];
    let n = compute_stats(samples_from_readings(&readings, true));
    let u = compute_stats(samples_from_readings(&readings, false));
    assert_eq!(n, stats(3500, 2874, 999, 5000));
    assert_eq!(u, stats(3, 2, 0, 5));
    assert_eq!(u.min, n.min / 1000);
    assert_eq!(u.median, n.median / 1000);
    assert_eq!(u.max, n.max / 1000);
    assert!(1000 * u.average <= n.average && n.average <= 1000 * u.average + 1998);
}

#[test]
fn clock_readings_never_decrease() {
    let mut clock = Clock::start();
    let mut last = clock.read();
    for _ in 0..100 {
        let next = clock.read();
        assert!(next >= last);
        last = next;
    }
}
