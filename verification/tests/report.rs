use std::time::Duration;

use spawnado::closing::{closing_lines, csv_lines};
use spawnado::decimal::show;
use spawnado::plan::{
    banner, check_numbers, opening_lines, probe_message, probe_message_with, run_heading,
    run_intro, show_counts, thread_counts,
};
use spawnado::plot::throughput_plot;
use spawnado::report::{
    csv_header, csv_row, finish_run, run_outcome, run_report, to_seconds, RunResult,
};
use spawnado::style::{show_progress, use_colour, Style};
use spawnado::summary::{best_index, common_unit, sweep_summary};
use spawnado::sweep::parse_sweep;

fn next(state: &mut u64) -> u64 {
    *state = state.wrapping_mul(6364136223846793005).wrapping_add(1442695040888963407);
    *state >> 33
}

/// A run in floating point.
struct FloatRun {
    threads: usize,
    n: usize,
    mean: f64,
    stddev: f64,
    min: f64,
    max: f64,
    p50: f64,
    p95: f64,
    p99: f64,
    wall: Duration,
}

impl FloatRun {
    fn of(threads: usize, samples: &[u128], wall_ns: u128) -> FloatRun {
        let mut all: Vec<u128> = samples.to_vec();
        all.sort_unstable();
        let n = all.len();
        let mean = all.iter().map(|&ns| ns as f64).sum::<f64>() / n as f64;
        let var = all.iter().map(|&ns| (ns as f64 - mean) * (ns as f64 - mean)).sum::<f64>();
        let pct = |p: f64| {
            let idx = ((n as f64) * p).ceil() as usize;
            all[idx.saturating_sub(1).min(n - 1)] as f64
        };
        FloatRun {
            threads,
            n,
            mean,
            stddev: (var / n as f64).sqrt(),
            min: all[0] as f64,
            max: all[n - 1] as f64,
            p50: pct(0.50),
            p95: pct(0.95),
            p99: pct(0.99),
            wall: Duration::new(
                (wall_ns / 1_000_000_000) as u64,
                (wall_ns % 1_000_000_000) as u32,
            ),
        }
    }

    fn throughput(&self) -> f64 {
        self.n as f64 / self.wall.as_secs_f64()
    }
}

fn unit(ns: f64) -> (f64, &'static str) {
    if ns < 1_000.0 {
        (1.0, "ns")
    } else if ns < 1_000_000.0 {
        (1_000.0, "µs")
    } else if ns < 1_000_000_000.0 {
        (1_000_000.0, "ms")
    } else {
        (1_000_000_000.0, "s")
    }
}

fn ending(n: usize) -> &'static str {
    if n == 1 {
        ""
    } else {
        "s"
    }
}

fn float_report(r: &FloatRun, style: Style) -> Vec<String> {
    let (div, u) = unit(r.mean);
    let Style { bold, dim, green, cyan, reset } = style;
    let (wall_div, wall_unit) = unit(r.wall.as_nanos() as f64);
    let wall = format!("{:.2} {wall_unit}", r.wall.as_nanos() as f64 / wall_div);
    vec![
        format!(
            "  {bold}Time (mean ± σ):{reset}     {green}{:>9.2} {u}{reset} ± {:>8.2} {u}",
            r.mean / div,
            r.stddev / div,
        ),
        format!(
            "  {dim}Range (min … max):{reset}   {:>9.2} {u} … {:>8.2} {u}    {} runs",
            r.min / div,
            r.max / div,
            r.n,
        ),
        format!(
            "  {dim}Percentiles:{reset}         p50 {:.2} {u}   p95 {:.2} {u}   p99 {:.2} {u}",
            r.p50 / div,
            r.p95 / div,
            r.p99 / div,
        ),
        String::new(),
        format!(
            "  {bold}Throughput:{reset}         {cyan}{:>9.0}{reset} spawns/sec   \
             ({wall} wall, {} thread{})",
            r.throughput(),
            r.threads,
            ending(r.threads),
        ),
    ]
}

fn float_summary(runs: &[FloatRun], style: Style) -> Vec<String> {
    let (div, u) = unit(runs.iter().map(|r| r.mean).fold(0.0_f64, f64::max));
    let mut best = 0;
    for i in 0..runs.len() {
        if runs[i].throughput() >= runs[best].throughput() {
            best = i;
        }
    }
    let Style { bold, dim, green, cyan, reset } = style;
    let header = format!(
        "  {:>7}  {:>12}  {:>12}  {:>12}  {:>12}  {:>14}  {:>9}",
        "Threads", "Mean", "StdDev", "Min", "Max", "Throughput", "Speedup",
    );
    let base = runs[0].threads;
    let mut lines = vec![
        String::new(),
        format!("{bold}Summary{reset} {dim}(baseline = {base} thread{}){reset}", ending(base)),
        format!("{bold}{header}{reset}"),
        format!("  {}", "─".repeat(header.len().saturating_sub(2))),
    ];
    for (i, r) in runs.iter().enumerate() {
        let (on, off) = if i == best { (green, reset) } else { ("", "") };
        lines.push(format!(
            "  {on}{:>7}  {:>12}  {:>12}  {:>12}  {:>12}  {:>14}  {:>8.2}×{off}",
            r.threads,
            format!("{:.2} {u}", r.mean / div),
            format!("{:.2} {u}", r.stddev / div),
            format!("{:.2} {u}", r.min / div),
            format!("{:.2} {u}", r.max / div),
            format!("{:.0}/s", r.throughput()),
            r.throughput() / runs[0].throughput(),
        ));
    }
    lines.push(String::new());
    lines.push(format!(
        "  {bold}Best throughput:{reset} {cyan}{:.0} spawns/sec{reset} at {} thread{}",
        runs[best].throughput(),
        runs[best].threads,
        ending(runs[best].threads),
    ));
    lines
}

fn float_axis_max(v: f64) -> f64 {
    if v <= 0.0 {
        return 1.0;
    }
    let mag = 10.0_f64.powf(v.log10().floor());
    let n = v / mag;
    let nice = if n <= 1.0 {
        1.0
    } else if n <= 2.0 {
        2.0
    } else if n <= 5.0 {
        5.0
    } else {
        10.0
    };
    nice * mag
}

fn float_plot(runs: &[FloatRun], style: Style) -> Vec<String> {
    let width = runs.len() * 6;
    let axis_max =
        float_axis_max(runs.iter().map(|r| r.throughput()).fold(0.0_f64, f64::max));
    let mut grid = vec![vec![' '; width]; 11];
    for (idx, r) in runs.iter().enumerate() {
        let row = ((1.0 - r.throughput() / axis_max) * 10.0).round() as usize;
        grid[row.min(10)][idx * 6 + 2] = '*';
    }
    let Style { bold, dim, cyan, reset, .. } = style;
    let mut lines =
        vec![String::new(), format!("{bold}Throughput vs threads (spawns/sec):{reset}")];
    for (i, row) in grid.iter().enumerate() {
        let value = axis_max * (1.0 - i as f64 / 10.0);
        let label = if i == 0 || i == 5 || i == 10 {
            format!("{value:>8.0}")
        } else {
            " ".repeat(8)
        };
        let row: String = row.iter().collect();
        lines.push(format!("  {dim}{label} |{reset}{cyan}{row}{reset}"));
    }
    lines.push(format!("  {dim}{:>8} +{}{reset}", "", "-".repeat(width)));
    let labels: String = runs.iter().map(|r| format!("{:^6}", r.threads)).collect();
    lines.push(format!("  {:>8}  {dim}{labels}{reset}", ""));
    lines.push(format!("  {:>8}  {dim}threads{reset}", ""));
    lines
}

fn float_csv(r: &FloatRun) -> String {
    format!(
        "{},{},{:.3},{:.3},{:.3},{:.3},{:.3},{:.3},{:.3},{:.3},{:.6}",
        r.threads,
        r.n,
        r.mean,
        r.stddev,
        r.min,
        r.max,
        r.p50,
        r.p95,
        r.p99,
        r.throughput(),
        r.wall.as_secs_f64(),
    )
}

/// Runs of very different lengths, twice.
fn runs(count: usize, seed: u64) -> (Vec<RunResult>, Vec<FloatRun>) {
    let mut state = seed;
    let mut exact = Vec::new();
    let mut float = Vec::new();
    for k in 0..count {
        let shift = (next(&mut state) % 20) as u32;
        let len = 1 + (next(&mut state) % 60) as usize;
        let samples: Vec<u128> = (0..len).map(|_| next(&mut state) as u128 >> shift).collect();
        let wall = samples.iter().sum::<u128>() + 1 + next(&mut state) as u128 % 1_000_000;
        let threads = 1 + k * 3;
        exact.push(finish_run(threads, &samples, wall));
        float.push(FloatRun::of(threads, &samples, wall));
    }
    (exact, float)
}

fn styles_on_and_off() -> [Style; 2] {
    [Style::new(false), Style::new(true)]
}

#[test]
fn styles() {
    let on = Style::new(true);
    assert_eq!(
        (on.bold, on.dim, on.green, on.cyan, on.reset),
        ("\x1b[1m", "\x1b[2m", "\x1b[32;1m", "\x1b[36m", "\x1b[0m")
    );
    let off = Style::new(false);
    assert_eq!((off.bold, off.dim, off.green, off.cyan, off.reset), ("", "", "", "", ""));
}

#[test]
fn colour_only_at_a_terminal() {
    assert!(use_colour(false, false, true));
    assert!(!use_colour(true, false, true));
    assert!(!use_colour(false, true, true));
    assert!(!use_colour(false, false, false));
}

#[test]
fn numbers_of_threads_and_iterations() {
    assert_eq!(check_numbers(1, 1), Ok(()));
    assert_eq!(check_numbers(0, 1), Err("--threads must be >= 1"));
    assert_eq!(check_numbers(0, 0), Err("--threads must be >= 1"));
    assert_eq!(check_numbers(1, 0), Err("--iterations must be >= 1"));
}

#[test]
fn failed_probe() {
    let reason = "No such file or directory (os error 2)";
    assert_eq!(
        probe_message("/no\"where", reason),
        format!("initial spawn of {:?} failed: {reason}", "/no\"where")
    );
    assert_eq!(probe_message_with("<x>", "y"), "initial spawn of <x> failed: y");
}

#[test]
fn counts_from_the_options() {
    assert_eq!(thread_counts(None, 6), Some(Ok(vec![6])));
    assert_eq!(thread_counts(Some("4,1-2"), 1), Some(Ok(vec![1, 2, 4])));
    assert_eq!(
        thread_counts(Some("3-1"), 1),
        Some(Err("--sweep: range 3-1 is descending".to_string()))
    );
    assert_eq!(thread_counts(Some("1-18446744073709551615"), 1), None);
}

#[test]
fn shown_counts_parse_back() {
    for counts in [vec![1usize], vec![1, 2, 4, 8], vec![3, 10, 200, usize::MAX]] {
        let shown = show_counts(&counts);
        assert_eq!(parse_sweep(&shown), Ok(counts.clone()));
        let listed: Vec<String> = counts.iter().map(|n| n.to_string()).collect();
        assert_eq!(parse_sweep(&listed.join(",")), Ok(counts));
    }
    assert_eq!(show_counts(&[1, 2, 16]), "1, 2, 16");
}

#[test]
fn banner_of_a_single_run() {
    let lines = banner("/usr/bin/true", &[4], 1000, 10, Style::new(false));
    assert_eq!(
        lines,
        [
            "Target: /usr/bin/true",
            "  Threads:    4",
            "  Iterations: 1000 per thread",
            "  Warmup:     10 per thread",
        ]
    );
}

#[test]
fn banner_of_a_sweep() {
    let lines = banner("ls -l", &[1, 2, 4], 5, 0, Style::new(true));
    assert_eq!(
        lines,
        [
            "\x1b[1mTarget\x1b[0m: ls -l",
            "  Sweep:      1, 2, 4",
            "  Iterations: 5 per thread per run",
            "  Warmup:     0 per thread",
        ]
    );
}

#[test]
fn heading_of_a_run() {
    assert_eq!(run_heading(0, 3, 1, Style::new(false)), "▶ Run 1/3: 1 thread");
    assert_eq!(
        run_heading(2, 3, 16, Style::new(true)),
        "\x1b[1m▶ Run 3/3: 16 threads\x1b[0m"
    );
    assert_eq!(
        run_heading(usize::MAX, 1, 0, Style::new(false)),
        "▶ Run 18446744073709551616/1: 0 threads"
    );
}

#[test]
fn lines_before_a_run() {
    assert_eq!(run_intro(false, 0, &[7], Style::new(true)), [""]);
    assert_eq!(run_intro(false, 1, &[1, 2], Style::new(false)), ["", "▶ Run 2/2: 2 threads"]);
    assert!(run_intro(true, 1, &[1, 2], Style::new(false)).is_empty());
}

#[test]
fn seconds_agree_with_durations() {
    for ns in [0u128, 1, 999_999_999, 1_000_000_000, 1_234_567_890, Duration::MAX.as_nanos()] {
        let d = Duration::new((ns / 1_000_000_000) as u64, (ns % 1_000_000_000) as u32);
        assert_eq!(show(to_seconds(ns), 6), format!("{:.6}", d.as_secs_f64()), "{ns}");
    }
}

#[test]
fn report_on_a_known_run() {
    let r = finish_run(1, &[100_123, 146_789, 987_654], 1_234_567_890);
    assert_eq!(
        run_report(&r, Style::new(false)),
        [
            "  Time (mean ± σ):        411.52 µs ±   407.83 µs",
            "  Range (min … max):      100.12 µs …   987.65 µs    3 runs",
            "  Percentiles:         p50 146.79 µs   p95 987.65 µs   p99 987.65 µs",
            "",
            "  Throughput:                 2 spawns/sec   (1.23 s wall, 1 thread)",
        ]
    );
}

#[test]
fn reports_agree_with_floats() {
    let (exact, float) = runs(60, 5);
    for (r, f) in exact.iter().zip(&float) {
        for style in styles_on_and_off() {
            let lines = run_report(r, style);
            assert_eq!(lines, float_report(f, style));
            let escaped = lines.iter().any(|l| l.contains('\x1b'));
            assert_eq!(escaped, !style.bold.is_empty());
        }
    }
}

#[test]
fn csv_of_a_known_run() {
    assert_eq!(
        csv_header(),
        "threads,samples,mean_ns,stddev_ns,min_ns,max_ns,\
         p50_ns,p95_ns,p99_ns,throughput_per_sec,wall_secs"
    );
    let r = finish_run(8, &[1_000, 3_000, 2_000, 2_000], 500_000_000);
    assert_eq!(
        csv_row(&r),
        "8,4,2000.000,707.107,1000.000,3000.000,2000.000,3000.000,3000.000,8.000,0.500000"
    );
}

#[test]
fn csv_agrees_with_floats() {
    let (exact, float) = runs(80, 9);
    let lines = csv_lines(&exact);
    assert_eq!(lines[0], csv_header());
    for (i, f) in float.iter().enumerate() {
        assert_eq!(lines[i + 1], float_csv(f));
    }
    for line in &lines {
        assert_eq!(line.split(',').count(), 11);
        assert!(!line.contains('\x1b'));
    }
    assert_eq!(csv_lines(&[]), [csv_header()]);
}

#[test]
fn run_that_took_no_time() {
    let r = finish_run(1, &[5], 0);
    assert_eq!(csv_row(&r), float_csv(&FloatRun::of(1, &[5], 0)));
    assert!(csv_row(&r).contains(",inf,"));
    let both = [r, finish_run(2, &[5], 1_000)];
    let float = [FloatRun::of(1, &[5], 0), FloatRun::of(2, &[5], 1_000)];
    let style = Style::new(true);
    assert_eq!(sweep_summary(&both, style), float_summary(&float, style));
    assert_eq!(throughput_plot(&both, style), float_plot(&float, style));
}

#[test]
fn common_unit_goes_by_the_largest() {
    let run = |ns: u128| finish_run(1, &[ns], 1);
    assert_eq!(common_unit(&[]), (1, "ns"));
    assert_eq!(common_unit(&[run(5), run(2_000), run(999)]), (1_000, "µs"));
    assert_eq!(common_unit(&[run(7_000_000), run(12)]), (1_000_000, "ms"));
}

#[test]
fn last_of_the_highest() {
    let run = |wall: u128| finish_run(1, &[1], wall);
    assert_eq!(best_index(&[run(5)]), 0);
    assert_eq!(best_index(&[run(9), run(1), run(3), run(1), run(2)]), 3);
    assert_eq!(best_index(&[run(7), run(7), run(7)]), 2);
    assert_eq!(best_index(&[run(1), run(2), run(3)]), 0);
    assert_eq!(best_index(&[run(0), run(2), run(0), run(1)]), 2);
}

#[test]
fn summary_of_no_runs() {
    assert!(sweep_summary(&[], Style::new(true)).is_empty());
}

#[test]
fn summaries_agree_with_floats() {
    for seed in 0..25 {
        let (exact, float) = runs(1 + seed as usize % 7, seed);
        for style in styles_on_and_off() {
            let lines = sweep_summary(&exact, style);
            assert_eq!(lines, float_summary(&float, style));
            assert!(lines[4].contains("1.00×"));
        }
    }
}

#[test]
fn summary_lines_up() {
    let (exact, _) = runs(5, 3);
    let lines = sweep_summary(&exact, Style::new(false));
    for line in &lines[2..9] {
        assert_eq!(line.chars().count(), 92, "{line}");
    }
}

#[test]
fn no_plot_for_one_run() {
    assert!(throughput_plot(&[], Style::new(false)).is_empty());
    let (one, _) = runs(1, 1);
    assert!(throughput_plot(&one, Style::new(false)).is_empty());
}

#[test]
fn plot_of_three_runs() {
    let runs = [
        finish_run(1, &[1], 1_000_000_000),
        finish_run(16, &[1], 2_000_000),
        finish_run(1234567, &[1], 1_000_000),
    ];
    assert_eq!(
        throughput_plot(&runs, Style::new(false)),
        [
            "",
            "Throughput vs threads (spawns/sec):",
            "      1000 |              *   ",
            "           |                  ",
            "           |                  ",
            "           |                  ",
            "           |                  ",
            "       500 |        *         ",
            "           |                  ",
            "           |                  ",
            "           |                  ",
            "           |                  ",
            "         0 |  *               ",
            "           +------------------",
            "              1     16  1234567",
            "            threads",
        ]
    );
}

#[test]
fn plots_agree_with_floats() {
    for seed in 0..40 {
        let (exact, float) = runs(2 + seed as usize % 8, seed + 100);
        for style in styles_on_and_off() {
            assert_eq!(throughput_plot(&exact, style), float_plot(&float, style));
        }
    }
}

#[test]
fn what_is_printed_at_the_end() {
    let (exact, float) = runs(4, 77);
    let style = Style::new(true);
    let mut both = float_summary(&float, style);
    both.extend(float_plot(&float, style));
    assert_eq!(closing_lines(false, true, &exact, style), both);
    assert!(closing_lines(false, false, &exact[..1], style).is_empty());
    assert!(closing_lines(false, true, &[], style).is_empty());
    for sweep in [false, true] {
        assert_eq!(closing_lines(true, sweep, &exact[..1], style), csv_lines(&exact[..1]));
        assert_eq!(closing_lines(true, sweep, &exact, style), csv_lines(&exact));
    }
}

#[test]
fn sweep_of_one_count_ends_with_the_table() {
    let (exact, float) = runs(1, 78);
    for style in styles_on_and_off() {
        let lines = closing_lines(false, true, &exact, style);
        assert_eq!(lines, float_summary(&float, style));
        assert_eq!(lines.len(), 7);
    }
}

#[test]
fn csv_takes_the_place_of_the_report() {
    let style = Style::new(false);
    assert!(opening_lines(true, "ls", &[1, 2], 5, 0, style).is_empty());
    assert_eq!(
        opening_lines(false, "ls", &[1, 2], 5, 0, style),
        banner("ls", &[1, 2], 5, 0, style)
    );
    let (exact, _) = runs(1, 79);
    assert!(run_outcome(true, &exact[0], style).is_empty());
    assert_eq!(run_outcome(false, &exact[0], style), run_report(&exact[0], style));
    assert!(show_progress(false, true));
    assert!(!show_progress(true, true) && !show_progress(false, false));
}
