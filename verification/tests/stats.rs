use solana_shred_tx_benchmark::clock::Nanos;
use solana_shred_tx_benchmark::progress::PROGRESS_INTERVAL;
use solana_shred_tx_benchmark::report::{format_milliseconds, percentile, SourceNumerals};
use solana_shred_tx_benchmark::sort::sort;
use solana_shred_tx_benchmark::stats::Stats;
use solana_shred_tx_benchmark::table::render_table;
use std::time::Duration;

const MILLISECOND: Nanos = 1_000_000;

fn milliseconds(lead: Nanos) -> f64 {
    Duration::from_nanos(lead as u64).as_secs_f64() * 1_000.0
}

fn numeral(lead: Option<Nanos>) -> String {
    lead.map_or("none".to_owned(), |lead| format!("{:.3}", milliseconds(lead)))
}

fn numerals(stats: &Stats, source: usize) -> SourceNumerals {
    let figures = stats.lead_figures(source);
    let leads = &stats.leads_ns[source];
    let mean = (!leads.is_empty()).then(|| {
        leads.iter().map(|lead| milliseconds(*lead)).sum::<f64>() / leads.len() as f64
    });
    SourceNumerals {
        win_rate: format!("{:.1}", stats.first[source] as f64 * 100.0 / stats.matched as f64),
        mean: mean.map_or("none".to_owned(), |mean| format!("{mean:.3}")),
        p50: numeral(figures.p50),
        p75: numeral(figures.p75),
        p95: numeral(figures.p95),
        p99: numeral(figures.p99),
    }
}

fn both(stats: &Stats) -> [SourceNumerals; 2] {
    [numerals(stats, 0), numerals(stats, 1)]
}

fn id(first: u8, last: u8) -> [u8; 64] {
    let mut id = [0; 64];
    id[0] = first;
    id[63] = last;
    id
}

#[test]
fn records_unique_and_out_of_order_arrivals() {
    let mut stats = Stats::default();
    let start = 1_000 * MILLISECOND;
    stats.observe(0, [1; 64], start + 5 * MILLISECOND);
    stats.observe(0, [1; 64], start + 6 * MILLISECOND);
    stats.observe(1, [1; 64], start + 2 * MILLISECOND);

    assert_eq!(stats.unique, [1, 1]);
    assert_eq!(stats.matched, 1);
    assert_eq!(stats.first, [0, 1]);
    assert_eq!(
        stats.leads_ns[1].iter().map(|lead| milliseconds(*lead)).collect::<Vec<_>>(),
        vec![3.0]
    );
    assert!(stats.leads_ns[0].is_empty());
}

#[test]
fn handling_order_does_not_change_the_results() {
    let mut forward = Stats::default();
    forward.observe(0, id(1, 1), 10);
    forward.observe(1, id(1, 1), 30);
    forward.observe(1, id(2, 2), 5);
    forward.observe(0, id(2, 2), 6);
    let mut backward = Stats::default();
    backward.observe(0, id(2, 2), 6);
    backward.observe(1, id(2, 2), 5);
    backward.observe(1, id(1, 1), 30);
    backward.observe(0, id(1, 1), 10);

    for stats in [&forward, &backward] {
        assert_eq!(stats.unique, [2, 2]);
        assert_eq!(stats.first, [1, 1]);
        assert_eq!(stats.matched, 2);
        assert_eq!(stats.leads_ns, [vec![20], vec![1]]);
    }
}

#[test]
fn sorted_leads_do_not_depend_on_the_handling_order() {
    let arrivals = [(0, 1, 10), (1, 1, 40), (0, 2, 11), (1, 2, 21), (1, 3, 5), (0, 3, 25)];
    let mut forward = Stats::default();
    for (source, byte, at) in arrivals {
        forward.observe(source, [byte; 64], at);
    }
    let mut backward = Stats::default();
    for (source, byte, at) in arrivals.into_iter().rev() {
        backward.observe(source, [byte; 64], at);
    }
    assert_eq!(forward.leads_ns, [vec![30, 10], vec![20]]);
    assert_eq!(backward.leads_ns, [vec![10, 30], vec![20]]);
    for mut stats in [forward, backward] {
        let figures = stats.summarize();
        assert_eq!(stats.leads_ns, [vec![10, 30], vec![20]]);
        assert_eq!(figures[0].p50, Some(10));
        assert_eq!(figures[0].p99, Some(30));
    }
}

#[test]
fn results_do_not_depend_on_the_handling_order_or_the_number_of_times_asked() {
    let names = ["one".to_owned(), "two".to_owned()];
    let arrivals = [(0, 1, 10), (1, 1, 40), (0, 2, 11), (1, 2, 21), (1, 3, 5), (0, 3, 25)];
    let mut forward = Stats::default();
    for (source, byte, at) in arrivals {
        forward.observe(source, [byte; 64], at * MILLISECOND);
    }
    let mut backward = Stats::default();
    for (source, byte, at) in arrivals.into_iter().rev() {
        backward.observe(source, [byte; 64], at * MILLISECOND);
    }
    forward.summarize();
    backward.summarize();
    let text = forward.write_results(&names, "60.0", &both(&forward));
    assert_eq!(text, backward.write_results(&names, "60.0", &both(&backward)));
    assert!(text.contains("66.7% | 20.000 ms | 10.000 ms | 30.000 ms"));
    forward.summarize();
    assert_eq!(text, forward.write_results(&names, "60.0", &both(&forward)));
}

#[test]
fn leads_are_counted_as_often_as_they_occur() {
    let mut stats = Stats::default();
    for byte in 0..5 {
        stats.observe(0, [byte; 64], 100);
        stats.observe(1, [byte; 64], 107);
    }
    stats.observe(1, [9; 64], 100);
    stats.observe(0, [9; 64], 107);
    assert_eq!(stats.leads_ns, [vec![7; 5], vec![7]]);
    assert_eq!(stats.first, [5, 1]);
}

#[test]
fn of_two_arrivals_at_one_time_the_one_noted_before_wins() {
    let mut stats = Stats::default();
    stats.observe(1, [7; 64], 50);
    stats.observe(0, [7; 64], 50);
    assert_eq!(stats.first, [0, 1]);
    assert_eq!(stats.leads_ns, [vec![], vec![0]]);
}

#[test]
fn identifiers_that_start_alike_are_told_apart() {
    let mut stats = Stats::default();
    for last in 0..40 {
        stats.observe(0, id(9, last), 100);
    }
    for last in 0..20 {
        stats.observe(1, id(9, 2 * last), 100 + u128::from(last));
    }
    stats.observe(1, id(9, 200), 1);
    stats.observe(1, id(10, 0), 1);
    assert_eq!(stats.unique, [40, 22]);
    assert_eq!(stats.matched, 20);
    assert_eq!(stats.first, [20, 0]);
    assert_eq!(stats.leads_ns[0], (0..20).collect::<Vec<Nanos>>());
}

#[test]
fn calculates_nearest_rank_percentiles() {
    for p in [50, 75, 95, 99] {
        assert_eq!(percentile(&vec![1], p), Some(1));
        assert_eq!(percentile(&vec![], p), None);
    }

    let pair = vec![1, 2];
    assert_eq!(percentile(&pair, 50), Some(1));
    assert_eq!(percentile(&pair, 75), Some(2));
    assert_eq!(percentile(&pair, 95), Some(2));
    assert_eq!(percentile(&pair, 99), Some(2));

    let quartet = vec![1, 2, 3, 4];
    assert_eq!(percentile(&quartet, 50), Some(2));
    assert_eq!(percentile(&quartet, 75), Some(3));
    assert_eq!(percentile(&quartet, 95), Some(4));
    assert_eq!(percentile(&quartet, 99), Some(4));
}

#[test]
fn percentiles_agree_with_floating_point_ranks() {
    for count in 1..=2_000_usize {
        let values = (0..count as Nanos).collect::<Vec<_>>();
        for (percent, fraction) in [(50, 0.50), (75, 0.75), (95, 0.95), (99, 0.99)] {
            let rank = (count as f64 * fraction).ceil() as usize;
            let index = rank.saturating_sub(1).min(count - 1);
            assert_eq!(percentile(&values, percent), Some(index as Nanos));
        }
    }
}

#[test]
fn percentiles_beyond_the_ends_are_the_ends() {
    let values = vec![4, 5, 6];
    assert_eq!(percentile(&values, 0), Some(4));
    assert_eq!(percentile(&values, 100), Some(6));
    assert_eq!(percentile(&values, 101), Some(6));
    assert_eq!(percentile(&values, u64::MAX), Some(6));
}

#[test]
fn sorting_keeps_every_number() {
    assert_eq!(sort(&vec![]), Vec::<Nanos>::new());
    assert_eq!(sort(&vec![5]), vec![5]);
    assert_eq!(sort(&vec![3, 1, 2, 3, 0, u128::MAX, 1]), vec![0, 1, 1, 2, 3, 3, u128::MAX]);
    let scattered = (0..1_000_u128).map(|i| i * 7_919 % 1_000).collect::<Vec<_>>();
    assert_eq!(sort(&scattered), (0..1_000).collect::<Vec<_>>());
}

#[test]
fn summarizing_sorts_the_leads() {
    let mut stats = Stats {
        leads_ns: [vec![30, 10, 20], vec![]],
        ..Stats::default()
    };
    let [one, two] = stats.summarize();
    assert_eq!(stats.leads_ns, [vec![10, 20, 30], vec![]]);
    assert_eq!([one.p50, one.p75, one.p95, one.p99], [Some(20), Some(30), Some(30), Some(30)]);
    assert_eq!([two.p50, two.p75, two.p95, two.p99], [None; 4]);
}

#[test]
fn formats_table_from_cell_widths_and_sanitizes_names() {
    assert_eq!(PROGRESS_INTERVAL, Duration::from_millis(200).as_nanos());
    let names = [
        "one\n\x1b[31m\u{0301}".to_owned(),
        "source-two-name-that-is-far-too-long-for-a-terminal".to_owned(),
    ];
    let stats = Stats {
        unique: [12, 3_456],
        first: [7, 3],
        matched: 10,
        leads_ns: [vec![60_000 * MILLISECOND], vec![12_500_000]],
        ..Stats::default()
    };
    let table = stats.table(&names, &both(&stats));
    let lines = table.lines().collect::<Vec<_>>();
    let widths = lines.iter().map(|line| line.len()).collect::<Vec<_>>();
    let separators = lines
        .iter()
        .filter(|line| line.contains('|'))
        .map(|line| {
            line.match_indices('|')
                .map(|(index, _)| index)
                .collect::<Vec<_>>()
        })
        .collect::<Vec<_>>();
    assert!(widths.iter().all(|width| *width == widths[0]));
    assert!(separators
        .iter()
        .all(|positions| *positions == separators[0]));
    assert_eq!(separators[0].len(), 8);
    assert!(!table.contains('\x1b'));
    assert!(table.contains("60000.000 ms"));
    assert!(table.contains("S1 (one??[31m?)"));
    assert!(table.contains("S2 (source-two-name-that-is-far-t...)"));
}

#[test]
fn results_are_written_in_full() {
    let names = ["one".to_owned(), "two".to_owned()];
    let mut stats = Stats::default();
    stats.observe(0, [1; 64], 2_000_000);
    stats.observe(1, [1; 64], 3_500_000);
    stats.observe(1, [2; 64], 4_000_000);
    stats.summarize();
    assert_eq!(
        stats.write_results(&names, "60.0", &both(&stats)),
        "\nBenchmark results (60.0s)\n\
         Matched transactions: 1 | Only S1 (one): 0 | Only S2 (two): 1\n\
         Source   | Unique tx | First | Win rate | Mean lead | P50 lead | P75 lead | P95 lead | P99 lead\n\
         ---------+-----------+-------+----------+-----------+----------+----------+----------+---------\n\
         S1 (one) |         1 |     1 |   100.0% |  1.500 ms | 1.500 ms | 1.500 ms | 1.500 ms | 1.500 ms\n\
         S2 (two) |         2 |     0 |     0.0% |         - |        - |        - |        - |        -\n"
    );
}

#[test]
fn nothing_matched_is_nothing_won() {
    let names = ["one".to_owned(), "two".to_owned()];
    let stats = Stats::default();
    let text = stats.write_results(&names, "60.0", &both(&stats));
    assert!(text.contains("Benchmark results (60.0s)"));
    assert!(text.contains("Matched transactions: 0 | Only S1 (one): 0 | Only S2 (two): 0\n"));
    assert_eq!(text.matches("0.0%").count(), 2);
    assert_eq!(text.matches(" -\n").count(), 2);
    assert!(text.ends_with("|        -\n"));
    assert!(!text.contains("none"));
}

#[test]
fn no_name_breaks_a_line_of_the_results() {
    let names = ["one\ntwo\r\nthree".to_owned(), "| a | \u{1f600} |\t".to_owned()];
    let mut stats = Stats::default();
    stats.observe(0, [1; 64], 2_000_000);
    stats.observe(1, [1; 64], 3_500_000);
    let table = stats.table(&names, &both(&stats));
    let lines = table.split('\n').collect::<Vec<_>>();
    assert_eq!(lines.len(), 4);
    for line in &lines {
        assert_eq!(line.len(), lines[0].len());
        assert!(line.bytes().all(|byte| (b' '..=b'~').contains(&byte)));
    }
    let text = stats.write_results(&names, "1.5", &both(&stats));
    assert_eq!(text.split('\n').count(), 8);
    assert!(text.bytes().all(|byte| byte == b'\n' || (b' '..=b'~').contains(&byte)));
}

#[test]
fn spans_are_shown_with_their_unit() {
    assert_eq!(format_milliseconds(&Some("1.500".to_owned())), "1.500 ms");
    assert_eq!(format_milliseconds(&None), "-");
}

fn row(cells: [&str; 9]) -> [String; 9] {
    cells.map(str::to_owned)
}

#[test]
fn small_tables_are_rendered() {
    assert_eq!(render_table(&vec![]), "");
    assert_eq!(
        render_table(&vec![row(["a", "b", "c", "d", "e", "f", "g", "h", "i"])]),
        "a | b | c | d | e | f | g | h | i"
    );
}

#[test]
fn columns_are_as_wide_as_the_bytes_of_their_longest_cell() {
    let table = render_table(&vec![
        row(["\u{e9}", "1", "", "", "", "", "", "", ""]),
        row(["x", "\u{20ac}", "", "", "", "", "", "", "z"]),
    ]);
    assert_eq!(
        table,
        "\u{e9}  |   1 |  |  |  |  |  |  |  \n\
         ---+-----+--+--+--+--+--+--+--\n\
         x  |   \u{20ac} |  |  |  |  |  |  | z"
    );
    let widths = table.lines().map(|line| line.chars().count()).collect::<Vec<_>>();
    assert_eq!(widths[0], widths[2]);
}
