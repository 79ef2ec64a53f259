use solana_shred_tx_benchmark::clock::{Nanos, Window};
use solana_shred_tx_benchmark::collect::{collect_until, CollectStep, Wakeup};
use solana_shred_tx_benchmark::event::Event;
use solana_shred_tx_benchmark::progress::{
    format_progress, render_progress, ProgressLine, ProgressReporter, ProgressSnapshot,
    RenderState, RenderStep, CLEAR_LINE,
};
use solana_shred_tx_benchmark::report::SourceNumerals;
use solana_shred_tx_benchmark::stats::Stats;
use std::io::{Error, ErrorKind, Write};
use std::time::Duration;

const SECOND: Nanos = 1_000_000_000;

/// Does what the renderer does until it has to wait or is finished, and returns whether it is.
fn render(line: &mut ProgressLine, reporter: &mut ProgressReporter, output: &mut String) -> bool {
    let Some(state) = &mut reporter.state else {
        return true;
    };
    loop {
        match render_progress(line, state) {
            RenderStep::Wait => return false,
            RenderStep::Draw { frames, finished } => {
                for frame in &frames {
                    output.push_str(&frame.text);
                    assert_eq!(line.wrote(frame, Ok::<(), String>(())), Ok(()));
                }
                if finished {
                    return true;
                }
            }
        }
    }
}

#[test]
fn progress_is_bounded_and_hidden_output_stays_empty() {
    let progress = format_progress(Duration::MAX.as_nanos(), [u64::MAX; 2]);
    assert_eq!(progress.len(), 68);
    assert_eq!(
        progress,
        "Running  >99999s | S1 18446744073709551615 | S2 18446744073709551615"
    );

    let mut output = String::new();
    let mut hidden = ProgressReporter::new(false);
    assert!(!hidden.visible());
    assert!(!hidden.report(Duration::from_secs(1).as_nanos(), [12, 34]));
    assert!(!hidden.finish());
    assert!(render(&mut ProgressLine::new(), &mut hidden, &mut output));
    assert!(output.is_empty());
}

#[test]
fn the_line_is_always_sixty_eight_characters_long() {
    for elapsed in [0, 1, SECOND, 99_999 * SECOND, 100_000 * SECOND - 1, 100_000 * SECOND, u128::MAX] {
        for count in [0, 1, 999, u64::MAX] {
            assert_eq!(format_progress(elapsed, [count, 7]).len(), 68);
        }
    }
}

#[test]
fn the_time_is_cut_to_tenths_of_a_second() {
    assert_eq!(
        format_progress(12_399_999_999, [5, 60]),
        "Running    12.3s | S1                    5 | S2                   60"
    );
    assert!(format_progress(100_000 * SECOND - 1, [0, 0]).starts_with("Running 99999.9s |"));
    assert!(format_progress(100_000 * SECOND, [0, 0]).starts_with("Running  >99999s |"));
}

#[test]
fn clears_progress_after_success_and_ctrl_c() {
    let mut output = String::new();
    let mut line = ProgressLine::new();
    let mut progress = ProgressReporter::new(true);
    assert!(progress.report(0, [0, 0]));
    assert!(!render(&mut line, &mut progress, &mut output));
    let window = Window { start: SECOND, cutoff: SECOND + 20_000_000 };
    let mut stats = Stats::default();
    let step = collect_until(&window, 20_000_000, progress.visible(), &mut stats, Wakeup::Deadline);
    assert!(matches!(step, CollectStep::Finish(Ok(cutoff)) if cutoff == window.cutoff));
    assert!(progress.finish());
    assert!(render(&mut line, &mut progress, &mut output));
    assert!(output.ends_with("\r\x1b[2K"));
    assert!(output.contains(&format_progress(0, [0, 0])));

    let mut output = String::new();
    let mut line = ProgressLine::new();
    let mut progress = ProgressReporter::new(true);
    assert!(progress.report(0, [0, 0]));
    let window = Window { start: SECOND, cutoff: 61 * SECOND };
    let step = collect_until(
        &window,
        60 * SECOND,
        progress.visible(),
        &mut Stats::default(),
        Wakeup::Interrupt { outcome: Ok(()), now: 2 * SECOND },
    );
    let CollectStep::Finish(Ok(cutoff)) = step else {
        panic!("the interrupt was ignored");
    };
    assert!(cutoff < window.cutoff);
    assert_eq!(cutoff, 2 * SECOND);
    assert!(progress.finish());
    assert!(render(&mut line, &mut progress, &mut output));
    assert!(output.ends_with("\r\x1b[2K"));
}

#[test]
fn blocked_writer_keeps_only_latest_progress_and_does_not_block_events() {
    let mut output = String::new();
    let mut line = ProgressLine::new();
    let mut progress = ProgressReporter::new(true);
    assert!(progress.report(SECOND, [1, 1]));
    assert!(!render(&mut line, &mut progress, &mut output));

    let window = Window { start: 5 * SECOND, cutoff: 65 * SECOND };
    let mut stats = Stats::default();
    for source in 0..2 {
        let step = collect_until(
            &window,
            60 * SECOND,
            progress.visible(),
            &mut stats,
            Wakeup::Received(Some(Event::Transaction {
                source,
                id: [source as u8; 64],
                received_at: window.start + 1_000_000,
            })),
        );
        assert!(matches!(step, CollectStep::Continue));
    }
    let step = collect_until(
        &window,
        60 * SECOND,
        progress.visible(),
        &mut stats,
        Wakeup::Received(Some(Event::Error { source: 0, message: "broken".to_owned() })),
    );
    let CollectStep::Finish(Err(error)) = step else {
        panic!("the error was ignored");
    };
    assert_eq!(error.message(), "S1: broken");
    assert_eq!(stats.unique, [1, 1]);

    progress.report(2 * SECOND, [2, 2]);
    progress.report(3 * SECOND, [3, 3]);
    assert!(progress.finish());
    assert!(render(&mut line, &mut progress, &mut output));

    assert!(!output.contains(&format_progress(2 * SECOND, [2, 2])));
    assert!(output.contains(&format_progress(3 * SECOND, [3, 3])));
    assert!(output.ends_with("\r\x1b[2K"));
}

/// Counts how often it is written to, and fails every time.
struct WouldBlockWriter(usize);

impl Write for WouldBlockWriter {
    fn write(&mut self, _buffer: &[u8]) -> Result<usize, Error> {
        self.0 += 1;
        Err(Error::from(ErrorKind::WouldBlock))
    }

    fn flush(&mut self) -> Result<(), Error> {
        Ok(())
    }
}

fn numerals() -> SourceNumerals {
    SourceNumerals {
        win_rate: String::new(),
        mean: String::new(),
        p50: String::new(),
        p75: String::new(),
        p95: String::new(),
        p99: String::new(),
    }
}

#[test]
fn progress_failure_is_joined_before_results_are_written() {
    let mut writer = WouldBlockWriter(0);
    let mut line = ProgressLine::new();
    let mut progress = ProgressReporter::new(true);
    assert!(progress.report(Duration::from_secs(1).as_nanos(), [1, 1]));
    assert!(progress.finish());

    let step = render_progress(&line, progress.state.as_mut().unwrap());
    let RenderStep::Draw { frames, finished } = step else {
        panic!("nothing was drawn");
    };
    assert!(finished);
    let error = frames
        .iter()
        .try_for_each(|frame| line.wrote(frame, writer.write_all(frame.text.as_bytes())))
        .unwrap_err();
    assert_eq!(error.kind(), ErrorKind::WouldBlock);
    assert!(!line.drawn);

    let attempts_after_finish = writer.0;
    let output = Stats::default().write_results(
        &["one".to_owned(), "two".to_owned()],
        "60.0",
        &[numerals(), numerals()],
    );
    assert_eq!(writer.0, attempts_after_finish);
    assert_eq!(attempts_after_finish, 1);
    assert!(output.contains("Benchmark results (60.0s)"));
}

#[test]
fn what_is_drawn_is_emptied_in_the_end() {
    let mut output = String::new();
    let mut line = ProgressLine::new();
    let mut progress = ProgressReporter::new(true);
    for second in 1..5u8 {
        progress.report(u128::from(second) * SECOND, [1, 1]);
        assert!(!render(&mut line, &mut progress, &mut output));
        assert!(line.drawn);
        assert!(!output.ends_with(CLEAR_LINE));
    }
    progress.finish();
    assert!(render(&mut line, &mut progress, &mut output));
    assert!(!line.drawn);
    assert!(output.ends_with(CLEAR_LINE));
    assert_eq!(output.matches(CLEAR_LINE).count(), 5);
}

#[test]
fn nothing_is_reported_after_the_end() {
    let mut progress = ProgressReporter::new(true);
    assert!(progress.finish());
    assert!(!progress.report(SECOND, [1, 1]));
    assert!(progress.state.as_ref().unwrap().latest.is_none());
    let mut output = String::new();
    assert!(render(&mut ProgressLine::new(), &mut progress, &mut output));
    assert!(output.is_empty());
}

#[test]
fn the_line_is_drawn_over_and_emptied_once() {
    let mut line = ProgressLine::new();
    assert!(line.clear().is_none());
    let frame = line.update(SECOND, [1, 2]);
    assert_eq!(frame.text, format!("\r\x1b[2K{}", format_progress(SECOND, [1, 2])));
    assert!(!line.drawn);
    assert_eq!(line.wrote(&frame, Ok::<(), String>(())), Ok(()));
    assert!(line.drawn);
    let frame = line.clear().unwrap();
    assert_eq!(frame.text, CLEAR_LINE);
    assert!(line.drawn);
    assert_eq!(line.wrote(&frame, Ok::<(), String>(())), Ok(()));
    assert!(!line.drawn);
    assert!(line.clear().is_none());
}

#[test]
fn a_failed_write_leaves_the_line_as_it_was() {
    let failed = || Err("would block".to_owned());
    let mut line = ProgressLine::new();
    let update = line.update(SECOND, [1, 2]);
    assert_eq!(line.wrote(&update, failed()), failed());
    assert!(!line.drawn);
    assert!(line.clear().is_none());

    assert_eq!(line.wrote(&update, Ok::<(), String>(())), Ok(()));
    assert_eq!(line.wrote(&update, failed()), failed());
    assert!(line.drawn);
    let clear = line.clear().unwrap();
    assert_eq!(line.wrote(&clear, failed()), failed());
    assert!(line.drawn);
    assert_eq!(line.clear().unwrap().text, CLEAR_LINE);
}

#[test]
fn a_last_report_is_drawn_before_the_line_is_emptied() {
    let mut line = ProgressLine::new();
    let mut state = RenderState::default();
    assert!(matches!(render_progress(&line, &mut state), RenderStep::Wait));
    state.latest = Some(ProgressSnapshot { elapsed: SECOND, unique: [1, 2] });
    state.finish = true;
    let RenderStep::Draw { frames, finished } = render_progress(&line, &mut state) else {
        panic!("nothing was drawn");
    };
    assert!(finished);
    assert_eq!(
        frames.iter().map(|frame| frame.text.clone()).collect::<Vec<_>>(),
        vec![format!("{CLEAR_LINE}{}", format_progress(SECOND, [1, 2])), CLEAR_LINE.to_owned()]
    );
    assert!(state.latest.is_none());
    assert!(!line.drawn);
    assert_eq!(line.wrote(&frames[0], Ok::<(), String>(())), Ok(()));
    assert!(line.drawn);
    assert!(line.wrote(&frames[1], Err(())).is_err());
    assert!(line.drawn);
    assert_eq!(line.wrote(&frames[1], Ok::<(), String>(())), Ok(()));
    assert!(!line.drawn);
}
