//! The line that shows how far the benchmark has come.

use crate::clock::{Nanos, NANOS_PER_SECOND};
use crate::numeral;
use crate::numeral::to_decimal;
use crate::text;
use crate::text::align_right;
use vstd::arithmetic::power::*;
use vstd::prelude::*;
use vstd::string::*;

verus! {

/// How often the progress is reported, at most.
pub const PROGRESS_INTERVAL: Nanos = 200_000_000;

/// What takes the terminal back to the start of its line, and empties the line.
pub const CLEAR_LINE: &'static str = "\r\x1b[2K";

/// How far the benchmark has come.
#[derive(Clone, Copy, Debug, PartialEq, Eq)]
pub struct ProgressSnapshot {
    /// How long it has been running.
    pub elapsed: Nanos,
    /// How many transactions each source has reported.
    pub unique: [u64; 2],
}

/// The text of the time that has passed: in seconds with one decimal, cut and not rounded.
pub open spec fn elapsed_text(elapsed: Nanos) -> Seq<char> {
    let tenths = elapsed as nat / 100_000_000;
    if tenths <= 999_999 {
        numeral::decimal(tenths / 10) + "."@ + numeral::decimal(tenths % 10) + "s"@
    } else {
        ">99999s"@
    }
}

/// The text of the line.
pub open spec fn progress_text(elapsed: Nanos, unique: Seq<u64>) -> Seq<char> {
    "Running "@ + text::aligned_right(elapsed_text(elapsed), 8) + " | S1 "@ + text::aligned_right(
        numeral::decimal(unique[0] as nat),
        20,
    ) + " | S2 "@ + text::aligned_right(numeral::decimal(unique[1] as nat), 20)
}

/// The text of the line.
pub fn format_progress(elapsed: Nanos, unique: [u64; 2]) -> (line: String)
    ensures
        line@ == progress_text(elapsed, unique@),
{
    let tenths: u128 = (elapsed / 1_000_000) / 100;
    let passed = if tenths <= 999_999 {
        let mut passed = to_decimal((tenths / 10) as u64);
        passed.append(".");
        passed.append(to_decimal((tenths % 10) as u64).as_str());
        passed.append("s");
        passed
    } else {
        ">99999s".to_owned()
    };
    let mut line = "Running ".to_owned();
    line.append(align_right(passed.as_str(), 8).as_str());
    line.append(" | S1 ");
    line.append(align_right(to_decimal(unique[0]).as_str(), 20).as_str());
    line.append(" | S2 ");
    line.append(align_right(to_decimal(unique[1]).as_str(), 20).as_str());
    line
}

/// What to write on the line.
pub struct Frame {
    /// The text to write.
    pub text: String,
    /// Whether something stands on the line once the text is written.
    pub drawn: bool,
}

impl View for Frame {
    type V = (Seq<char>, bool);

    open spec fn view(&self) -> (Seq<char>, bool) {
        (self.text@, self.drawn)
    }
}

/// What to write to show how far the benchmark has come, in place of what stands on the line.
pub open spec fn update_frame(elapsed: Nanos, unique: Seq<u64>) -> (Seq<char>, bool) {
    (CLEAR_LINE@ + progress_text(elapsed, unique), true)
}

/// What to write to empty the line.
pub open spec fn clear_frame() -> (Seq<char>, bool) {
    (CLEAR_LINE@, false)
}

/// What the frames hold.
pub open spec fn frames_of(frames: Seq<Frame>) -> Seq<(Seq<char>, bool)> {
    Seq::new(frames.len(), |i: int| frames[i]@)
}

/// The line on the terminal.
pub struct ProgressLine {
    /// Whether something stands on the line.
    pub drawn: bool,
}

impl ProgressLine {
    /// A line on which nothing stands.
    pub fn new() -> (line: ProgressLine)
        ensures
            !line.drawn,
    {
        ProgressLine { drawn: false }
    }

    /// What to write to show how far the benchmark has come, in place of what stands on the line.
    /// The line is as it was until the frame is written.
    pub fn update(&self, elapsed: Nanos, unique: [u64; 2]) -> (frame: Frame)
        ensures
            frame@ == update_frame(elapsed, unique@),
    {
        let mut text = CLEAR_LINE.to_owned();
        text.append(format_progress(elapsed, unique).as_str());
        Frame { text, drawn: true }
    }

    /// What to write to empty the line, if something stands on it. The line is as it was until the
    /// frame is written.
    pub fn clear(&self) -> (frame: Option<Frame>)
        ensures
            match frame {
                Some(frame) => self.drawn && frame@ == clear_frame(),
                None => !self.drawn,
            },
    {
        if self.drawn {
            Some(Frame { text: CLEAR_LINE.to_owned(), drawn: false })
        } else {
            None
        }
    }

    /// Notes what came of writing a frame and flushing it, and hands that on. A frame that could not
    /// be written leaves the line as it was.
    pub fn wrote<E>(&mut self, frame: &Frame, outcome: Result<(), E>) -> (handed_on: Result<(), E>)
        ensures
            handed_on == outcome,
            final(self).drawn == (if outcome is Ok {
                frame.drawn
            } else {
                old(self).drawn
            }),
    {
        if outcome.is_ok() {
            self.drawn = frame.drawn;
        }
        outcome
    }
}

/// What the renderer of the line has to do.
pub struct RenderState {
    /// The latest report that has not been drawn yet.
    pub latest: Option<ProgressSnapshot>,
    /// Whether the line is to be emptied for good.
    pub finish: bool,
}

impl Default for RenderState {
    fn default() -> (state: RenderState)
        ensures
            state.latest is None,
            !state.finish,
    {
        RenderState { latest: None, finish: false }
    }
}

impl RenderState {
    /// The state after a report. A report takes the place of one that has not been drawn; none is
    /// taken once the line is to be emptied for good.
    pub open spec fn reported(self, snapshot: ProgressSnapshot) -> RenderState {
        if self.finish {
            self
        } else {
            RenderState { latest: Some(snapshot), finish: false }
        }
    }
}

/// What a renderer does next.
pub enum RenderStep {
    /// It waits for the state to change.
    Wait,
    /// It writes the frames, one after the other, up to the first one that cannot be written.
    Draw {
        /// What to write.
        frames: Vec<Frame>,
        /// Whether that is the end of its work, if all of them can be written.
        finished: bool,
    },
}

/// The frames to write: the latest report, if there is one, and at the end an empty line, if
/// something was drawn.
pub open spec fn frames_for(drawn: bool, state: RenderState) -> Seq<(Seq<char>, bool)> {
    let update = match state.latest {
        Some(snapshot) => seq![update_frame(snapshot.elapsed, snapshot.unique@)],
        None => Seq::empty(),
    };
    if state.finish && (drawn || state.latest is Some) {
        update.push(clear_frame())
    } else {
        update
    }
}

/// Whether something stands on the line after the first `written` of the frames have been written.
pub open spec fn drawn_after(drawn: bool, frames: Seq<(Seq<char>, bool)>, written: int) -> bool {
    if written <= 0 {
        drawn
    } else {
        frames[written - 1].1
    }
}

/// Whether there is nothing to do.
pub open spec fn is_idle(state: RenderState) -> bool {
    state.latest is None && !state.finish
}

/// Takes the latest report out of the state, and says what to write.
pub fn render_progress(line: &ProgressLine, state: &mut RenderState) -> (step: RenderStep)
    ensures
        final(state).latest is None,
        final(state).finish == old(state).finish,
        match step {
            RenderStep::Wait => is_idle(*old(state)),
            RenderStep::Draw { frames, finished } => {
                &&& !is_idle(*old(state))
                &&& finished == old(state).finish
                &&& frames_of(frames@) == frames_for(line.drawn, *old(state))
            },
        },
{
    if state.latest.is_none() && !state.finish {
        return RenderStep::Wait;
    }
    let mut frames: Vec<Frame> = Vec::new();
    let mut written = ProgressLine { drawn: line.drawn };
    if let Some(snapshot) = state.latest.take() {
        let frame = line.update(snapshot.elapsed, snapshot.unique);
        written.drawn = frame.drawn;
        frames.push(frame);
    }
    let finished = state.finish;
    if finished {
        if let Some(frame) = written.clear() {
            frames.push(frame);
        }
    }
    assert(frames_of(frames@) =~= frames_for(line.drawn, *old(state)));
    RenderStep::Draw { frames, finished }
}

/// Where the benchmark reports how far it has come: to a renderer, or, if the progress is not to be
/// seen, to none.
pub struct ProgressReporter {
    /// What the renderer has to do, if there is one.
    pub state: Option<RenderState>,
}

impl ProgressReporter {
    /// A reporter to which nothing has been reported.
    pub fn new(visible: bool) -> (reporter: ProgressReporter)
        ensures
            reporter.state == (if visible {
                Some(RenderState { latest: None, finish: false })
            } else {
                None
            }),
    {
        if visible {
            ProgressReporter { state: Some(RenderState { latest: None, finish: false }) }
        } else {
            ProgressReporter { state: None }
        }
    }

    /// Whether the progress is to be seen.
    pub fn visible(&self) -> (visible: bool)
        ensures
            visible == (self.state is Some),
    {
        self.state.is_some()
    }

    /// Reports how far the benchmark has come, and says whether the renderer has to be told.
    pub fn report(&mut self, elapsed: Nanos, unique: [u64; 2]) -> (changed: bool)
        ensures
            changed == (old(self).state is Some && !old(self).state->0.finish),
            match old(self).state {
                Some(state) => final(self).state == Some(
                    state.reported(ProgressSnapshot { elapsed, unique }),
                ),
                None => final(self).state is None,
            },
    {
        match &mut self.state {
            Some(state) => if state.finish {
                false
            } else {
                state.latest = Some(ProgressSnapshot { elapsed, unique });
                true
            },
            None => false,
        }
    }

    /// Asks for the line to be emptied for good, and says whether there is a renderer to tell.
    pub fn finish(&mut self) -> (changed: bool)
        ensures
            changed == (old(self).state is Some),
            match old(self).state {
                Some(state) => final(self).state == Some(
                    RenderState { latest: state.latest, finish: true },
                ),
                None => final(self).state is None,
            },
    {
        match &mut self.state {
            Some(state) => {
                state.finish = true;
                true
            },
            None => false,
        }
    }
}

/// The line has the same length however long the benchmark runs and however much it counts.
pub proof fn lemma_progress_is_bounded(elapsed: Nanos, unique: Seq<u64>)
    ensures
        progress_text(elapsed, unique).len() == 68,
        forall|i: int|
            0 <= i < 68 ==> crate::names::is_printable(
                #[trigger] progress_text(elapsed, unique)[i],
            ),
{
    reveal_strlit("Running ");
    reveal_strlit(" | S1 ");
    reveal_strlit(" | S2 ");
    reveal_strlit(".");
    reveal_strlit("s");
    reveal_strlit(">99999s");
    let tenths = elapsed as nat / 100_000_000;
    numeral::lemma_value_of_decimal(tenths / 10);
    numeral::lemma_value_of_decimal(tenths % 10);
    numeral::lemma_value_of_decimal(unique[0] as nat);
    numeral::lemma_value_of_decimal(unique[1] as nat);
    assert(pow(10, 1) == 10 && pow(10, 5) == 100_000 && pow(10, 20) == 100_000_000_000_000_000_000)
        by {
        reveal_with_fuel(pow, 21);
    }
    if tenths <= 999_999 {
        numeral::lemma_decimal_length(tenths / 10, 5);
        numeral::lemma_decimal_length(tenths % 10, 1);
    }
    numeral::lemma_decimal_length(unique[0] as nat, 20);
    numeral::lemma_decimal_length(unique[1] as nat, 20);
    assert(elapsed_text(elapsed).len() <= 8);
}

/// Of reports that come while nothing is drawn, only the latest is kept.
pub proof fn lemma_latest_report_kept(
    state: RenderState,
    earlier: ProgressSnapshot,
    later: ProgressSnapshot,
)
    ensures
        state.reported(earlier).reported(later) == state.reported(later),
        !state.finish ==> state.reported(later).latest == Some(later),
{
}

/// What stands on the line and all that was written, after the frames for a series of states have
/// been written.
pub open spec fn rendered(states: Seq<RenderState>) -> (bool, Seq<(Seq<char>, bool)>)
    decreases states.len(),
{
    if states.len() == 0 {
        (false, Seq::empty())
    } else {
        let (drawn, frames) = rendered(states.drop_last());
        let more = frames_for(drawn, states.last());
        (drawn_after(drawn, more, more.len() as int), frames + more)
    }
}

/// Whatever is drawn, nothing stands on the line in the end: a renderer that has finished has
/// written nothing at all, or last of all what empties the line.
pub proof fn lemma_line_ends_empty(states: Seq<RenderState>)
    ensures
        ({
            let (drawn, frames) = rendered(states);
            &&& states.len() > 0 && states.last().finish ==> !drawn
            &&& !drawn ==> frames.len() == 0 || frames.last() == clear_frame()
        }),
    decreases states.len(),
{
    if states.len() > 0 {
        lemma_line_ends_empty(states.drop_last());
        let (drawn, frames) = rendered(states.drop_last());
        let more = frames_for(drawn, states.last());
        if more.len() == 0 {
            assert(frames + more =~= frames);
        }
    }
}

/// Wherever the writing stops, the line is as the frames written so far leave it: an update that
/// could not be written leaves it as it was, and a line that could not be emptied still holds what
/// was drawn.
pub proof fn lemma_failed_write_changes_nothing(drawn: bool, state: RenderState, written: int)
    requires
        0 <= written < frames_for(drawn, state).len(),
    ensures
        frames_for(drawn, state)[written] == clear_frame() ==> drawn_after(
            drawn,
            frames_for(drawn, state),
            written,
        ),
        frames_for(drawn, state)[written] != clear_frame() ==> written == 0 && drawn_after(
            drawn,
            frames_for(drawn, state),
            written,
        ) == drawn,
{
}

/// The line, word for word: the time that has passed in whole seconds and tenths, of which no more
/// have passed, unless there are more than five digits of seconds; and the counts.
pub proof fn lemma_progress_in_words(elapsed: Nanos, unique: Seq<u64>, seconds: nat, tenth: nat)
    requires
        tenth < 10,
        1_000_000_000 * seconds + 100_000_000 * tenth <= elapsed,
        elapsed < 1_000_000_000 * seconds + 100_000_000 * (tenth + 1),
    ensures
        ({
            let time = if seconds < 100_000 {
                numeral::decimal(seconds) + "."@ + numeral::decimal(tenth) + "s"@
            } else {
                ">99999s"@
            };
            progress_text(elapsed, unique) == "Running "@ + text::aligned_right(time, 8) + " | S1 "@
                + text::aligned_right(numeral::decimal(unique[0] as nat), 20) + " | S2 "@
                + text::aligned_right(numeral::decimal(unique[1] as nat), 20)
        }),
{
    let tenths = elapsed as nat / 100_000_000;
    assert(tenths == 10 * seconds + tenth);
    assert(tenths / 10 == seconds && tenths % 10 == tenth);
}

/// What is written: the latest report if there is one, and if the line is to be emptied for good,
/// what empties it if something stands on it by then. There is nothing to do only if there is no
/// report and the line is not to be emptied.
pub proof fn lemma_frames_in_words(drawn: bool, state: RenderState)
    ensures
        ({
            let frames = frames_for(drawn, state);
            let updates: int = if state.latest is Some { 1 } else { 0 };
            let clears: int = if state.finish && (drawn || state.latest is Some) { 1 } else { 0 };
            &&& frames.len() == updates + clears
            &&& state.latest matches Some(snapshot) ==> frames[0] == (
                "\r\x1b[2K"@ + progress_text(snapshot.elapsed, snapshot.unique@),
                true,
            )
            &&& clears == 1 ==> frames[frames.len() - 1] == ("\r\x1b[2K"@, false)
            &&& is_idle(state) <==> state.latest is None && !state.finish
        }),
{
}

/// Once the line is to be emptied for good, reports are not taken any more; before that, the report
/// is kept and the line is still not to be emptied.
pub proof fn lemma_reports_end(state: RenderState, snapshot: ProgressSnapshot)
    ensures
        state.finish ==> state.reported(snapshot) == state,
        !state.finish ==> state.reported(snapshot).latest == Some(snapshot) && !state.reported(
            snapshot,
        ).finish,
{
}

/// Frames say what they hold, one for one.
pub proof fn lemma_frames_are_plain(frames: Seq<Frame>)
    ensures
        frames_of(frames).len() == frames.len(),
        forall|i: int|
            0 <= i < frames.len() ==> (#[trigger] frames_of(frames)[i]).0 == frames[i].text@
                && frames_of(frames)[i].1 == frames[i].drawn,
{
}

/// The progress is reported five times in a second at most.
pub proof fn lemma_reports_in_a_second()
    ensures
        5 * PROGRESS_INTERVAL == NANOS_PER_SECOND,
{
}

} // verus!
