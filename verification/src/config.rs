//! What the benchmark is asked to do.

use crate::clock::{Nanos, NANOS_PER_SECOND};
use crate::names;
use crate::names::sanitize_source_name;
use crate::numeral;
use crate::numeral::parse_u64;
use crate::text;
use crate::text::same_text;
use vstd::prelude::*;
use vstd::string::*;

verus! {

/// What the program prints when it is asked for help.
pub const HELP: &'static str = "\
Compare transaction arrival times from two Jito ShredStream proxies.

Usage:
  solana-shred-tx-benchmark \\
    --source-1-url http://127.0.0.1:19091 --source-1-name NAME \\
    --source-2-url http://127.0.0.1:19092 --source-2-name NAME [--duration SECONDS]

Options:
  --source-1-url URL    First proxy gRPC endpoint
  --source-1-name NAME  Display name for the first source
  --source-2-url URL    Second proxy gRPC endpoint
  --source-2-name NAME  Display name for the second source
  --duration SECONDS    Benchmark duration (default: 60)
  -h, --help            Show this help
";

/// What went wrong, in words for the user.
#[derive(Debug)]
pub struct MessageError(pub String);

impl MessageError {
    /// The words for the user.
    pub fn message(&self) -> (message: &str)
        ensures
            message@ == self.0@,
    {
        self.0.as_str()
    }
}

/// The two sources to compare, and for how long.
#[derive(Debug)]
pub struct Config {
    /// Where the sources are reached.
    pub urls: [String; 2],
    /// The names under which the sources are shown.
    pub names: [String; 2],
    /// How long the benchmark runs.
    pub duration: Nanos,
}

/// What a list of arguments says, before the values are looked at.
pub enum Scanned {
    /// Help is asked for.
    Help,
    /// The list is not well formed, for the reason given.
    Malformed(Seq<char>),
    /// Each option that is given, with the last value given for it.
    Values(Map<Seq<char>, Seq<char>>),
}

/// What a list of arguments asks for.
pub enum Request {
    /// Help is asked for.
    Help,
    /// The list is refused, for the reason given.
    Refused(Seq<char>),
    /// The benchmark is to run.
    Run {
        /// Where the sources are reached.
        urls: Seq<Seq<char>>,
        /// The names under which the sources are shown.
        names: Seq<Seq<char>>,
        /// How long the benchmark runs.
        duration: nat,
    },
}

/// Whether an argument asks for help.
pub open spec fn asks_for_help(argument: Seq<char>) -> bool {
    argument == "--help"@ || argument == "-h"@
}

/// Whether an argument is an option that takes a value.
pub open spec fn is_option(argument: Seq<char>) -> bool {
    ||| argument == "--source-1-url"@
    ||| argument == "--source-1-name"@
    ||| argument == "--source-2-url"@
    ||| argument == "--source-2-name"@
    ||| argument == "--duration"@
}

/// What the arguments say, if `values` were given before them. The arguments are options, each one
/// followed by its value.
pub open spec fn scanned(
    arguments: Seq<Seq<char>>,
    values: Map<Seq<char>, Seq<char>>,
) -> Scanned
    decreases arguments.len(),
{
    if arguments.len() == 0 {
        Scanned::Values(values)
    } else if asks_for_help(arguments[0]) {
        Scanned::Help
    } else if !is_option(arguments[0]) {
        Scanned::Malformed("unknown option: "@ + arguments[0] + "\n\n"@ + HELP@)
    } else if arguments.len() == 1 {
        Scanned::Malformed("missing value for "@ + arguments[0])
    } else {
        scanned(arguments.skip(2), values.insert(arguments[0], arguments[1]))
    }
}

/// The value given for an option, if it was given.
pub open spec fn given(values: Map<Seq<char>, Seq<char>>, option: Seq<char>) -> Option<Seq<char>> {
    if values.dom().contains(option) {
        Some(values[option])
    } else {
        None
    }
}

/// Whether an option was given a value that is not empty.
pub open spec fn is_present(values: Map<Seq<char>, Seq<char>>, option: Seq<char>) -> bool {
    given(values, option) matches Some(value) && value.len() > 0
}

/// The reason given when a required option is missing.
pub open spec fn missing(option: Seq<char>) -> Seq<char> {
    "missing required option: "@ + option
}

/// The numeral given for the duration in seconds.
pub open spec fn duration_numeral(values: Map<Seq<char>, Seq<char>>) -> Seq<char> {
    match given(values, "--duration"@) {
        Some(numeral) => numeral,
        None => "60"@,
    }
}

/// What the values ask for.
pub open spec fn settled(values: Map<Seq<char>, Seq<char>>) -> Request {
    let seconds = numeral::parsed(duration_numeral(values));
    if seconds is None {
        Request::Refused("--duration must be a positive integer"@)
    } else if seconds == Some(0nat) {
        Request::Refused("--duration must be greater than zero"@)
    } else if !is_present(values, "--source-1-url"@) {
        Request::Refused(missing("--source-1-url"@))
    } else if !is_present(values, "--source-2-url"@) {
        Request::Refused(missing("--source-2-url"@))
    } else if !is_present(values, "--source-1-name"@) {
        Request::Refused(missing("--source-1-name"@))
    } else if !is_present(values, "--source-2-name"@) {
        Request::Refused(missing("--source-2-name"@))
    } else {
        Request::Run {
            urls: seq![values["--source-1-url"@], values["--source-2-url"@]],
            names: seq![
                names::sanitized(values["--source-1-name"@]),
                names::sanitized(values["--source-2-name"@]),
            ],
            duration: seconds->0 * NANOS_PER_SECOND as nat,
        }
    }
}

/// What the arguments ask for.
pub open spec fn requested(arguments: Seq<Seq<char>>) -> Request {
    match scanned(arguments, Map::empty()) {
        Scanned::Help => Request::Help,
        Scanned::Malformed(reason) => Request::Refused(reason),
        Scanned::Values(values) => settled(values),
    }
}

/// The request that a result of [`parse_args`] stands for.
pub open spec fn request_of(outcome: Result<Option<Config>, MessageError>) -> Request {
    match outcome {
        Ok(None) => Request::Help,
        Ok(Some(config)) => Request::Run {
            urls: text::texts(config.urls@),
            names: text::texts(config.names@),
            duration: config.duration as nat,
        },
        Err(error) => Request::Refused(error.0@),
    }
}

/// The values given so far.
struct Values {
    url_1: Option<String>,
    name_1: Option<String>,
    url_2: Option<String>,
    name_2: Option<String>,
    duration: Option<String>,
}

/// The text of a value.
spec fn value_text(value: Option<String>) -> Option<Seq<char>> {
    match value {
        Some(value) => Some(value@),
        None => None,
    }
}

impl Values {
    /// Whether these are the values of `values`.
    spec fn stand_for(self, values: Map<Seq<char>, Seq<char>>) -> bool {
        &&& value_text(self.url_1) == given(values, "--source-1-url"@)
        &&& value_text(self.name_1) == given(values, "--source-1-name"@)
        &&& value_text(self.url_2) == given(values, "--source-2-url"@)
        &&& value_text(self.name_2) == given(values, "--source-2-name"@)
        &&& value_text(self.duration) == given(values, "--duration"@)
    }
}

proof fn lemma_options_differ()
    ensures
        "--source-1-url"@ != "--source-1-name"@,
        "--source-1-url"@ != "--source-2-url"@,
        "--source-1-url"@ != "--source-2-name"@,
        "--source-1-url"@ != "--duration"@,
        "--source-1-name"@ != "--source-2-url"@,
        "--source-1-name"@ != "--source-2-name"@,
        "--source-1-name"@ != "--duration"@,
        "--source-2-url"@ != "--source-2-name"@,
        "--source-2-url"@ != "--duration"@,
        "--source-2-name"@ != "--duration"@,
{
    reveal_strlit("--source-1-url");
    reveal_strlit("--source-1-name");
    reveal_strlit("--source-2-url");
    reveal_strlit("--source-2-name");
    reveal_strlit("--duration");
    assert("--source-1-url"@[9] != "--source-2-url"@[9]);
    assert("--source-1-name"@[9] != "--source-2-name"@[9]);
    assert("--source-1-url"@.len() != "--source-1-name"@.len());
    assert("--source-2-url"@.len() != "--source-2-name"@.len());
}

/// The error for a required option that is missing.
fn missing_option(option: &str) -> (error: MessageError)
    ensures
        error.0@ == missing(option@),
{
    let mut message = "missing required option: ".to_owned();
    message.append(option);
    MessageError(message)
}

/// The value of a required option.
fn required(value: Option<String>, option: &str) -> (outcome: Result<String, MessageError>)
    ensures
        match outcome {
            Ok(text) => value_text(value) == Some(text@) && text@.len() > 0,
            Err(error) => (value is Some ==> value->0@.len() == 0) && error.0@ == missing(option@),
        },
{
    match value {
        Some(text) => if text.as_str().is_empty() {
            Err(missing_option(option))
        } else {
            Ok(text)
        },
        None => Err(missing_option(option)),
    }
}

/// Checks the values that were given.
fn settle(
    values: Values,
    Ghost(model): Ghost<Map<Seq<char>, Seq<char>>>,
) -> (outcome: Result<Option<Config>, MessageError>)
    requires
        values.stand_for(model),
    ensures
        request_of(outcome) == settled(model),
{
    let numeral = match values.duration {
        Some(numeral) => numeral,
        None => "60".to_owned(),
    };
    let seconds: u64 = match parse_u64(numeral.as_str()) {
        Some(seconds) => seconds,
        None => return Err(MessageError("--duration must be a positive integer".to_owned())),
    };
    if seconds == 0 {
        return Err(MessageError("--duration must be greater than zero".to_owned()));
    }
    let url_1 = match required(values.url_1, "--source-1-url") {
        Ok(url) => url,
        Err(error) => return Err(error),
    };
    let url_2 = match required(values.url_2, "--source-2-url") {
        Ok(url) => url,
        Err(error) => return Err(error),
    };
    let name_1 = match required(values.name_1, "--source-1-name") {
        Ok(name) => name,
        Err(error) => return Err(error),
    };
    let name_2 = match required(values.name_2, "--source-2-name") {
        Ok(name) => name,
        Err(error) => return Err(error),
    };
    let config = Config {
        urls: [url_1, url_2],
        names: [sanitize_source_name(name_1.as_str()), sanitize_source_name(name_2.as_str())],
        duration: seconds as Nanos * NANOS_PER_SECOND,
    };
    proof {
        let run = settled(model);
        assert(text::texts(config.urls@) =~= run->urls);
        assert(text::texts(config.names@) =~= run->names);
    }
    Ok(Some(config))
}

/// Whether an argument is an option that takes a value.
fn takes_value(argument: &String) -> (takes: bool)
    ensures
        takes == is_option(argument@),
{
    same_text(argument, "--source-1-url") || same_text(argument, "--source-1-name") || same_text(
        argument,
        "--source-2-url",
    ) || same_text(argument, "--source-2-name") || same_text(argument, "--duration")
}

/// Whether something other than an option stands in the arguments where an option is expected.
pub open spec fn are_decided(arguments: Seq<Seq<char>>) -> bool {
    exists|k: int|
        0 <= k < arguments.len() && k % 2 == 0 && !is_option(#[trigger] arguments[k])
}

/// Whether the arguments decide what [`parse_args`] returns, whatever stands after them. The rest
/// need not be read then.
pub fn is_decided(arguments: &Vec<String>) -> (decided: bool)
    ensures
        decided == are_decided(text::texts(arguments@)),
{
    let ghost all = text::texts(arguments@);
    let mut next: usize = 0;
    while next < arguments.len()
        invariant
            next <= arguments.len(),
            next % 2 == 0,
            all == text::texts(arguments@),
            forall|k: int| 0 <= k < next && k % 2 == 0 ==> is_option(#[trigger] all[k]),
        decreases arguments.len() - next,
    {
        if !takes_value(&arguments[next]) {
            assert(!is_option(all[next as int]));
            return true;
        }
        if arguments.len() - next <= 2 {
            return false;
        }
        next += 2;
    }
    false
}

/// Reads the arguments of the program. No configuration comes back if they ask for help.
pub fn parse_args(arguments: &Vec<String>) -> (outcome: Result<Option<Config>, MessageError>)
    ensures
        request_of(outcome) == requested(text::texts(arguments@)),
{
    let ghost all = text::texts(arguments@);
    let mut values = Values { url_1: None, name_1: None, url_2: None, name_2: None, duration: None };
    let ghost mut model: Map<Seq<char>, Seq<char>> = Map::empty();
    let mut next: usize = 0;
    assert(all.skip(0) =~= all);
    while next < arguments.len()
        invariant
            next <= arguments.len(),
            all == text::texts(arguments@),
            values.stand_for(model),
            scanned(all, Map::empty()) == scanned(all.skip(next as int), model),
        decreases arguments.len() - next,
    {
        let argument = &arguments[next];
        assert(all.skip(next as int)[0] == argument@);
        if same_text(argument, "--help") || same_text(argument, "-h") {
            return Ok(None);
        }
        let is_url_1 = same_text(argument, "--source-1-url");
        let is_name_1 = same_text(argument, "--source-1-name");
        let is_url_2 = same_text(argument, "--source-2-url");
        let is_name_2 = same_text(argument, "--source-2-name");
        let is_duration = same_text(argument, "--duration");
        if !(is_url_1 || is_name_1 || is_url_2 || is_name_2 || is_duration) {
            let mut message = "unknown option: ".to_owned();
            message.append(argument.as_str());
            message.append("\n\n");
            message.append(HELP);
            return Err(MessageError(message));
        }
        if arguments.len() - next == 1 {
            let mut message = "missing value for ".to_owned();
            message.append(argument.as_str());
            return Err(MessageError(message));
        }
        let value = Some(arguments[next + 1].clone());
        proof {
            lemma_options_differ();
            assert(all.skip(next as int)[1] == arguments@[next + 1]@);
            assert(all.skip(next as int).skip(2) =~= all.skip(next + 2));
            model = model.insert(argument@, arguments@[next + 1]@);
        }
        if is_url_1 {
            values.url_1 = value;
        } else if is_name_1 {
            values.name_1 = value;
        } else if is_url_2 {
            values.url_2 = value;
        } else if is_name_2 {
            values.name_2 = value;
        } else {
            values.duration = value;
        }
        next += 2;
    }
    settle(values, Ghost(model))
}

/// Whether the arguments are options, each one followed by a value.
pub open spec fn are_pairs(arguments: Seq<Seq<char>>) -> bool {
    &&& arguments.len() % 2 == 0
    &&& forall|k: int|
        0 <= k < arguments.len() && k % 2 == 0 ==> is_option(#[trigger] arguments[k])
}

/// Whether `option` stands in the arguments where an option stands, at `from` or later.
pub open spec fn stands_from(arguments: Seq<Seq<char>>, option: Seq<char>, from: int) -> bool {
    exists|k: int|
        from <= k < arguments.len() && k % 2 == 0 && #[trigger] arguments[k] == option
}

proof fn lemma_options_are_not_help()
    ensures
        forall|argument: Seq<char>| is_option(argument) ==> !asks_for_help(argument),
{
    reveal_strlit("--help");
    reveal_strlit("-h");
    reveal_strlit("--source-1-url");
    reveal_strlit("--source-1-name");
    reveal_strlit("--source-2-url");
    reveal_strlit("--source-2-name");
    reveal_strlit("--duration");
    assert("--help"@.len() == 6 && "-h"@.len() == 2);
    assert("--source-1-url"@.len() == 14 && "--source-2-url"@.len() == 14);
    assert("--source-1-name"@.len() == 15 && "--source-2-name"@.len() == 15);
    assert("--duration"@.len() == 10);
}

proof fn lemma_scanned_pairs(arguments: Seq<Seq<char>>, values: Map<Seq<char>, Seq<char>>)
    ensures
        scanned(arguments, values) is Values <==> are_pairs(arguments),
    decreases arguments.len(),
{
    lemma_options_are_not_help();
    if arguments.len() == 1 {
        if are_pairs(arguments) {
            assert(is_option(arguments[0]));
        }
    } else if arguments.len() > 1 {
        let rest = arguments.skip(2);
        lemma_scanned_pairs(rest, values.insert(arguments[0], arguments[1]));
        if are_pairs(arguments) {
            assert(is_option(arguments[0]));
            assert forall|k: int| 0 <= k < rest.len() && k % 2 == 0 implies is_option(
                #[trigger] rest[k],
            ) by {
                assert(rest[k] == arguments[k + 2]);
            }
        }
        if is_option(arguments[0]) && are_pairs(rest) {
            assert forall|k: int| 0 <= k < arguments.len() && k % 2 == 0 implies is_option(
                #[trigger] arguments[k],
            ) by {
                if k > 0 {
                    assert(rest[k - 2] == arguments[k]);
                }
            }
        }
    }
}

proof fn lemma_scanned_value(
    arguments: Seq<Seq<char>>,
    values: Map<Seq<char>, Seq<char>>,
    option: Seq<char>,
    at: int,
)
    requires
        are_pairs(arguments),
        0 <= at < arguments.len() ==> at % 2 == 0 && arguments[at] == option,
        at < 0 || !stands_from(arguments, option, at + 1),
        at < 0 ==> !stands_from(arguments, option, 0),
        at < arguments.len(),
    ensures
        scanned(arguments, values) is Values,
        given(scanned(arguments, values)->Values_0, option) == (if at < 0 {
            given(values, option)
        } else {
            Some(arguments[at + 1])
        }),
    decreases arguments.len(),
{
    lemma_scanned_pairs(arguments, values);
    if arguments.len() > 0 {
        assert(is_option(arguments[0]));
        assert(arguments.len() > 1);
        let rest = arguments.skip(2);
        let more = values.insert(arguments[0], arguments[1]);
        lemma_scanned_pairs(rest, more);
        assert(scanned(arguments, values) == scanned(rest, more));
        if stands_from(rest, option, 0) && at < 2 {
            let k = choose|k: int|
                0 <= k < rest.len() && k % 2 == 0 && #[trigger] rest[k] == option;
            assert(arguments[k + 2] == option);
            assert(stands_from(arguments, option, if at < 0 { 0 } else { at + 1 }));
        }
        if at >= 2 && stands_from(rest, option, at - 1) {
            let k = choose|k: int|
                at - 1 <= k < rest.len() && k % 2 == 0 && #[trigger] rest[k] == option;
            assert(arguments[k + 2] == option);
        }
        if at < 0 && arguments[0] == option {
            assert(stands_from(arguments, option, 0));
        }
        lemma_scanned_value(rest, more, option, at - 2);
    }
}

/// The value of an option is the last one that the arguments give for it.
pub proof fn lemma_last_value_counts(arguments: Seq<Seq<char>>, at: int)
    requires
        are_pairs(arguments),
        0 <= at < arguments.len(),
        at % 2 == 0,
        !stands_from(arguments, arguments[at], at + 1),
    ensures
        scanned(arguments, Map::empty()) is Values,
        given(scanned(arguments, Map::empty())->Values_0, arguments[at]) == Some(arguments[at + 1]),
{
    lemma_scanned_value(arguments, Map::empty(), arguments[at], at);
}

/// An option has no value that the arguments do not give.
pub proof fn lemma_no_value_unasked(arguments: Seq<Seq<char>>, option: Seq<char>)
    requires
        are_pairs(arguments),
        !stands_from(arguments, option, 0),
    ensures
        scanned(arguments, Map::empty()) is Values,
        given(scanned(arguments, Map::empty())->Values_0, option) is None,
{
    lemma_scanned_value(arguments, Map::empty(), option, -1);
}

/// The program runs only on arguments that are options, each one followed by a value.
pub proof fn lemma_run_needs_pairs(arguments: Seq<Seq<char>>)
    ensures
        requested(arguments) is Run ==> are_pairs(arguments),
{
    lemma_scanned_pairs(arguments, Map::empty());
}

proof fn lemma_scanned_help(
    before: Seq<Seq<char>>,
    help: Seq<char>,
    after: Seq<Seq<char>>,
    values: Map<Seq<char>, Seq<char>>,
)
    requires
        are_pairs(before),
        asks_for_help(help),
    ensures
        scanned(before + seq![help] + after, values) is Help,
    decreases before.len(),
{
    let all = before + seq![help] + after;
    if before.len() > 0 {
        lemma_options_are_not_help();
        assert(is_option(before[0]));
        let rest = before.skip(2);
        assert forall|k: int| 0 <= k < rest.len() && k % 2 == 0 implies is_option(
            #[trigger] rest[k],
        ) by {
            assert(rest[k] == before[k + 2]);
        }
        lemma_scanned_help(rest, help, after, values.insert(before[0], before[1]));
        assert(all.skip(2) =~= rest + seq![help] + after);
    }
}

proof fn lemma_scanned_decided(
    arguments: Seq<Seq<char>>,
    more: Seq<Seq<char>>,
    values: Map<Seq<char>, Seq<char>>,
)
    requires
        are_decided(arguments),
    ensures
        scanned(arguments + more, values) == scanned(arguments, values),
        scanned(arguments, values) !is Values,
    decreases arguments.len(),
{
    lemma_options_are_not_help();
    let k = choose|k: int|
        0 <= k < arguments.len() && k % 2 == 0 && !is_option(#[trigger] arguments[k]);
    assert((arguments + more)[0] == arguments[0]);
    if k >= 2 && is_option(arguments[0]) {
        let rest = arguments.skip(2);
        assert(rest[k - 2] == arguments[k]);
        lemma_scanned_decided(rest, more, values.insert(arguments[0], arguments[1]));
        assert((arguments + more).skip(2) =~= rest + more);
    }
}

/// What stands after something that is not an option, where an option is expected, does not matter.
pub proof fn lemma_rest_is_not_read(arguments: Seq<Seq<char>>, more: Seq<Seq<char>>)
    requires
        are_decided(arguments),
    ensures
        requested(arguments + more) == requested(arguments),
        requested(arguments) !is Run,
{
    lemma_scanned_decided(arguments, more, Map::empty());
}

/// Help that stands where an option is expected is given, whatever stands after it.
pub proof fn lemma_help_comes_first(
    before: Seq<Seq<char>>,
    help: Seq<char>,
    after: Seq<Seq<char>>,
)
    requires
        are_pairs(before),
        asks_for_help(help),
    ensures
        requested(before + seq![help] + after) is Help,
{
    lemma_scanned_help(before, help, after, Map::empty());
}

/// A benchmark that is to run takes at least a second, has two addresses to connect to, and has two
/// names that can be shown as they are.
pub proof fn lemma_run_is_complete(arguments: Seq<Seq<char>>)
    ensures
        requested(arguments) matches Request::Run { urls, names, duration } ==> {
            &&& duration >= NANOS_PER_SECOND
            &&& duration % NANOS_PER_SECOND as nat == 0
            &&& urls.len() == 2 && urls[0].len() > 0 && urls[1].len() > 0
            &&& names.len() == 2
            &&& forall|i: int| 0 <= i < 2 ==> names::sanitized(#[trigger] names[i]) == names[i]
        },
{
    if requested(arguments) is Run {
        let values = scanned(arguments, Map::empty())->Values_0;
        names::lemma_sanitized_twice(values["--source-1-name"@]);
        names::lemma_sanitized_twice(values["--source-2-name"@]);
    }
}

/// Whether `option` stands at `at` where an option is expected, with a value after it, and does not
/// stand where an option is expected any more after that.
pub open spec fn last_stands_at(arguments: Seq<Seq<char>>, option: Seq<char>, at: int) -> bool {
    &&& 0 <= at < arguments.len() - 1
    &&& at % 2 == 0
    &&& arguments[at] == option
    &&& forall|k: int|
        at < k < arguments.len() && k % 2 == 0 ==> #[trigger] arguments[k] != option
}

/// Whether the last value that the arguments give for `option` is there and not empty.
pub open spec fn has_value(arguments: Seq<Seq<char>>, option: Seq<char>) -> bool {
    exists|at: int| #[trigger]
        last_stands_at(arguments, option, at) && arguments[at + 1].len() > 0
}

/// Whether the last value that the arguments give for the duration is read as `seconds`, or none is
/// given and `seconds` is 60.
pub open spec fn lasts(arguments: Seq<Seq<char>>, seconds: Option<nat>) -> bool {
    ||| exists|at: int| #[trigger]
        last_stands_at(arguments, "--duration"@, at) && numeral::parsed(arguments[at + 1])
            == seconds
    ||| seconds == Some(60nat) && forall|k: int|
        0 <= k < arguments.len() && k % 2 == 0 ==> #[trigger] arguments[k] != "--duration"@
}

proof fn lemma_last_value_given(arguments: Seq<Seq<char>>, option: Seq<char>, at: int)
    requires
        are_pairs(arguments),
        last_stands_at(arguments, option, at),
    ensures
        scanned(arguments, Map::empty()) is Values,
        given(scanned(arguments, Map::empty())->Values_0, option) == Some(arguments[at + 1]),
{
    if stands_from(arguments, option, at + 1) {
        let k = choose|k: int|
            at + 1 <= k < arguments.len() && k % 2 == 0 && #[trigger] arguments[k] == option;
        assert(arguments[k] != option);
    }
    lemma_last_value_counts(arguments, at);
}

proof fn lemma_some_stand_is_last(arguments: Seq<Seq<char>>, option: Seq<char>, from: int)
    requires
        arguments.len() % 2 == 0,
        0 <= from,
        stands_from(arguments, option, from),
    ensures
        exists|at: int| #[trigger] last_stands_at(arguments, option, at),
    decreases arguments.len() - from,
{
    let k = choose|k: int|
        from <= k < arguments.len() && k % 2 == 0 && #[trigger] arguments[k] == option;
    if stands_from(arguments, option, k + 1) {
        lemma_some_stand_is_last(arguments, option, k + 1);
    } else {
        assert forall|j: int| k < j < arguments.len() && j % 2 == 0 implies #[trigger] arguments[j]
            != option by {
            if arguments[j] == option {
                assert(stands_from(arguments, option, k + 1));
            }
        }
        assert(last_stands_at(arguments, option, k));
    }
}

proof fn lemma_has_value(arguments: Seq<Seq<char>>, option: Seq<char>)
    requires
        are_pairs(arguments),
    ensures
        scanned(arguments, Map::empty()) is Values,
        has_value(arguments, option) <==> is_present(
            scanned(arguments, Map::empty())->Values_0,
            option,
        ),
{
    lemma_scanned_pairs(arguments, Map::empty());
    if stands_from(arguments, option, 0) {
        lemma_some_stand_is_last(arguments, option, 0);
        let at = choose|at: int| #[trigger] last_stands_at(arguments, option, at);
        lemma_last_value_given(arguments, option, at);
        assert forall|other: int| #[trigger] last_stands_at(arguments, option, other) implies other
            == at by {
            assert(arguments[at] == option && arguments[other] == option);
        }
    } else {
        lemma_no_value_unasked(arguments, option);
        if has_value(arguments, option) {
            let at = choose|at: int| #[trigger]
                last_stands_at(arguments, option, at) && arguments[at + 1].len() > 0;
            assert(arguments[at] == option);
            assert(stands_from(arguments, option, 0));
        }
    }
}

proof fn lemma_lasts(arguments: Seq<Seq<char>>, seconds: Option<nat>)
    requires
        are_pairs(arguments),
        lasts(arguments, seconds),
    ensures
        scanned(arguments, Map::empty()) is Values,
        numeral::parsed(duration_numeral(scanned(arguments, Map::empty())->Values_0)) == seconds,
{
    if exists|at: int| #[trigger]
        last_stands_at(arguments, "--duration"@, at) && numeral::parsed(arguments[at + 1])
            == seconds {
        let at = choose|at: int| #[trigger]
            last_stands_at(arguments, "--duration"@, at) && numeral::parsed(arguments[at + 1])
                == seconds;
        lemma_last_value_given(arguments, "--duration"@, at);
    } else {
        if stands_from(arguments, "--duration"@, 0) {
            let k = choose|k: int|
                0 <= k < arguments.len() && k % 2 == 0 && #[trigger] arguments[k] == "--duration"@;
            assert(arguments[k] != "--duration"@);
        }
        lemma_no_value_unasked(arguments, "--duration"@);
        reveal_strlit("60");
        reveal_with_fuel(numeral::decimal, 2);
        assert("60"@ =~= numeral::decimal(60));
        numeral::lemma_parsed_decimal(60);
    }
}

/// A benchmark runs with the values that the arguments give last: it connects to the two addresses,
/// shows the two names, and takes the seconds given, or a minute.
pub proof fn lemma_run_in_words(
    arguments: Seq<Seq<char>>,
    url_1: int,
    url_2: int,
    name_1: int,
    name_2: int,
    seconds: nat,
)
    requires
        are_pairs(arguments),
        last_stands_at(arguments, "--source-1-url"@, url_1),
        last_stands_at(arguments, "--source-2-url"@, url_2),
        last_stands_at(arguments, "--source-1-name"@, name_1),
        last_stands_at(arguments, "--source-2-name"@, name_2),
        arguments[url_1 + 1].len() > 0,
        arguments[url_2 + 1].len() > 0,
        arguments[name_1 + 1].len() > 0,
        arguments[name_2 + 1].len() > 0,
        lasts(arguments, Some(seconds)),
        seconds > 0,
    ensures
        requested(arguments) matches Request::Run { urls, names, duration } && {
            &&& urls.len() == 2
            &&& urls[0] == arguments[url_1 + 1]
            &&& urls[1] == arguments[url_2 + 1]
            &&& names.len() == 2
            &&& names[0] == names::sanitized(arguments[name_1 + 1])
            &&& names[1] == names::sanitized(arguments[name_2 + 1])
            &&& duration == seconds * 1_000_000_000
        },
{
    lemma_last_value_given(arguments, "--source-1-url"@, url_1);
    lemma_last_value_given(arguments, "--source-2-url"@, url_2);
    lemma_last_value_given(arguments, "--source-1-name"@, name_1);
    lemma_last_value_given(arguments, "--source-2-name"@, name_2);
    lemma_lasts(arguments, Some(seconds));
}

/// Options with their values are refused for the first of these reasons that holds: the duration is
/// not a number, it is zero, the one address, the other, the one name or the other is missing or
/// empty. If none holds, the benchmark runs.
pub proof fn lemma_refusals_in_words(arguments: Seq<Seq<char>>, seconds: Option<nat>)
    requires
        are_pairs(arguments),
        lasts(arguments, seconds),
    ensures
        ({
            let asked = requested(arguments);
            let url_1 = has_value(arguments, "--source-1-url"@);
            let url_2 = has_value(arguments, "--source-2-url"@);
            let name_1 = has_value(arguments, "--source-1-name"@);
            let name_2 = has_value(arguments, "--source-2-name"@);
            let timed = seconds is Some && seconds->0 > 0;
            let required = "missing required option: "@;
            &&& seconds is None ==> asked == Request::Refused(
                "--duration must be a positive integer"@,
            )
            &&& seconds == Some(0nat) ==> asked == Request::Refused(
                "--duration must be greater than zero"@,
            )
            &&& timed && !url_1 ==> asked == Request::Refused(required + "--source-1-url"@)
            &&& timed && url_1 && !url_2 ==> asked == Request::Refused(
                required + "--source-2-url"@,
            )
            &&& timed && url_1 && url_2 && !name_1 ==> asked == Request::Refused(
                required + "--source-1-name"@,
            )
            &&& timed && url_1 && url_2 && name_1 && !name_2 ==> asked == Request::Refused(
                required + "--source-2-name"@,
            )
            &&& asked is Run <==> timed && url_1 && url_2 && name_1 && name_2
        }),
{
    lemma_has_value(arguments, "--source-1-url"@);
    lemma_has_value(arguments, "--source-2-url"@);
    lemma_has_value(arguments, "--source-1-name"@);
    lemma_has_value(arguments, "--source-2-name"@);
    lemma_lasts(arguments, seconds);
}

proof fn lemma_scanned_after(
    before: Seq<Seq<char>>,
    after: Seq<Seq<char>>,
    values: Map<Seq<char>, Seq<char>>,
)
    requires
        are_pairs(before),
    ensures
        exists|more: Map<Seq<char>, Seq<char>>|
            scanned(before + after, values) == #[trigger] scanned(after, more),
    decreases before.len(),
{
    if before.len() == 0 {
        assert(before + after =~= after);
        assert(scanned(before + after, values) == scanned(after, values));
    } else {
        lemma_options_are_not_help();
        assert(is_option(before[0]));
        let rest = before.skip(2);
        assert forall|k: int| 0 <= k < rest.len() && k % 2 == 0 implies is_option(
            #[trigger] rest[k],
        ) by {
            assert(rest[k] == before[k + 2]);
        }
        lemma_scanned_after(rest, after, values.insert(before[0], before[1]));
        assert((before + after).skip(2) =~= rest + after);
        assert((before + after)[0] == before[0] && (before + after)[1] == before[1]);
    }
}

/// The first argument that stands where an option is expected and is none asks for help or is
/// refused; so is an option at the end, without a value.
pub proof fn lemma_other_arguments_in_words(
    before: Seq<Seq<char>>,
    argument: Seq<char>,
    after: Seq<Seq<char>>,
)
    requires
        are_pairs(before),
    ensures
        ({
            let asked = requested(before + (seq![argument] + after));
            let help = argument == "--help"@ || argument == "-h"@;
            let option = {
                ||| argument == "--source-1-url"@
                ||| argument == "--source-1-name"@
                ||| argument == "--source-2-url"@
                ||| argument == "--source-2-name"@
                ||| argument == "--duration"@
            };
            &&& help ==> asked is Help
            &&& !help && !option ==> asked == Request::Refused(
                "unknown option: "@ + argument + "\n\n"@ + HELP@,
            )
            &&& option && after.len() == 0 ==> asked == Request::Refused(
                "missing value for "@ + argument,
            )
        }),
{
    lemma_options_are_not_help();
    let rest = seq![argument] + after;
    lemma_scanned_after(before, rest, Map::empty());
    let more = choose|more: Map<Seq<char>, Seq<char>>|
        scanned(before + rest, Map::empty()) == #[trigger] scanned(rest, more);
    assert(rest[0] == argument);
    assert(scanned(before + rest, Map::empty()) == scanned(rest, more));
}

/// Arguments that do not decide leave the request open: others can follow that change it.
pub proof fn lemma_undecided_is_open(arguments: Seq<Seq<char>>)
    requires
        !are_decided(arguments),
    ensures
        !(requested(arguments) is Help),
        exists|more: Seq<Seq<char>>| requested(#[trigger] (arguments + more)) is Help,
{
    lemma_options_are_not_help();
    assert forall|k: int| 0 <= k < arguments.len() && k % 2 == 0 implies is_option(
        #[trigger] arguments[k],
    ) by {}
    let help = "--help"@;
    if arguments.len() % 2 == 0 {
        lemma_scanned_pairs(arguments, Map::empty());
        lemma_other_arguments_in_words(arguments, help, Seq::empty());
        assert(requested(arguments + (seq![help] + Seq::empty())) is Help);
    } else {
        let front = arguments.drop_last();
        assert forall|k: int| 0 <= k < front.len() && k % 2 == 0 implies is_option(
            #[trigger] front[k],
        ) by {
            assert(front[k] == arguments[k]);
        }
        let last = arguments[arguments.len() - 1];
        assert(is_option(last));
        lemma_other_arguments_in_words(front, last, Seq::empty());
        assert(front + (seq![last] + Seq::<Seq<char>>::empty()) =~= arguments);
        let whole = arguments.push(help);
        assert forall|k: int| 0 <= k < whole.len() && k % 2 == 0 implies is_option(
            #[trigger] whole[k],
        ) by {
            assert(whole[k] == arguments[k]);
        }
        lemma_other_arguments_in_words(whole, help, Seq::empty());
        assert(whole + (seq![help] + Seq::<Seq<char>>::empty()) =~= arguments + seq![help, help]);
        assert(requested(arguments + seq![help, help]) is Help);
    }
}

/// What [`parse_args`] returns says what is asked for, as it stands.
pub proof fn lemma_outcome_is_plain(outcome: Result<Option<Config>, MessageError>)
    ensures
        outcome matches Ok(None) ==> request_of(outcome) is Help,
        outcome matches Err(error) ==> request_of(outcome) == Request::Refused(error.0@),
        outcome matches Ok(Some(config)) ==> (request_of(outcome) matches Request::Run {
            urls,
            names,
            duration,
        } && {
            &&& urls.len() == 2 && urls[0] == config.urls@[0]@ && urls[1] == config.urls@[1]@
            &&& names.len() == 2 && names[0] == config.names@[0]@ && names[1] == config.names@[1]@
            &&& duration == config.duration
        }),
{
}

} // verus!
