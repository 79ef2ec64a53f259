//! The results of a benchmark, as they are shown.

use crate::clock::Nanos;
use crate::names;
use crate::names::source_labels;
use crate::numeral;
use crate::numeral::to_decimal;
use crate::sort;
use crate::stats;
use crate::stats::Stats;
use crate::table;
use crate::table::render_table;
use crate::text;
use vstd::prelude::*;
use vstd::string::*;

verus! {

/// Percentiles of the leads of a source; none if it has no leads.
pub struct LeadFigures {
    /// The lead that half of the leads do not exceed.
    pub p50: Option<Nanos>,
    /// The lead that three quarters of the leads do not exceed.
    pub p75: Option<Nanos>,
    /// The lead that 95 of 100 leads do not exceed.
    pub p95: Option<Nanos>,
    /// The lead that 99 of 100 leads do not exceed.
    pub p99: Option<Nanos>,
}

impl LeadFigures {
    /// Whether these are the percentiles of `leads`.
    pub open spec fn describe(self, leads: Seq<Nanos>) -> bool {
        &&& self.p50 == percentile_of(leads, 50)
        &&& self.p75 == percentile_of(leads, 75)
        &&& self.p95 == percentile_of(leads, 95)
        &&& self.p99 == percentile_of(leads, 99)
    }
}

/// The numerals shown in the row of a source: how many of 100 matched transactions it won, which is
/// shown if some were matched, and in milliseconds the mean and the percentiles of its leads, which
/// are shown if it has some.
pub struct SourceNumerals {
    /// How many of 100 matched transactions came first from the source.
    pub win_rate: String,
    /// The mean lead.
    pub mean: String,
    /// The lead that half of the leads do not exceed.
    pub p50: String,
    /// The lead that three quarters of the leads do not exceed.
    pub p75: String,
    /// The lead that 95 of 100 leads do not exceed.
    pub p95: String,
    /// The lead that 99 of 100 leads do not exceed.
    pub p99: String,
}

/// The rank of the value that `percent` of 100 values do not exceed, among `count` values in
/// ascending order. The lowest value has rank one.
pub open spec fn nearest_rank(count: nat, percent: nat) -> nat {
    (count * percent + 99) / 100
}

/// The value at the nearest rank, or the first or the last value if there is none at that rank.
pub open spec fn percentile_of(values: Seq<Nanos>, percent: nat) -> Option<Nanos> {
    let rank = nearest_rank(values.len(), percent);
    if values.len() == 0 {
        None
    } else if rank == 0 {
        Some(values[0])
    } else if rank > values.len() {
        Some(values.last())
    } else {
        Some(values[rank - 1])
    }
}

/// The text of a span of milliseconds.
pub open spec fn milliseconds_text(numeral: Option<String>) -> Seq<char> {
    match numeral {
        Some(numeral) => numeral@ + " ms"@,
        None => "-"@,
    }
}

/// The text of a figure of the leads, given its numeral. There are no figures of no leads.
pub open spec fn lead_text(leads: Seq<Nanos>, numeral: String) -> Seq<char> {
    milliseconds_text(
        if leads.len() == 0 {
            None
        } else {
            Some(numeral)
        },
    )
}

/// The text of a win rate. Where nothing was matched, nothing was won.
pub open spec fn win_rate_text(matched: u64, numeral: Seq<char>) -> Seq<char> {
    if matched == 0 {
        "0.0%"@
    } else {
        numeral + "%"@
    }
}

/// The cells of the heading.
pub open spec fn heading_cells() -> Seq<Seq<char>> {
    seq![
        "Source"@,
        "Unique tx"@,
        "First"@,
        "Win rate"@,
        "Mean lead"@,
        "P50 lead"@,
        "P75 lead"@,
        "P95 lead"@,
        "P99 lead"@,
    ]
}

/// The cells of the row of a source.
pub open spec fn source_cells(
    stats: Stats,
    source: int,
    label: Seq<char>,
    numerals: SourceNumerals,
) -> Seq<Seq<char>> {
    let leads = stats.leads_ns@[source]@;
    seq![
        label,
        numeral::decimal(stats.unique@[source] as nat),
        numeral::decimal(stats.first@[source] as nat),
        win_rate_text(stats.matched, numerals.win_rate@),
        lead_text(leads, numerals.mean),
        lead_text(leads, numerals.p50),
        lead_text(leads, numerals.p75),
        lead_text(leads, numerals.p95),
        lead_text(leads, numerals.p99),
    ]
}

/// The rows of the table of the results.
pub open spec fn result_rows(
    stats: Stats,
    names: Seq<String>,
    numerals: Seq<SourceNumerals>,
) -> Seq<Seq<Seq<char>>> {
    seq![
        heading_cells(),
        source_cells(stats, 0, names::labels(names)[0], numerals[0]),
        source_cells(stats, 1, names::labels(names)[1], numerals[1]),
    ]
}

/// How many of `unique` transactions are not among the `matched` ones.
pub open spec fn only_count(unique: u64, matched: u64) -> nat {
    if unique > matched {
        (unique - matched) as nat
    } else {
        0
    }
}

/// The text of the results.
pub open spec fn results_text(
    stats: Stats,
    names: Seq<String>,
    elapsed: Seq<char>,
    numerals: Seq<SourceNumerals>,
) -> Seq<char> {
    let labels = names::labels(names);
    "\nBenchmark results ("@ + elapsed + "s)\nMatched transactions: "@ + numeral::decimal(
        stats.matched as nat,
    ) + " | Only "@ + labels[0] + ": "@ + numeral::decimal(
        only_count(stats.unique@[0], stats.matched),
    ) + " | Only "@ + labels[1] + ": "@ + numeral::decimal(
        only_count(stats.unique@[1], stats.matched),
    ) + "\n"@ + table::table_text(result_rows(stats, names, numerals)) + "\n"@
}

/// The value that `percent` of 100 values do not exceed, by the nearest rank. The values stand in
/// ascending order; there is no such value among none.
pub fn percentile(values: &Vec<Nanos>, percent: u64) -> (value: Option<Nanos>)
    ensures
        value == percentile_of(values@, percent as nat),
{
    if values.len() == 0 {
        return None;
    }
    let count: u128 = values.len() as u128;
    assert(count * percent <= 0xffff_ffff_ffff_ffff * 0xffff_ffff_ffff_ffff) by (nonlinear_arith)
        requires
            count <= 0xffff_ffff_ffff_ffff,
            percent <= 0xffff_ffff_ffff_ffff,
    ;
    let rank: u128 = (count * percent as u128 + 99) / 100;
    if rank == 0 {
        Some(values[0])
    } else if rank > count {
        Some(values[values.len() - 1])
    } else {
        Some(values[(rank - 1) as usize])
    }
}

/// The text of a span of milliseconds: its numeral and the unit, or a dash if there is none.
pub fn format_milliseconds(numeral: &Option<String>) -> (text: String)
    ensures
        text@ == milliseconds_text(*numeral),
{
    match numeral {
        Some(numeral) => {
            let mut text = numeral.clone();
            text.append(" ms");
            text
        },
        None => "-".to_owned(),
    }
}

/// The text of a figure of the leads, given its numeral.
fn format_lead(leads: &Vec<Nanos>, numeral: &String) -> (text: String)
    ensures
        text@ == lead_text(leads@, *numeral),
{
    if leads.len() == 0 {
        format_milliseconds(&None)
    } else {
        format_milliseconds(&Some(numeral.clone()))
    }
}

/// The text of a win rate, given the numeral of its percentage.
fn format_win_rate(matched: u64, numeral: &str) -> (text: String)
    ensures
        text@ == win_rate_text(matched, numeral@),
{
    if matched == 0 {
        return "0.0%".to_owned();
    }
    let mut text = numeral.to_owned();
    text.append("%");
    text
}

/// How many of `unique` transactions are not among the `matched` ones.
fn count_only(unique: u64, matched: u64) -> (count: u64)
    ensures
        count == only_count(unique, matched),
{
    if unique > matched {
        unique - matched
    } else {
        0
    }
}

/// Whether `after` is `before` with the leads of each source in ascending order.
pub open spec fn is_sorted_from(after: Stats, before: Stats) -> bool {
    &&& after.observations == before.observations
    &&& after.unique == before.unique
    &&& after.first == before.first
    &&& after.matched == before.matched
    &&& forall|source: int|
        0 <= source < 2 ==> {
            &&& sort::ascending((#[trigger] after.leads_ns@[source])@)
            &&& after.leads_ns@[source]@.to_multiset() == before.leads_ns@[source]@.to_multiset()
        }
}

impl Stats {
    /// Puts the leads of each source in ascending order.
    pub fn sort_leads(&mut self)
        ensures
            is_sorted_from(*final(self), *old(self)),
            old(self).wf() ==> final(self).wf(),
    {
        broadcast use vstd::seq_lib::group_to_multiset_ensures;

        let ghost before = self@;
        self.leads_ns = [sort::sort(&self.leads_ns[0]), sort::sort(&self.leads_ns[1])];
        proof {
            let after = self@;
            assert(after.leads[0].len() == after.leads[0].to_multiset().len());
            assert(after.leads[1].len() == after.leads[1].to_multiset().len());
            assert(before.leads[0].len() == before.leads[0].to_multiset().len());
            assert(before.leads[1].len() == before.leads[1].to_multiset().len());
            if before.consistent() {
                assert(after.seen_by(0) == before.seen_by(0));
                assert(after.seen_by(1) == before.seen_by(1));
                assert(after.seen_by_both() == before.seen_by_both());
                assert(after.earlier_from(0) == before.earlier_from(0));
                assert(after.earlier_from(1) == before.earlier_from(1));
                assert(before.unique[0] == before.seen_by(0).len());
                assert(before.unique[1] == before.seen_by(1).len());
                assert forall|source: int, gap: Nanos| 0 <= source < 2 && gap > 0 implies (
                #[trigger] after.earlier_by(source, gap)).len()
                    == after.leads[source].to_multiset().count(gap) by {
                    assert(after.earlier_by(source, gap) == before.earlier_by(source, gap));
                }
            }
        }
    }

    /// The percentiles of the leads of a source.
    pub fn lead_figures(&self, source: usize) -> (figures: LeadFigures)
        requires
            source < 2,
        ensures
            figures.describe(self.leads_ns@[source as int]@),
    {
        let leads = &self.leads_ns[source];
        LeadFigures {
            p50: percentile(leads, 50),
            p75: percentile(leads, 75),
            p95: percentile(leads, 95),
            p99: percentile(leads, 99),
        }
    }

    /// Puts the leads of each source in ascending order, and picks their percentiles.
    pub fn summarize(&mut self) -> (figures: [LeadFigures; 2])
        ensures
            is_sorted_from(*final(self), *old(self)),
            figures@[0].describe(final(self).leads_ns@[0]@),
            figures@[1].describe(final(self).leads_ns@[1]@),
            old(self).wf() ==> final(self).wf(),
    {
        self.sort_leads();
        [self.lead_figures(0), self.lead_figures(1)]
    }

    /// The row of a source.
    fn source_row(&self, source: usize, label: &str, numerals: &SourceNumerals) -> (row: [String; 9])
        requires
            source < 2,
        ensures
            table::cells(row) == source_cells(*self, source as int, label@, *numerals),
    {
        let leads = &self.leads_ns[source];
        let row = [
            label.to_owned(),
            to_decimal(self.unique[source]),
            to_decimal(self.first[source]),
            format_win_rate(self.matched, numerals.win_rate.as_str()),
            format_lead(leads, &numerals.mean),
            format_lead(leads, &numerals.p50),
            format_lead(leads, &numerals.p75),
            format_lead(leads, &numerals.p95),
            format_lead(leads, &numerals.p99),
        ];
        assert(table::cells(row) =~= source_cells(*self, source as int, label@, *numerals));
        row
    }

    /// The table of the results: a heading, and a row for each source.
    pub fn table(&self, names: &[String; 2], numerals: &[SourceNumerals; 2]) -> (text: String)
        ensures
            text@ == table::table_text(result_rows(*self, names@, numerals@)),
    {
        let labels = source_labels(names);
        assert(text::texts(labels@)[0] == labels@[0]@ && text::texts(labels@)[1] == labels@[1]@);
        let heading = [
            "Source".to_owned(),
            "Unique tx".to_owned(),
            "First".to_owned(),
            "Win rate".to_owned(),
            "Mean lead".to_owned(),
            "P50 lead".to_owned(),
            "P75 lead".to_owned(),
            "P95 lead".to_owned(),
            "P99 lead".to_owned(),
        ];
        assert(table::cells(heading) =~= heading_cells());
        let mut rows: Vec<[String; 9]> = Vec::new();
        rows.push(heading);
        rows.push(self.source_row(0, labels[0].as_str(), &numerals[0]));
        rows.push(self.source_row(1, labels[1].as_str(), &numerals[1]));
        assert(table::rows_of(rows@) =~= result_rows(*self, names@, numerals@));
        render_table(&rows)
    }

    /// The text of the results. `elapsed` is the numeral of the seconds that the benchmark took.
    pub fn write_results(
        &self,
        names: &[String; 2],
        elapsed: &str,
        numerals: &[SourceNumerals; 2],
    ) -> (text: String)
        ensures
            text@ == results_text(*self, names@, elapsed@, numerals@),
    {
        let labels = source_labels(names);
        assert(text::texts(labels@)[0] == labels@[0]@ && text::texts(labels@)[1] == labels@[1]@);
        let mut text = "\nBenchmark results (".to_owned();
        text.append(elapsed);
        text.append("s)\nMatched transactions: ");
        text.append(to_decimal(self.matched).as_str());
        text.append(" | Only ");
        text.append(labels[0].as_str());
        text.append(": ");
        text.append(to_decimal(count_only(self.unique[0], self.matched)).as_str());
        text.append(" | Only ");
        text.append(labels[1].as_str());
        text.append(": ");
        text.append(to_decimal(count_only(self.unique[1], self.matched)).as_str());
        text.append("\n");
        text.append(self.table(names, numerals).as_str());
        text.append("\n");
        text
    }
}

/// Whether a text prints on one line: it holds no control characters, and so no line ends.
pub open spec fn prints(shown: Seq<char>) -> bool {
    text::only(shown, |character: char| names::is_printable(character))
}

/// Whether a text prints on some lines: it holds no control characters but line ends.
pub open spec fn prints_in_lines(shown: Seq<char>) -> bool {
    text::only(shown, |character: char| names::is_printable(character) || character == '\n')
}

/// Whether the numerals of a source print.
pub open spec fn numerals_print(numerals: SourceNumerals) -> bool {
    &&& prints(numerals.win_rate@)
    &&& prints(numerals.mean@)
    &&& prints(numerals.p50@)
    &&& prints(numerals.p75@)
    &&& prints(numerals.p95@)
    &&& prints(numerals.p99@)
}

proof fn lemma_both_print(front: Seq<char>, back: Seq<char>)
    requires
        prints_in_lines(front),
        prints_in_lines(back),
    ensures
        prints_in_lines(front + back),
{
}

proof fn lemma_label_prints(short: Seq<char>, name: Seq<char>)
    requires
        prints(short),
    ensures
        prints(names::label(short, name)),
{
    reveal_strlit(" (");
    reveal_strlit(")");
    names::lemma_sanitized_fits(name);
}

proof fn lemma_decimal_prints(number: nat)
    ensures
        prints(numeral::decimal(number)),
{
    numeral::lemma_value_of_decimal(number);
}

proof fn lemma_cells_print(
    stats: Stats,
    source: int,
    short: Seq<char>,
    name: Seq<char>,
    numerals: SourceNumerals,
    column: int,
)
    requires
        prints(short),
        numerals_print(numerals),
        0 <= column < 9,
    ensures
        prints(source_cells(stats, source, names::label(short, name), numerals)[column]),
{
    reveal_strlit("0.0%");
    reveal_strlit("%");
    reveal_strlit(" ms");
    reveal_strlit("-");
    lemma_label_prints(short, name);
    lemma_decimal_prints(stats.unique@[source] as nat);
    lemma_decimal_prints(stats.first@[source] as nat);
}

proof fn lemma_heading_prints(column: int)
    requires
        0 <= column < 9,
    ensures
        prints(heading_cells()[column]),
{
    reveal_strlit("Source");
    reveal_strlit("Unique tx");
    reveal_strlit("First");
    reveal_strlit("Win rate");
    reveal_strlit("Mean lead");
    reveal_strlit("P50 lead");
    reveal_strlit("P75 lead");
    reveal_strlit("P95 lead");
    reveal_strlit("P99 lead");
}

proof fn lemma_four_lines(lines: Seq<Seq<char>>, width: nat)
    requires
        lines.len() == 4,
        forall|line: int|
            0 <= line < 4 ==> prints(#[trigger] lines[line]) && lines[line].len() == width,
    ensures
        ({
            let text = text::joined(lines, "\n"@);
            &&& text.len() == 4 * width + 3
            &&& forall|i: int|
                0 <= i < text.len() ==> if i == width || i == 2 * width + 1 || i == 3 * width + 2 {
                    #[trigger] text[i] == '\n'
                } else {
                    names::is_printable(text[i])
                }
        }),
{
    reveal_strlit("\n");
    let end = "\n"@;
    let text = text::joined(lines, end);
    assert(text =~= lines[0] + end + lines[1] + end + lines[2] + end + lines[3]) by {
        assert(lines.drop_last().drop_last().drop_last() =~= seq![lines[0]]);
        reveal_with_fuel(text::joined, 4);
    }
    assert forall|i: int| 0 <= i < text.len() implies if i == width || i == 2 * width + 1 || i == 3
        * width + 2 {
        #[trigger] text[i] == '\n'
    } else {
        names::is_printable(text[i])
    } by {
        if i < width {
            assert(text[i] == lines[0][i]);
        } else if width < i < 2 * width + 1 {
            assert(text[i] == lines[1][i - width - 1]);
        } else if 2 * width + 1 < i < 3 * width + 2 {
            assert(text[i] == lines[2][i - 2 * width - 2]);
        } else if i > 3 * width + 2 {
            assert(text[i] == lines[3][i - 3 * width - 3]);
        }
    }
}

/// Whatever the sources are named, the table of the results has four lines, all of the same width,
/// and each of them prints: no name can break a line or move a column.
pub proof fn lemma_table_prints(
    stats: Stats,
    names: Seq<String>,
    numerals: Seq<SourceNumerals>,
)
    requires
        numerals_print(numerals[0]),
        numerals_print(numerals[1]),
    ensures
        ({
            let rows = result_rows(stats, names, numerals);
            let lines = table::table_lines(rows);
            let width = table::line_width(table::column_widths(rows));
            let text = table::table_text(rows);
            &&& lines.len() == 4
            &&& forall|line: int|
                0 <= line < 4 ==> prints(#[trigger] lines[line]) && lines[line].len() == width
            &&& text.len() == 4 * width + 3
            &&& forall|i: int|
                0 <= i < text.len() ==> if i == width || i == 2 * width + 1 || i == 3 * width + 2 {
                    #[trigger] text[i] == '\n'
                } else {
                    names::is_printable(text[i])
                }
        }),
{
    reveal_strlit("S1");
    reveal_strlit("S2");
    let allowed = |character: char| names::is_printable(character);
    let rows = result_rows(stats, names, numerals);
    let lines = table::table_lines(rows);
    assert forall|row: int, column: int|
        0 <= row < rows.len() && 0 <= column < table::COLUMNS implies text::only(
        #[trigger] rows[row][column],
        allowed,
    ) by {
        if row == 0 {
            lemma_heading_prints(column);
        } else if row == 1 {
            lemma_cells_print(stats, 0, "S1"@, names[0]@, numerals[0], column);
        } else {
            lemma_cells_print(stats, 1, "S2"@, names[1]@, numerals[1], column);
        }
    }
    let width = table::line_width(table::column_widths(rows));
    assert forall|line: int| 0 <= line < 4 implies prints(#[trigger] lines[line])
        && lines[line].len() == width by {
        table::lemma_line_only(rows, allowed, line);
        table::lemma_lines_align(rows, line);
    }
    lemma_four_lines(lines, width);
}

/// Whatever the sources are named, the results print.
pub proof fn lemma_results_print(
    stats: Stats,
    names: Seq<String>,
    elapsed: Seq<char>,
    numerals: Seq<SourceNumerals>,
)
    requires
        prints(elapsed),
        numerals_print(numerals[0]),
        numerals_print(numerals[1]),
    ensures
        prints_in_lines(results_text(stats, names, elapsed, numerals)),
{
    let labels = names::labels(names);
    let matched = numeral::decimal(stats.matched as nat);
    let only_0 = numeral::decimal(only_count(stats.unique@[0], stats.matched));
    let only_1 = numeral::decimal(only_count(stats.unique@[1], stats.matched));
    let rows = table::table_text(result_rows(stats, names, numerals));
    let parts = seq![
        "\nBenchmark results ("@,
        elapsed,
        "s)\nMatched transactions: "@,
        matched,
        " | Only "@,
        labels[0],
        ": "@,
        only_0,
        " | Only "@,
        labels[1],
        ": "@,
        only_1,
        "\n"@,
        rows,
        "\n"@,
    ];
    assert forall|i: int| 0 <= i < parts.len() implies prints_in_lines(#[trigger] parts[i]) by {
        if i == 0 {
            reveal_strlit("\nBenchmark results (");
        } else if i == 2 {
            reveal_strlit("s)\nMatched transactions: ");
        } else if i == 3 {
            lemma_decimal_prints(stats.matched as nat);
        } else if i == 4 || i == 8 {
            reveal_strlit(" | Only ");
        } else if i == 5 {
            reveal_strlit("S1");
            lemma_label_prints("S1"@, names[0]@);
        } else if i == 6 || i == 10 {
            reveal_strlit(": ");
        } else if i == 7 {
            lemma_decimal_prints(only_count(stats.unique@[0], stats.matched));
        } else if i == 9 {
            reveal_strlit("S2");
            lemma_label_prints("S2"@, names[1]@);
        } else if i == 11 {
            lemma_decimal_prints(only_count(stats.unique@[1], stats.matched));
        } else if i == 12 || i == 14 {
            reveal_strlit("\n");
        } else if i == 13 {
            lemma_table_prints(stats, names, numerals);
        }
    }
    lemma_both_print(parts[0], parts[1]);
    let text = parts[0] + parts[1];
    lemma_both_print(text, parts[2]);
    let text = text + parts[2];
    lemma_both_print(text, parts[3]);
    let text = text + parts[3];
    lemma_both_print(text, parts[4]);
    let text = text + parts[4];
    lemma_both_print(text, parts[5]);
    let text = text + parts[5];
    lemma_both_print(text, parts[6]);
    let text = text + parts[6];
    lemma_both_print(text, parts[7]);
    let text = text + parts[7];
    lemma_both_print(text, parts[8]);
    let text = text + parts[8];
    lemma_both_print(text, parts[9]);
    let text = text + parts[9];
    lemma_both_print(text, parts[10]);
    let text = text + parts[10];
    lemma_both_print(text, parts[11]);
    let text = text + parts[11];
    lemma_both_print(text, parts[12]);
    let text = text + parts[12];
    lemma_both_print(text, parts[13]);
    let text = text + parts[13];
    lemma_both_print(text, parts[14]);
    let text = text + parts[14];
    assert(results_text(stats, names, elapsed, numerals) == text);
}

/// How many of the values do not exceed `limit`.
pub open spec fn count_at_most(values: Seq<Nanos>, limit: Nanos) -> nat
    decreases values.len(),
{
    if values.len() == 0 {
        0
    } else {
        count_at_most(values.drop_last(), limit) + (if values.last() <= limit { 1nat } else { 0 })
    }
}

/// How many of the values are less than `limit`.
pub open spec fn count_below(values: Seq<Nanos>, limit: Nanos) -> nat
    decreases values.len(),
{
    if values.len() == 0 {
        0
    } else {
        count_below(values.drop_last(), limit) + (if values.last() < limit { 1nat } else { 0 })
    }
}

proof fn lemma_count_at_most(values: Seq<Nanos>, limit: Nanos, known: int)
    requires
        0 <= known <= values.len(),
        forall|i: int| 0 <= i < known ==> values[i] <= limit,
    ensures
        count_at_most(values, limit) >= known,
    decreases values.len(),
{
    if known == values.len() && known > 0 {
        lemma_count_at_most(values.drop_last(), limit, known - 1);
    } else if values.len() > 0 {
        lemma_count_at_most(values.drop_last(), limit, known);
    }
}

proof fn lemma_count_below(values: Seq<Nanos>, limit: Nanos, known: int)
    requires
        0 <= known <= values.len(),
        forall|i: int| known <= i < values.len() ==> values[i] >= limit,
    ensures
        count_below(values, limit) <= known,
    decreases values.len(),
{
    if values.len() > 0 {
        if known == values.len() {
            lemma_count_below(values.drop_last(), limit, known - 1);
        } else {
            lemma_count_below(values.drop_last(), limit, known);
        }
    }
}

/// Of values in ascending order, at least `percent` of 100 do not exceed the percentile, and fewer
/// than `percent` of 100 are less than it: it is the lowest value that so many do not exceed.
pub proof fn lemma_percentile_is_nearest_rank(values: Seq<Nanos>, percent: nat)
    requires
        sort::ascending(values),
        values.len() > 0,
        0 < percent <= 100,
    ensures
        percentile_of(values, percent) is Some,
        values.contains(percentile_of(values, percent)->0),
        100 * count_at_most(values, percentile_of(values, percent)->0) >= percent * values.len(),
        100 * count_below(values, percentile_of(values, percent)->0) < percent * values.len(),
{
    let count = values.len();
    let rank = nearest_rank(count, percent);
    assert(count * percent > 0) by (nonlinear_arith)
        requires
            count > 0,
            percent > 0,
    ;
    assert(count * percent <= count * 100) by (nonlinear_arith)
        requires
            percent <= 100,
    ;
    assert(count * percent == percent * count) by (nonlinear_arith);
    assert(0 < rank <= count);
    let value = values[rank - 1];
    assert(percentile_of(values, percent) == Some(value));
    lemma_count_at_most(values, value, rank as int);
    lemma_count_below(values, value, rank - 1);
}

/// The numerals that `rounding` gives for both sources, out of the leads of the source, how often it
/// was first and how many transactions were matched.
pub open spec fn rounded(
    stats: Stats,
    rounding: spec_fn(Seq<Nanos>, u64, u64) -> SourceNumerals,
) -> Seq<SourceNumerals> {
    seq![
        rounding(stats.leads_ns@[0]@, stats.first@[0], stats.matched),
        rounding(stats.leads_ns@[1]@, stats.first@[1], stats.matched),
    ]
}

/// The order in which reports are handled does not show in the results: statistics that differ at
/// most in the order of the leads have, once they are sorted, the same leads, and so the same
/// percentiles, and the same text, in whatever way the numerals are rounded.
pub proof fn lemma_order_does_not_show(
    left: Stats,
    right: Stats,
    left_sorted: Stats,
    right_sorted: Stats,
    names: Seq<String>,
    elapsed: Seq<char>,
    rounding: spec_fn(Seq<Nanos>, u64, u64) -> SourceNumerals,
)
    requires
        stats::agree(left@, right@),
        is_sorted_from(left_sorted, left),
        is_sorted_from(right_sorted, right),
    ensures
        left_sorted.leads_ns@[0]@ == right_sorted.leads_ns@[0]@,
        left_sorted.leads_ns@[1]@ == right_sorted.leads_ns@[1]@,
        results_text(left_sorted, names, elapsed, rounded(left_sorted, rounding)) == results_text(
            right_sorted,
            names,
            elapsed,
            rounded(right_sorted, rounding),
        ),
{
    assert forall|source: int| 0 <= source < 2 implies {
        &&& (#[trigger] left_sorted.leads_ns@[source])@ == right_sorted.leads_ns@[source]@
        &&& left_sorted.unique@[source] == right_sorted.unique@[source]
        &&& left_sorted.first@[source] == right_sorted.first@[source]
    } by {
        assert(left@.leads[source].to_multiset() == right@.leads[source].to_multiset());
        assert(left@.unique[source] == right@.unique[source]);
        assert(left@.first[source] == right@.first[source]);
        assert(sort::ascending(right_sorted.leads_ns@[source]@));
        sort::lemma_order_is_unique(
            left_sorted.leads_ns@[source]@,
            right_sorted.leads_ns@[source]@,
        );
    }
    assert(left_sorted.leads_ns@[0]@ == right_sorted.leads_ns@[0]@);
    assert(left_sorted.leads_ns@[1]@ == right_sorted.leads_ns@[1]@);
    assert(rounded(left_sorted, rounding) == rounded(right_sorted, rounding));
    assert(result_rows(left_sorted, names, rounded(left_sorted, rounding)) == result_rows(
        right_sorted,
        names,
        rounded(right_sorted, rounding),
    ));
}

/// Results that are asked for a second time are the same.
pub proof fn lemma_results_are_repeatable(
    stats: Stats,
    once: Stats,
    twice: Stats,
    names: Seq<String>,
    elapsed: Seq<char>,
    rounding: spec_fn(Seq<Nanos>, u64, u64) -> SourceNumerals,
)
    requires
        is_sorted_from(once, stats),
        is_sorted_from(twice, once),
    ensures
        results_text(once, names, elapsed, rounded(once, rounding)) == results_text(
            twice,
            names,
            elapsed,
            rounded(twice, rounding),
        ),
{
    assert forall|source: int| 0 <= source < 2 implies (
    #[trigger] stats@.leads[source]).to_multiset() == once@.leads[source].to_multiset() by {
        assert(once.leads_ns@[source]@.to_multiset() == stats.leads_ns@[source]@.to_multiset());
    }
    lemma_order_does_not_show(stats, once, once, twice, names, elapsed, rounding);
}

/// A higher percentile of values in ascending order is not a lower value.
pub proof fn lemma_percentiles_ascend(values: Seq<Nanos>, lower: nat, higher: nat)
    requires
        sort::ascending(values),
        values.len() > 0,
        lower <= higher,
    ensures
        percentile_of(values, lower)->0 <= percentile_of(values, higher)->0,
{
    let count = values.len();
    assert(count * lower <= count * higher) by (nonlinear_arith)
        requires
            lower <= higher,
    ;
}

/// Whether `value` is one of `values`, at least `percent` of 100 of them do not exceed it, and fewer
/// than `percent` of 100 are less than it.
pub open spec fn splits(values: Seq<Nanos>, value: Nanos, percent: nat) -> bool {
    &&& values.contains(value)
    &&& 100 * values.filter(|v: Nanos| v <= value).len() >= percent * values.len()
    &&& 100 * values.filter(|v: Nanos| v < value).len() < percent * values.len()
}

proof fn lemma_counts_are_filters(values: Seq<Nanos>, limit: Nanos)
    ensures
        values.filter(|v: Nanos| v <= limit).len() == count_at_most(values, limit),
        values.filter(|v: Nanos| v < limit).len() == count_below(values, limit),
    decreases values.len(),
{
    reveal(Seq::filter);
    if values.len() > 0 {
        lemma_counts_are_filters(values.drop_last(), limit);
    }
}

proof fn lemma_percentile_splits(values: Seq<Nanos>, percent: nat)
    requires
        forall|i: int, j: int| 0 <= i <= j < values.len() ==> values[i] <= values[j],
        values.len() > 0,
        0 < percent <= 100,
    ensures
        percentile_of(values, percent) matches Some(value) && splits(values, value, percent),
{
    lemma_percentile_is_nearest_rank(values, percent);
    lemma_counts_are_filters(values, percentile_of(values, percent)->0);
}

/// The figures of leads in ascending order are leads that split them as their names say: at least
/// 50 of 100 leads do not exceed the first figure and fewer than 50 are less than it, and so on with
/// 75, 95 and 99. There are no figures if and only if there are no leads.
pub proof fn lemma_figures_split_the_leads(figures: LeadFigures, leads: Seq<Nanos>)
    requires
        figures.describe(leads),
        forall|i: int, j: int| 0 <= i <= j < leads.len() ==> leads[i] <= leads[j],
    ensures
        leads.len() > 0 ==> {
            &&& figures.p50 matches Some(p50) && splits(leads, p50, 50)
            &&& figures.p75 matches Some(p75) && splits(leads, p75, 75)
            &&& figures.p95 matches Some(p95) && splits(leads, p95, 95)
            &&& figures.p99 matches Some(p99) && splits(leads, p99, 99)
            &&& figures.p50->0 <= figures.p75->0 <= figures.p95->0 <= figures.p99->0
        },
        leads.len() == 0 ==> {
            &&& figures.p50 is None
            &&& figures.p75 is None
            &&& figures.p95 is None
            &&& figures.p99 is None
        },
{
    if leads.len() > 0 {
        lemma_percentile_splits(leads, 50);
        lemma_percentile_splits(leads, 75);
        lemma_percentile_splits(leads, 95);
        lemma_percentile_splits(leads, 99);
        lemma_percentiles_ascend(leads, 50, 75);
        lemma_percentiles_ascend(leads, 75, 95);
        lemma_percentiles_ascend(leads, 95, 99);
    }
}

proof fn lemma_filter_keeps_multiset(values: Seq<Nanos>, keep: spec_fn(Nanos) -> bool)
    ensures
        values.filter(keep).to_multiset() == values.to_multiset().filter(keep),
    decreases values.len(),
{
    broadcast use vstd::seq_lib::group_to_multiset_ensures;

    reveal(Seq::filter);
    if values.len() == 0 {
        assert(values.filter(keep).to_multiset() =~= values.to_multiset().filter(keep));
    } else {
        let front = values.drop_last();
        lemma_filter_keeps_multiset(front, keep);
        assert(values =~= front.push(values.last()));
        assert(values.filter(keep).to_multiset() =~= values.to_multiset().filter(keep));
    }
}

proof fn lemma_splits_in_any_order(left: Seq<Nanos>, right: Seq<Nanos>, value: Nanos, percent: nat)
    requires
        left.to_multiset() == right.to_multiset(),
        splits(left, value, percent),
    ensures
        splits(right, value, percent),
{
    broadcast use vstd::seq_lib::group_to_multiset_ensures;

    let at_most = |v: Nanos| v <= value;
    let below = |v: Nanos| v < value;
    lemma_filter_keeps_multiset(left, at_most);
    lemma_filter_keeps_multiset(right, at_most);
    lemma_filter_keeps_multiset(left, below);
    lemma_filter_keeps_multiset(right, below);
    assert(left.filter(at_most).len() == left.filter(at_most).to_multiset().len());
    assert(right.filter(at_most).len() == right.filter(at_most).to_multiset().len());
    assert(left.filter(below).len() == left.filter(below).to_multiset().len());
    assert(right.filter(below).len() == right.filter(below).to_multiset().len());
    assert(left.len() == left.to_multiset().len());
    assert(right.len() == right.to_multiset().len());
    assert(left.to_multiset().count(value) > 0);
}

/// The figures of a summary split the leads as they were recorded, before they were sorted.
pub proof fn lemma_summary_splits_the_leads(
    before: Stats,
    after: Stats,
    figures: LeadFigures,
    source: int,
)
    requires
        is_sorted_from(after, before),
        0 <= source < 2,
        figures.describe(after.leads_ns@[source]@),
        before.leads_ns@[source]@.len() > 0,
    ensures
        ({
            let leads = before.leads_ns@[source]@;
            &&& figures.p50 matches Some(p50) && splits(leads, p50, 50)
            &&& figures.p75 matches Some(p75) && splits(leads, p75, 75)
            &&& figures.p95 matches Some(p95) && splits(leads, p95, 95)
            &&& figures.p99 matches Some(p99) && splits(leads, p99, 99)
        }),
{
    broadcast use vstd::seq_lib::group_to_multiset_ensures;

    let leads = before.leads_ns@[source]@;
    let sorted = after.leads_ns@[source]@;
    assert(sort::ascending(after.leads_ns@[source]@));
    assert(sorted.to_multiset() == leads.to_multiset());
    assert(sorted.len() == sorted.to_multiset().len());
    assert(leads.len() == leads.to_multiset().len());
    lemma_figures_split_the_leads(figures, sorted);
    lemma_splits_in_any_order(sorted, leads, figures.p50->0, 50);
    lemma_splits_in_any_order(sorted, leads, figures.p75->0, 75);
    lemma_splits_in_any_order(sorted, leads, figures.p95->0, 95);
    lemma_splits_in_any_order(sorted, leads, figures.p99->0, 99);
}

/// The value at any percentage is one of the values, and no value is lost at the ends: that of
/// nothing is the first value, that of 100 of 100 or more is the last one.
pub proof fn lemma_percentiles_reach_the_ends(values: Seq<Nanos>, percent: nat)
    requires
        values.len() > 0,
    ensures
        percentile_of(values, percent) matches Some(value) && values.contains(value),
        percentile_of(values, 0) == Some(values[0]),
        percent >= 100 ==> percentile_of(values, percent) == Some(values[values.len() - 1]),
{
    let count = values.len();
    assert(count * 0 == 0) by (nonlinear_arith);
    if percent >= 100 {
        assert(count * percent >= count * 100) by (nonlinear_arith)
            requires
                percent >= 100,
        ;
    }
}

/// The results of statistics that agree with the arrivals, word for word: how many transactions both
/// sources have reported, how many only the one and only the other, and below that the table.
pub proof fn lemma_results_in_words(
    stats: Stats,
    names: Seq<String>,
    elapsed: Seq<char>,
    numerals: Seq<SourceNumerals>,
)
    requires
        stats.wf(),
    ensures
        ({
            let seen_0 = Set::new(
                |id: Seq<u8>|
                    stats.observations@.dom().contains(id) && stats.observations@[id][0] is Some,
            );
            let seen_1 = Set::new(
                |id: Seq<u8>|
                    stats.observations@.dom().contains(id) && stats.observations@[id][1] is Some,
            );
            results_text(stats, names, elapsed, numerals) == "\nBenchmark results ("@ + elapsed
                + "s)\nMatched transactions: "@ + numeral::decimal(seen_0.intersect(seen_1).len())
                + " | Only "@ + ("S1"@ + " ("@ + names::sanitized(names[0]@) + ")"@) + ": "@
                + numeral::decimal(seen_0.difference(seen_1).len()) + " | Only "@ + ("S2"@ + " ("@
                + names::sanitized(names[1]@) + ")"@) + ": "@ + numeral::decimal(
                seen_1.difference(seen_0).len(),
            ) + "\n"@ + table::table_text(result_rows(stats, names, numerals)) + "\n"@
        }),
{
    let tally = stats@;
    let seen_0 = Set::new(
        |id: Seq<u8>|
            stats.observations@.dom().contains(id) && stats.observations@[id][0] is Some,
    );
    let seen_1 = Set::new(
        |id: Seq<u8>|
            stats.observations@.dom().contains(id) && stats.observations@[id][1] is Some,
    );
    assert(tally.seen_by(0) =~= seen_0);
    assert(tally.seen_by(1) =~= seen_1);
    assert(tally.seen_by_both() =~= seen_0.intersect(seen_1));
    stats::lemma_only_from(tally, 0);
    stats::lemma_only_from(tally, 1);
    assert(tally.unique[0] == stats.unique@[0] as nat);
    assert(tally.unique[1] == stats.unique@[1] as nat);
}

/// The table of the results, cell by cell: under the heading of each column stands what it names.
/// The counts are those of the transactions that the source has reported and of those that it has
/// won; a source that has won none has no figures, and where none were matched none were won.
pub proof fn lemma_rows_in_words(
    stats: Stats,
    names: Seq<String>,
    numerals: Seq<SourceNumerals>,
    source: int,
)
    requires
        stats.wf(),
        0 <= source < 2,
    ensures
        ({
            let rows = result_rows(stats, names, numerals);
            let heading = rows[0];
            let row = rows[source + 1];
            let shown = numerals[source];
            let seen = Set::new(
                |id: Seq<u8>|
                    stats.observations@.dom().contains(id)
                        && stats.observations@[id][source] is Some,
            );
            let won = stats.leads_ns@[source]@.len();
            let matched = stats.leads_ns@[0]@.len() + stats.leads_ns@[1]@.len();
            &&& rows.len() == 3
            &&& heading.len() == 9
            &&& row.len() == 9
            &&& heading[0] == "Source"@ && row[0] == (if source == 0 {
                "S1"@
            } else {
                "S2"@
            }) + " ("@ + names::sanitized(names[source]@) + ")"@
            &&& heading[1] == "Unique tx"@ && row[1] == numeral::decimal(seen.len())
            &&& heading[2] == "First"@ && row[2] == numeral::decimal(won)
            &&& heading[3] == "Win rate"@ && row[3] == (if matched == 0 {
                "0.0%"@
            } else {
                shown.win_rate@ + "%"@
            })
            &&& heading[4] == "Mean lead"@ && row[4] == (if won == 0 {
                "-"@
            } else {
                shown.mean@ + " ms"@
            })
            &&& heading[5] == "P50 lead"@ && row[5] == (if won == 0 {
                "-"@
            } else {
                shown.p50@ + " ms"@
            })
            &&& heading[6] == "P75 lead"@ && row[6] == (if won == 0 {
                "-"@
            } else {
                shown.p75@ + " ms"@
            })
            &&& heading[7] == "P95 lead"@ && row[7] == (if won == 0 {
                "-"@
            } else {
                shown.p95@ + " ms"@
            })
            &&& heading[8] == "P99 lead"@ && row[8] == (if won == 0 {
                "-"@
            } else {
                shown.p99@ + " ms"@
            })
        }),
{
    let tally = stats@;
    let seen = Set::new(
        |id: Seq<u8>|
            stats.observations@.dom().contains(id) && stats.observations@[id][source] is Some,
    );
    assert(tally.seen_by(source) =~= seen);
    assert(tally.unique[source] == tally.seen_by(source).len());
    assert(tally.unique[source] == stats.unique@[source] as nat);
    assert(tally.first[source] == stats.first@[source] as nat);
    assert(tally.leads[0] == stats.leads_ns@[0]@);
    assert(tally.leads[1] == stats.leads_ns@[1]@);
    assert(tally.leads[0].len() == tally.first[0]);
    assert(tally.leads[1].len() == tally.first[1]);
}

/// Whatever numbers the statistics hold, the results show them: the matched count as it is, and of
/// each source by how much its count exceeds the matched one, or zero if it does not.
pub proof fn lemma_results_show_the_numbers(
    stats: Stats,
    names: Seq<String>,
    elapsed: Seq<char>,
    numerals: Seq<SourceNumerals>,
    only_0: nat,
    only_1: nat,
)
    requires
        stats.unique@[0] >= stats.matched ==> only_0 + stats.matched == stats.unique@[0],
        stats.unique@[0] < stats.matched ==> only_0 == 0,
        stats.unique@[1] >= stats.matched ==> only_1 + stats.matched == stats.unique@[1],
        stats.unique@[1] < stats.matched ==> only_1 == 0,
    ensures
        results_text(stats, names, elapsed, numerals) == "\nBenchmark results ("@ + elapsed
            + "s)\nMatched transactions: "@ + numeral::decimal(stats.matched as nat) + " | Only "@
            + ("S1"@ + " ("@ + names::sanitized(names[0]@) + ")"@) + ": "@ + numeral::decimal(only_0)
            + " | Only "@ + ("S2"@ + " ("@ + names::sanitized(names[1]@) + ")"@) + ": "@
            + numeral::decimal(only_1) + "\n"@ + table::table_text(
            result_rows(stats, names, numerals),
        ) + "\n"@,
{
}

/// Whatever numbers the statistics hold, the row of a source shows them.
pub proof fn lemma_rows_show_the_numbers(
    stats: Stats,
    names: Seq<String>,
    numerals: Seq<SourceNumerals>,
    source: int,
)
    requires
        0 <= source < 2,
    ensures
        ({
            let row = result_rows(stats, names, numerals)[source + 1];
            let shown = numerals[source];
            &&& row[1] == numeral::decimal(stats.unique@[source] as nat)
            &&& row[2] == numeral::decimal(stats.first@[source] as nat)
            &&& stats.matched == 0 ==> row[3] == "0.0%"@
            &&& stats.matched > 0 ==> row[3] == shown.win_rate@ + "%"@
            &&& stats.leads_ns@[source]@.len() == 0 ==> forall|column: int|
                4 <= column < 9 ==> #[trigger] row[column] == "-"@
            &&& stats.leads_ns@[source]@.len() > 0 ==> {
                &&& row[4] == shown.mean@ + " ms"@
                &&& row[5] == shown.p50@ + " ms"@
                &&& row[6] == shown.p75@ + " ms"@
                &&& row[7] == shown.p95@ + " ms"@
                &&& row[8] == shown.p99@ + " ms"@
            }
        }),
{
}

/// Statistics that are sorted hold the same numbers, with the leads of each source from the shortest
/// to the longest.
pub proof fn lemma_sorted_in_words(after: Stats, before: Stats, source: int)
    requires
        is_sorted_from(after, before),
        0 <= source < 2,
    ensures
        after.observations == before.observations,
        after.unique@[source] == before.unique@[source],
        after.first@[source] == before.first@[source],
        after.matched == before.matched,
        after.leads_ns@[source]@.to_multiset() == before.leads_ns@[source]@.to_multiset(),
        forall|i: int, j: int|
            0 <= i <= j < after.leads_ns@[source]@.len() ==> after.leads_ns@[source]@[i]
                <= after.leads_ns@[source]@[j],
{
    assert(sort::ascending(after.leads_ns@[source]@));
}

/// Of values in any order, the one that is picked stands at the lowest rank that is `percent` of 100
/// of their number or more.
pub proof fn lemma_percentile_by_rank(values: Seq<Nanos>, percent: nat, rank: nat)
    requires
        0 < rank <= values.len(),
        100 * (rank - 1) < percent * values.len() <= 100 * rank,
    ensures
        percentile_of(values, percent) == Some(values[rank - 1]),
{
    assert(percent * values.len() == values.len() * percent) by (nonlinear_arith);
}

/// A span of milliseconds is shown with its unit, and a dash stands for none.
pub proof fn lemma_span_in_words(numeral: String)
    ensures
        milliseconds_text(Some(numeral)) == numeral@ + " ms"@,
        milliseconds_text(None) == "-"@,
{
}

} // verus!
