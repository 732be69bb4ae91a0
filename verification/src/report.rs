//! The words of a report: how a verdict is marked, how a library is titled,
//! and what is said of the binaries that failed.

use vstd::prelude::*;
use vstd::string::*;
use crate::sequences::{lemma_texts_add, lemma_texts_push};
use crate::text::texts_of;
use crate::verify::bin::{BinVerdict, BinVerifyResult};
use crate::verify::ipk::{
    ComponentBinVerifyResult, ComponentVerdict, ComponentVerifyResult, Verdict,
};
use crate::verify::VerifyResult;

verus! {

/// The form in which a report is written.
#[derive(Debug, Clone, Copy, PartialEq, Eq, Structural)]
pub enum OutputFormat {
    Markdown,
    Terminal,
    Plain,
}

/// The mark of a verdict in the summary table.
pub open spec fn mark_of(verdict: Verdict, format: OutputFormat) -> Seq<char> {
    match verdict {
        Verdict::Passed { .. } => if format == OutputFormat::Markdown {
            ":ok:"@
        } else {
            "OK"@
        },
        Verdict::Skipped { .. } => "SKIP"@,
        Verdict::Failed(_) => if format == OutputFormat::Markdown {
            ":x:"@
        } else {
            "FAIL"@
        },
    }
}

/// The title of a library's row in the summary table.
pub open spec fn title_of(required: bool, name: Seq<char>) -> Seq<char> {
    if required {
        "required lib "@ + name
    } else {
        "lib "@ + name
    }
}

/// A heading of the given level: as many `#` as the level, a space, the text,
/// and an empty line.
pub open spec fn heading_of(level: nat, text: Seq<char>) -> Seq<char> {
    Seq::new(level, |i: int| '#') + seq![' '] + text + seq!['\n', '\n']
}

/// What is said of a missing library.
pub open spec fn missing_line(library: Seq<char>) -> Seq<char> {
    "* Library "@ + library + " is missing\n"@
}

/// What is said of an unresolved symbol.
pub open spec fn undefined_line(symbol: Seq<char>) -> Seq<char> {
    "* Symbol "@ + symbol + " is undefined\n"@
}

/// What is said of a binary that failed: a line for each missing library, then
/// a line for each unresolved symbol.
pub open spec fn details_of(verdict: BinVerdict) -> Seq<Seq<char>> {
    verdict.missing_lib.map_values(|library: Seq<char>| missing_line(library))
        + verdict.undefined_sym.map_values(|symbol: Seq<char>| undefined_line(symbol))
}

/// The mark of a verdict in the summary table.
pub fn result_mark(result: &ComponentBinVerifyResult, format: OutputFormat) -> (mark: &'static str)
    ensures
        mark@ == mark_of(result@, format),
{
    match result {
        ComponentBinVerifyResult::Passed { .. } => if format == OutputFormat::Markdown {
            ":ok:"
        } else {
            "OK"
        },
        ComponentBinVerifyResult::Skipped { .. } => "SKIP",
        ComponentBinVerifyResult::Failed(_) => if format == OutputFormat::Markdown {
            ":x:"
        } else {
            "FAIL"
        },
    }
}

/// The title of a library's row in the summary table.
pub fn library_title(required: bool, name: &str) -> (title: String)
    ensures
        title@ == title_of(required, name@),
{
    let mut title = if required {
        "required lib ".to_owned()
    } else {
        "lib ".to_owned()
    };
    title.append(name);
    title
}

/// A heading of the given level.
pub fn heading(level: u8, text: &str) -> (line: String)
    ensures
        line@ == heading_of(level as nat, text@),
{
    let mut line = String::new();
    let mut at: u8 = 0;
    proof {
        reveal_strlit("#");
        reveal_strlit(" ");
        reveal_strlit("\n\n");
    }
    while at < level
        invariant
            at <= level,
            "#"@ == seq!['#'],
            line@ =~= Seq::new(at as nat, |i: int| '#'),
        decreases level - at,
    {
        line.append("#");
        at += 1;
    }
    line.append(" ");
    line.append(text);
    line.append("\n\n");
    assert(line@ =~= heading_of(level as nat, text@));
    line
}

/// What is said of a binary that failed: a line for each missing library, then
/// a line for each unresolved symbol.
pub fn verify_details(result: &BinVerifyResult) -> (lines: Vec<String>)
    ensures
        texts_of(lines@) == details_of(result@),
{
    let ghost missing = |library: Seq<char>| missing_line(library);
    let ghost undefined = |symbol: Seq<char>| undefined_line(symbol);
    let mut lines: Vec<String> = Vec::new();
    let mut at: usize = 0;
    while at < result.missing_lib.len()
        invariant
            at <= result.missing_lib.len(),
            missing == |library: Seq<char>| missing_line(library),
            texts_of(lines@) =~= result@.missing_lib.subrange(0, at as int).map_values(missing),
        decreases result.missing_lib.len() - at,
    {
        let mut line = "* Library ".to_owned();
        line.append(result.missing_lib[at].as_str());
        line.append(" is missing\n");
        proof {
            lemma_texts_push(lines@, line);
            assert(result@.missing_lib[at as int] == result.missing_lib@[at as int]@);
        }
        lines.push(line);
        at += 1;
    }
    assert(result@.missing_lib.subrange(0, at as int) =~= result@.missing_lib);
    let ghost first = texts_of(lines@);
    at = 0;
    while at < result.undefined_sym.len()
        invariant
            at <= result.undefined_sym.len(),
            undefined == |symbol: Seq<char>| undefined_line(symbol),
            first == result@.missing_lib.map_values(|library: Seq<char>| missing_line(library)),
            texts_of(lines@) =~= first + result@.undefined_sym.subrange(0, at as int).map_values(
                undefined,
            ),
        decreases result.undefined_sym.len() - at,
    {
        let mut line = "* Symbol ".to_owned();
        line.append(result.undefined_sym[at].as_str());
        line.append(" is undefined\n");
        proof {
            lemma_texts_push(lines@, line);
            assert(result@.undefined_sym[at as int] == result.undefined_sym@[at as int]@);
        }
        lines.push(line);
        at += 1;
    }
    assert(result@.undefined_sym.subrange(0, at as int) =~= result@.undefined_sym);
    lines
}

/// The verdict on a component against one firmware.
#[derive(Debug)]
pub struct Finding {
    /// How the firmware is called in the report.
    pub firmware: String,
    /// The verdict on the component.
    pub verdict: ComponentVerifyResult,
}

/// The mathematical content of a [`Finding`].
pub struct FindingModel {
    pub firmware: Seq<char>,
    pub verdict: ComponentVerdict,
}

impl View for Finding {
    type V = FindingModel;

    open spec fn view(&self) -> FindingModel {
        FindingModel { firmware: self.firmware@, verdict: self.verdict@ }
    }
}

/// The contents of a list of findings.
pub open spec fn findings_of(findings: Seq<Finding>) -> Seq<FindingModel> {
    findings.map_values(|finding: Finding| finding@)
}

/// What is said of one binary against one firmware: nothing unless it failed,
/// and else a heading that names the firmware, the details of the failure, and
/// an empty line.
pub open spec fn failure_report(firmware: Seq<char>, verdict: Verdict) -> Seq<Seq<char>> {
    match verdict {
        Verdict::Failed(result) => seq![heading_of(5, "On "@ + firmware)] + details_of(result)
            + seq!["\n"@],
        _ => Seq::empty(),
    }
}

/// The verdict on the library at a position of a component's verdict; a
/// skipped one where the component has no library there.
pub open spec fn library_at(verdict: ComponentVerdict, index: int) -> Verdict {
    if 0 <= index < verdict.libs.len() {
        verdict.libs[index].1
    } else {
        Verdict::Skipped { name: Seq::empty() }
    }
}

/// The binary that a part of the report is about: the executable, or the
/// library at a position.
pub open spec fn binary_at(verdict: ComponentVerdict, index: Option<int>) -> Verdict {
    match index {
        Some(at) => library_at(verdict, at),
        None => verdict.exe,
    }
}

/// What is said of one binary of a component against each firmware in turn.
pub open spec fn failure_reports(findings: Seq<FindingModel>, index: Option<int>) -> Seq<
    Seq<char>,
> {
    Seq::new(
        findings.len(),
        |i: int| failure_report(findings[i].firmware, binary_at(findings[i].verdict, index)),
    ).flatten()
}

/// Whether the library at a position failed against one of the firmwares.
pub open spec fn fails_somewhere(findings: Seq<FindingModel>, index: int) -> bool {
    exists|i: int|
        0 <= i < findings.len() && library_at((#[trigger] findings[i]).verdict, index) is Failed
}

/// What is said of the library at a position: nothing unless the executable
/// needs it and it failed somewhere, and else a heading with its name and
/// what is said of it against each firmware.
pub open spec fn library_section(findings: Seq<FindingModel>, index: int) -> Seq<Seq<char>> {
    let first = findings[0].verdict;
    if first.libs[index].0 && fails_somewhere(findings, index) {
        seq![heading_of(4, first.libs[index].1.name())] + failure_reports(findings, Some(index))
    } else {
        Seq::empty()
    }
}

/// Whether the component will link on every firmware.
pub open spec fn all_good(findings: Seq<FindingModel>) -> bool {
    forall|i: int| 0 <= i < findings.len() ==> (#[trigger] findings[i]).verdict.good()
}

/// The details of a component's verdicts against several firmwares. Where the
/// component will link on all of them that is all there is to say. Else the
/// executable comes first, and then each library that the executable needs
/// and that failed somewhere, in the order of the first verdict.
pub open spec fn details_report(findings: Seq<FindingModel>) -> Seq<Seq<char>> {
    if findings.len() == 0 {
        Seq::empty()
    } else if all_good(findings) {
        seq!["All OK\n"@]
    } else {
        seq![heading_of(4, findings[0].verdict.exe.name())] + failure_reports(findings, None)
            + Seq::new(
            findings[0].verdict.libs.len(),
            |k: int| library_section(findings, k),
        ).flatten()
    }
}

/// What is said of one binary against one firmware.
fn report_failure(firmware: &str, verdict: &ComponentBinVerifyResult) -> (pieces: Vec<String>)
    ensures
        texts_of(pieces@) == failure_report(firmware@, verdict@),
{
    let mut pieces: Vec<String> = Vec::new();
    match verdict {
        ComponentBinVerifyResult::Failed(result) => {
            let mut title = "On ".to_owned();
            title.append(firmware);
            let line = heading(5, title.as_str());
            pieces.push(line);
            let mut details = verify_details(result);
            proof {
                assert(texts_of(pieces@) =~= seq![heading_of(5, "On "@ + firmware@)]);
                lemma_texts_add(pieces@, details@);
            }
            pieces.append(&mut details);
            let end = "\n".to_owned();
            proof {
                lemma_texts_push(pieces@, end);
            }
            pieces.push(end);
            assert(texts_of(pieces@) =~= failure_report(firmware@, verdict@));
        },
        _ => {
            assert(texts_of(pieces@) =~= Seq::<Seq<char>>::empty());
        },
    }
    pieces
}

/// The verdict on the binary that a part of the report is about.
fn binary_of(verdict: &ComponentVerifyResult, index: Option<usize>) -> (binary: Option<
    &ComponentBinVerifyResult,
>)
    ensures
        match binary {
            Some(found) => found@ == binary_at(verdict@, position(index)),
            None => binary_at(verdict@, position(index)) == (Verdict::Skipped {
                name: Seq::empty(),
            }),
        },
{
    match index {
        Some(at) => {
            if at < verdict.libs.len() {
                assert(verdict@.libs[at as int] == (verdict.libs@[at as int].0, verdict.libs@[at as int].1@));
                Some(&verdict.libs[at].1)
            } else {
                assert(verdict@.libs.len() == verdict.libs@.len());
                None
            }
        },
        None => Some(&verdict.exe),
    }
}

/// A position, where there is one.
pub open spec fn position(index: Option<usize>) -> Option<int> {
    match index {
        Some(at) => Some(at as int),
        None => None,
    }
}

/// What is said of one binary of a component against each firmware in turn.
fn report_failures(findings: &Vec<Finding>, index: Option<usize>) -> (pieces: Vec<String>)
    ensures
        texts_of(pieces@) == failure_reports(findings_of(findings@), position(index)),
{
    let ghost all = findings_of(findings@);
    let ghost part = |i: int|
        failure_report(all[i].firmware, binary_at(all[i].verdict, position(index)));
    let mut pieces: Vec<String> = Vec::new();
    let mut at: usize = 0;
    assert(Seq::new(0, part) =~= Seq::<Seq<Seq<char>>>::empty());
    assert(texts_of(pieces@) =~= Seq::<Seq<char>>::empty());
    while at < findings.len()
        invariant
            at <= findings.len(),
            all == findings_of(findings@),
            part == |i: int|
                failure_report(all[i].firmware, binary_at(all[i].verdict, position(index))),
            texts_of(pieces@) == Seq::new(at as nat, part).flatten(),
        decreases findings.len() - at,
    {
        proof {
            assert(Seq::new((at + 1) as nat, part) =~= Seq::new(at as nat, part).push(
                part(at as int),
            ));
            Seq::new(at as nat, part).lemma_flatten_push(part(at as int));
            assert(all[at as int] == findings@[at as int]@);
        }
        match binary_of(&findings[at].verdict, index) {
            Some(binary) => {
                let mut said = report_failure(findings[at].firmware.as_str(), binary);
                proof {
                    lemma_texts_add(pieces@, said@);
                }
                pieces.append(&mut said);
            },
            None => {
                assert(texts_of(pieces@) + Seq::<Seq<char>>::empty() =~= texts_of(pieces@));
            },
        }
        at += 1;
    }
    pieces
}

/// Whether the library at a position failed against one of the firmwares.
fn failed_somewhere(findings: &Vec<Finding>, index: usize) -> (failed: bool)
    ensures
        failed == fails_somewhere(findings_of(findings@), index as int),
{
    let ghost all = findings_of(findings@);
    let mut at: usize = 0;
    while at < findings.len()
        invariant
            at <= findings.len(),
            all == findings_of(findings@),
            forall|i: int|
                0 <= i < at ==> !(library_at((#[trigger] all[i]).verdict, index as int) is Failed),
        decreases findings.len() - at,
    {
        assert(all[at as int] == findings@[at as int]@);
        match binary_of(&findings[at].verdict, Some(index)) {
            Some(ComponentBinVerifyResult::Failed(_)) => {
                return true;
            },
            _ => {},
        }
        at += 1;
    }
    false
}

/// Whether the component will link on every firmware.
fn good_everywhere(findings: &Vec<Finding>) -> (good: bool)
    ensures
        good == all_good(findings_of(findings@)),
{
    let ghost all = findings_of(findings@);
    let mut at: usize = 0;
    while at < findings.len()
        invariant
            at <= findings.len(),
            all == findings_of(findings@),
            forall|i: int| 0 <= i < at ==> (#[trigger] all[i]).verdict.good(),
        decreases findings.len() - at,
    {
        assert(all[at as int] == findings@[at as int]@);
        if !findings[at].verdict.is_good() {
            return false;
        }
        at += 1;
    }
    true
}

/// The details of a component's verdicts against several firmwares, piece by
/// piece. Where the component will link on all of them that is all there is
/// to say. Else the executable comes first, and then each library that the
/// executable needs and that failed somewhere.
pub fn component_details(findings: &Vec<Finding>) -> (pieces: Vec<String>)
    ensures
        texts_of(pieces@) == details_report(findings_of(findings@)),
{
    let ghost all = findings_of(findings@);
    let mut pieces: Vec<String> = Vec::new();
    if findings.len() == 0 {
        assert(texts_of(pieces@) =~= Seq::<Seq<char>>::empty());
        return pieces;
    }
    if good_everywhere(findings) {
        pieces.push("All OK\n".to_owned());
        assert(texts_of(pieces@) =~= seq!["All OK\n"@]);
        return pieces;
    }
    let first = &findings[0].verdict;
    assert(all[0] == findings@[0]@);
    pieces.push(heading(4, first.exe.name()));
    let mut said = report_failures(findings, None);
    proof {
        assert(texts_of(pieces@) =~= seq![heading_of(4, all[0].verdict.exe.name())]);
        lemma_texts_add(pieces@, said@);
    }
    pieces.append(&mut said);
    let ghost start = texts_of(pieces@);
    let ghost part = |k: int| library_section(all, k);
    let mut at: usize = 0;
    assert(Seq::new(0, part) =~= Seq::<Seq<Seq<char>>>::empty());
    assert(start + Seq::<Seq<char>>::empty() =~= start);
    while at < first.libs.len()
        invariant
            at <= first.libs.len(),
            findings@.len() > 0,
            *first == findings@[0].verdict,
            all == findings_of(findings@),
            all[0] == findings@[0]@,
            part == |k: int| library_section(all, k),
            texts_of(pieces@) == start + Seq::new(at as nat, part).flatten(),
        decreases first.libs.len() - at,
    {
        proof {
            assert(Seq::new((at + 1) as nat, part) =~= Seq::new(at as nat, part).push(
                part(at as int),
            ));
            Seq::new(at as nat, part).lemma_flatten_push(part(at as int));
            assert(first@.libs[at as int] == (first.libs@[at as int].0, first.libs@[at as int].1@));
        }
        let ghost before = texts_of(pieces@);
        if first.libs[at].0 && failed_somewhere(findings, at) {
            let title = heading(4, first.libs[at].1.name());
            proof {
                lemma_texts_push(pieces@, title);
            }
            pieces.push(title);
            let mut said = report_failures(findings, Some(at));
            proof {
                lemma_texts_add(pieces@, said@);
                assert(before.push(title@) + texts_of(said@) =~= before + (seq![title@] + texts_of(
                    said@,
                )));
                assert(start + Seq::new(at as nat, part).flatten() + part(at as int) =~= start + (
                Seq::new(at as nat, part).flatten() + part(at as int)));
            }
            pieces.append(&mut said);
        } else {
            assert(start + (Seq::new(at as nat, part).flatten() + Seq::<Seq<char>>::empty())
                =~= before);
        }
        at += 1;
    }
    assert(first@.libs.len() == first.libs@.len());
    pieces
}

/// The tone of a cell of the summary table.
#[derive(Debug, Clone, Copy, PartialEq, Eq, Structural)]
pub enum Tone {
    Plain,
    Good,
    Bad,
}

/// A cell of the summary table.
#[derive(Debug)]
pub struct SummaryCell {
    pub text: String,
    pub tone: Tone,
}

/// The tone in which a verdict is marked.
pub open spec fn tone_of(verdict: Verdict) -> Tone {
    match verdict {
        Verdict::Passed { .. } => Tone::Good,
        Verdict::Skipped { .. } => Tone::Plain,
        Verdict::Failed(_) => Tone::Bad,
    }
}

/// The contents of a row of cells.
pub open spec fn cells_of(row: Seq<SummaryCell>) -> Seq<(Seq<char>, Tone)> {
    row.map_values(|cell: SummaryCell| (cell.text@, cell.tone))
}

/// The contents of a table of cells.
pub open spec fn rows_of(rows: Seq<Vec<SummaryCell>>) -> Seq<Seq<(Seq<char>, Tone)>> {
    rows.map_values(|row: Vec<SummaryCell>| cells_of(row@))
}

/// A row of the summary table: what it is about, and then the mark of the
/// verdict on that binary against each firmware.
pub open spec fn summary_row(
    title: Seq<char>,
    findings: Seq<FindingModel>,
    index: Option<int>,
    format: OutputFormat,
) -> Seq<(Seq<char>, Tone)> {
    seq![(title, Tone::Plain)] + Seq::new(
        findings.len(),
        |i: int|
            (
                mark_of(binary_at(findings[i].verdict, index), format),
                tone_of(binary_at(findings[i].verdict, index)),
            ),
    )
}

/// The row of the summary table for the library at a position.
pub open spec fn library_row(findings: Seq<FindingModel>, index: int, format: OutputFormat) -> Seq<
    (Seq<char>, Tone),
> {
    let first = findings[0].verdict;
    summary_row(
        title_of(first.libs[index].0, first.libs[index].1.name()),
        findings,
        Some(index),
        format,
    )
}

/// The rows of the summary table of a component: one for the executable, and
/// one for each library of the first verdict. There are none where there is no
/// verdict, and none for a component that is skipped.
pub open spec fn summary_table(findings: Seq<FindingModel>, format: OutputFormat) -> Seq<
    Seq<(Seq<char>, Tone)>,
> {
    if findings.len() == 0 || findings[0].verdict.exe is Skipped {
        Seq::empty()
    } else {
        seq![summary_row(findings[0].verdict.exe.name(), findings, None, format)] + Seq::new(
            findings[0].verdict.libs.len(),
            |k: int| library_row(findings, k, format),
        )
    }
}

/// A row of the summary table.
fn row_of(title: String, findings: &Vec<Finding>, index: Option<usize>, format: OutputFormat) -> (row:
    Vec<SummaryCell>)
    ensures
        cells_of(row@) == summary_row(title@, findings_of(findings@), position(index), format),
{
    let ghost all = findings_of(findings@);
    let ghost heading_cell = (title@, Tone::Plain);
    let mut row: Vec<SummaryCell> = Vec::new();
    row.push(SummaryCell { text: title, tone: Tone::Plain });
    let mut at: usize = 0;
    while at < findings.len()
        invariant
            at <= findings.len(),
            all == findings_of(findings@),
            cells_of(row@) =~= seq![heading_cell] + Seq::new(
                at as nat,
                |i: int|
                    (
                        mark_of(binary_at(all[i].verdict, position(index)), format),
                        tone_of(binary_at(all[i].verdict, position(index))),
                    ),
            ),
        decreases findings.len() - at,
    {
        assert(all[at as int] == findings@[at as int]@);
        let cell = match binary_of(&findings[at].verdict, index) {
            Some(binary) => SummaryCell {
                text: result_mark(binary, format).to_owned(),
                tone: match binary {
                    ComponentBinVerifyResult::Passed { .. } => Tone::Good,
                    ComponentBinVerifyResult::Skipped { .. } => Tone::Plain,
                    ComponentBinVerifyResult::Failed(_) => Tone::Bad,
                },
            },
            None => SummaryCell { text: "SKIP".to_owned(), tone: Tone::Plain },
        };
        let ghost before = cells_of(row@);
        let ghost marks = |i: int|
            (
                mark_of(binary_at(all[i].verdict, position(index)), format),
                tone_of(binary_at(all[i].verdict, position(index))),
            );
        proof {
            assert((cell.text@, cell.tone) == marks(at as int));
            assert(Seq::new((at + 1) as nat, marks) =~= Seq::new(at as nat, marks).push(
                marks(at as int),
            ));
        }
        row.push(cell);
        assert(cells_of(row@) =~= before.push(marks(at as int)));
        at += 1;
    }
    row
}

/// The rows of the summary table of a component against several firmwares: one
/// for the executable, and one for each library.
pub fn summary_rows(findings: &Vec<Finding>, format: OutputFormat) -> (rows: Vec<Vec<SummaryCell>>)
    ensures
        rows_of(rows@) == summary_table(findings_of(findings@), format),
{
    let ghost all = findings_of(findings@);
    let mut rows: Vec<Vec<SummaryCell>> = Vec::new();
    if findings.len() == 0 {
        assert(rows_of(rows@) =~= Seq::<Seq<(Seq<char>, Tone)>>::empty());
        return rows;
    }
    let first = &findings[0].verdict;
    assert(all[0] == findings@[0]@);
    if let ComponentBinVerifyResult::Skipped { .. } = &first.exe {
        assert(rows_of(rows@) =~= Seq::<Seq<(Seq<char>, Tone)>>::empty());
        return rows;
    }
    let ghost top = summary_row(all[0].verdict.exe.name(), all, None, format);
    rows.push(row_of(first.exe.name().to_owned(), findings, None, format));
    assert(rows_of(rows@) =~= seq![top]);
    let mut at: usize = 0;
    while at < first.libs.len()
        invariant
            at <= first.libs.len(),
            findings@.len() > 0,
            *first == findings@[0].verdict,
            all == findings_of(findings@),
            all[0] == findings@[0]@,
            rows_of(rows@) =~= seq![top] + Seq::new(
                at as nat,
                |k: int| library_row(all, k, format),
            ),
        decreases first.libs.len() - at,
    {
        assert(first@.libs[at as int] == (first.libs@[at as int].0, first.libs@[at as int].1@));
        let title = library_title(first.libs[at].0, first.libs[at].1.name());
        let row = row_of(title, findings, Some(at), format);
        let ghost before = rows_of(rows@);
        let ghost libraries = |k: int| library_row(all, k, format);
        proof {
            assert(cells_of(row@) == libraries(at as int));
            assert(Seq::new((at + 1) as nat, libraries) =~= Seq::new(at as nat, libraries).push(
                libraries(at as int),
            ));
        }
        rows.push(row);
        assert(rows_of(rows@) =~= before.push(libraries(at as int)));
        at += 1;
    }
    assert(first@.libs.len() == first.libs@.len());
    rows
}

/// `std::io::Error`, the failure to write. Nothing is known of a value.
#[verifier::external_type_specification]
#[verifier::external_body]
pub struct ExIoError(std::io::Error);

/// Where a report is written.
///
/// Whether a text can be written is for the output to say. What is known is
/// what a successful write leaves behind: the report as it was, with the text
/// at its end.
pub trait ReportOutput {
    /// The text of the report, as far as it is written.
    spec fn written(&self) -> Seq<char>;

    /// Writes a text to the end of the report.
    fn write_text(&mut self, text: &str) -> (done: Result<(), std::io::Error>)
        ensures
            done is Ok ==> final(self).written() == old(self).written() + text@,
    ;

    /// Writes a heading of the second level to the end of the report.
    fn h2(&mut self, title: &str) -> (done: Result<(), std::io::Error>)
        ensures
            done is Ok ==> final(self).written() == old(self).written() + heading_of(2, title@),
    {
        let line = heading(2, title);
        self.write_text(line.as_str())
    }

    /// Writes a heading of the third level to the end of the report.
    fn h3(&mut self, title: &str) -> (done: Result<(), std::io::Error>)
        ensures
            done is Ok ==> final(self).written() == old(self).written() + heading_of(3, title@),
    {
        let line = heading(3, title);
        self.write_text(line.as_str())
    }

    /// Writes a heading of the fourth level to the end of the report.
    fn h4(&mut self, title: &str) -> (done: Result<(), std::io::Error>)
        ensures
            done is Ok ==> final(self).written() == old(self).written() + heading_of(4, title@),
    {
        let line = heading(4, title);
        self.write_text(line.as_str())
    }

    /// Writes a heading of the fifth level to the end of the report.
    fn h5(&mut self, title: &str) -> (done: Result<(), std::io::Error>)
        ensures
            done is Ok ==> final(self).written() == old(self).written() + heading_of(5, title@),
    {
        let line = heading(5, title);
        self.write_text(line.as_str())
    }
}

/// A report kept in memory: what is written is added to the end of the text,
/// and writing never fails.
impl ReportOutput for String {
    open spec fn written(&self) -> Seq<char> {
        self@
    }

    fn write_text(&mut self, text: &str) -> (written: Result<(), std::io::Error>)
        ensures
            written is Ok,
            final(self)@ == old(self)@ + text@,
    {
        self.append(text);
        Ok(())
    }

    fn h2(&mut self, title: &str) -> (written: Result<(), std::io::Error>)
        ensures
            written is Ok,
            final(self)@ == old(self)@ + heading_of(2, title@),
    {
        let line = heading(2, title);
        self.append(line.as_str());
        Ok(())
    }

    fn h3(&mut self, title: &str) -> (written: Result<(), std::io::Error>)
        ensures
            written is Ok,
            final(self)@ == old(self)@ + heading_of(3, title@),
    {
        let line = heading(3, title);
        self.append(line.as_str());
        Ok(())
    }

    fn h4(&mut self, title: &str) -> (written: Result<(), std::io::Error>)
        ensures
            written is Ok,
            final(self)@ == old(self)@ + heading_of(4, title@),
    {
        let line = heading(4, title);
        self.append(line.as_str());
        Ok(())
    }

    fn h5(&mut self, title: &str) -> (written: Result<(), std::io::Error>)
        ensures
            written is Ok,
            final(self)@ == old(self)@ + heading_of(5, title@),
    {
        let line = heading(5, title);
        self.append(line.as_str());
        Ok(())
    }
}

} // verus!
