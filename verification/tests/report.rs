//! The words of a report.

use compat_checker::report::{
    component_details, heading, library_title, result_mark, summary_rows, verify_details,
    Finding, OutputFormat, ReportOutput, SummaryCell, Tone,
};
use compat_checker::verify::bin::BinVerifyResult;
use compat_checker::verify::ipk::{ComponentBinVerifyResult, ComponentVerifyResult};

#[test]
fn verdicts_are_marked_by_format() {
    let passed = ComponentBinVerifyResult::Passed { name: "a".to_string() };
    let skipped = ComponentBinVerifyResult::Skipped { name: "a".to_string() };
    let failed = ComponentBinVerifyResult::Failed(BinVerifyResult::new("a".to_string()));
    assert_eq!(result_mark(&passed, OutputFormat::Markdown), ":ok:");
    assert_eq!(result_mark(&passed, OutputFormat::Terminal), "OK");
    assert_eq!(result_mark(&passed, OutputFormat::Plain), "OK");
    assert_eq!(result_mark(&skipped, OutputFormat::Markdown), "SKIP");
    assert_eq!(result_mark(&skipped, OutputFormat::Plain), "SKIP");
    assert_eq!(result_mark(&failed, OutputFormat::Markdown), ":x:");
    assert_eq!(result_mark(&failed, OutputFormat::Terminal), "FAIL");
    assert_eq!(result_mark(&failed, OutputFormat::Plain), "FAIL");
}

#[test]
fn libraries_are_titled_by_need() {
    assert_eq!(library_title(true, "libbar.so"), "required lib libbar.so");
    assert_eq!(library_title(false, "libbar.so"), "lib libbar.so");
}

#[test]
fn headings_have_as_many_marks_as_their_level() {
    assert_eq!(heading(2, "Package org.example"), "## Package org.example\n\n");
    assert_eq!(heading(3, "App"), "### App\n\n");
    assert_eq!(heading(5, "On 04.30"), "##### On 04.30\n\n");
    assert_eq!(heading(0, "bare"), " bare\n\n");
}

#[test]
fn details_list_missing_libraries_then_unresolved_symbols() {
    let mut result = BinVerifyResult::new("app".to_string());
    result.missing_lib = vec!["liba.so".to_string(), "libb.so".to_string()];
    result.undefined_sym = vec!["f@V1".to_string()];
    assert_eq!(
        verify_details(&result),
        vec![
            "* Library liba.so is missing\n".to_string(),
            "* Library libb.so is missing\n".to_string(),
            "* Symbol f@V1 is undefined\n".to_string(),
        ]
    );
    assert!(verify_details(&BinVerifyResult::new("fine".to_string())).is_empty());
}

fn passed(name: &str) -> ComponentBinVerifyResult {
    ComponentBinVerifyResult::Passed { name: name.to_string() }
}

fn skipped(name: &str) -> ComponentBinVerifyResult {
    ComponentBinVerifyResult::Skipped { name: name.to_string() }
}

fn failed(name: &str, missing: &[&str], undefined: &[&str]) -> ComponentBinVerifyResult {
    let mut result = BinVerifyResult::new(name.to_string());
    result.missing_lib = missing.iter().map(|text| text.to_string()).collect();
    result.undefined_sym = undefined.iter().map(|text| text.to_string()).collect();
    ComponentBinVerifyResult::Failed(result)
}

fn finding(
    firmware: &str,
    exe: ComponentBinVerifyResult,
    libs: Vec<(bool, ComponentBinVerifyResult)>,
) -> Finding {
    Finding {
        firmware: firmware.to_string(),
        verdict: ComponentVerifyResult { id: "org.example.app".to_string(), exe, libs },
    }
}

fn shown(rows: &[Vec<SummaryCell>]) -> Vec<Vec<(String, Tone)>> {
    rows.iter()
        .map(|row| row.iter().map(|cell| (cell.text.clone(), cell.tone)).collect())
        .collect()
}

#[test]
fn component_that_links_everywhere_is_all_ok() {
    let findings = vec![
        finding("old", passed("app"), vec![(true, passed("liba.so"))]),
        finding("new", passed("app"), vec![(false, failed("libb.so", &["x"], &[]))]),
    ];
    assert_eq!(component_details(&findings), vec!["All OK\n".to_string()]);
}

#[test]
fn no_findings_give_no_details_and_no_rows() {
    assert!(component_details(&Vec::new()).is_empty());
    assert!(summary_rows(&Vec::new(), OutputFormat::Plain).is_empty());
}

#[test]
fn details_name_what_failed_and_where() {
    let findings = vec![
        finding(
            "Firmware 1",
            failed("app", &["libgone.so"], &["lost"]),
            vec![
                (true, passed("libneeded.so")),
                (false, failed("libextra.so", &[], &["unseen"])),
            ],
        ),
        finding(
            "Firmware 2",
            passed("app"),
            vec![
                (true, failed("libneeded.so", &[], &["late"])),
                (false, passed("libextra.so")),
            ],
        ),
    ];
    let expected: Vec<String> = [
        "#### app\n\n",
        "##### On Firmware 1\n\n",
        "* Library libgone.so is missing\n",
        "* Symbol lost is undefined\n",
        "\n",
        "#### libneeded.so\n\n",
        "##### On Firmware 2\n\n",
        "* Symbol late is undefined\n",
        "\n",
    ]
    .iter()
    .map(|piece| piece.to_string())
    .collect();
    assert_eq!(component_details(&findings), expected);
}

#[test]
fn summary_has_a_row_for_the_executable_and_for_each_library() {
    let findings = vec![
        finding(
            "old",
            passed("app"),
            vec![(true, skipped("libc.so.6")), (false, failed("libx.so", &["y"], &[]))],
        ),
        finding(
            "new",
            failed("app", &[], &["f"]),
            vec![(true, passed("libc.so.6")), (false, passed("libx.so"))],
        ),
    ];
    let plain = |text: &str| (text.to_string(), Tone::Plain);
    let good = |text: &str| (text.to_string(), Tone::Good);
    let bad = |text: &str| (text.to_string(), Tone::Bad);
    assert_eq!(
        shown(&summary_rows(&findings, OutputFormat::Plain)),
        vec![
            vec![plain("app"), good("OK"), bad("FAIL")],
            vec![plain("required lib libc.so.6"), plain("SKIP"), good("OK")],
            vec![plain("lib libx.so"), bad("FAIL"), good("OK")],
        ]
    );
    assert_eq!(
        shown(&summary_rows(&findings, OutputFormat::Markdown))[0],
        vec![plain("app"), good(":ok:"), bad(":x:")]
    );
}

#[test]
fn skipped_component_has_no_summary() {
    let findings = vec![finding("old", skipped(""), Vec::new())];
    assert!(summary_rows(&findings, OutputFormat::Terminal).is_empty());
    assert_eq!(component_details(&findings), vec!["All OK\n".to_string()]);
}

#[test]
fn verdict_with_fewer_libraries_counts_as_skipped_there() {
    let findings = vec![
        finding("old", passed("app"), vec![(true, failed("liba.so", &["x"], &[]))]),
        finding("new", passed("app"), Vec::new()),
    ];
    let rows = shown(&summary_rows(&findings, OutputFormat::Plain));
    assert_eq!(rows[1][2], ("SKIP".to_string(), Tone::Plain));
    assert_eq!(
        component_details(&findings),
        vec![
            "#### app\n\n".to_string(),
            "#### liba.so\n\n".to_string(),
            "##### On old\n\n".to_string(),
            "* Library x is missing\n".to_string(),
            "\n".to_string(),
        ]
    );
}

#[test]
fn report_in_memory_collects_what_is_written() {
    let mut report = String::new();
    assert!(report.h2("Package org.example").is_ok());
    assert!(report.h3("App").is_ok());
    assert!(report.write_text("All OK\n").is_ok());
    assert!(report.h4("app").is_ok());
    assert!(report.h5("On old").is_ok());
    assert_eq!(
        report,
        "## Package org.example\n\n### App\n\nAll OK\n#### app\n\n##### On old\n\n"
    );
}
