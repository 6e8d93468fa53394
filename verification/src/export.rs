//! Report formats, the region entries handed to report writers, and the
//! JUnit report of the CI checks.
use vstd::prelude::*;
use quick_junit::{NonSuccessKind, Report, SerializeError, TestCase, TestCaseStatus, TestSuite};
use crate::types::{Region, RegionEntry};

verus! {

/// The outcome of one CI check, as reported in a JUnit report.
#[derive(Debug, Clone)]
pub struct CheckResult {
    pub name: String,
    pub passed: bool,
    pub message: Option<String>,
}

/// The format of an exported report.
#[derive(Clone, Copy, Debug, PartialEq, Eq, Structural)]
pub enum FormatType {
    Json,
    CSV,
    Junit,
}

/// Why a report could not be produced.
#[derive(Debug)]
pub enum ExportError {
    /// The report could not be serialised; the serialiser's message.
    Serialize(String),
}

/// `e` is the region `r` with the label `label`.
pub open spec fn entry_matches(e: RegionEntry, r: Region, label: Seq<char>) -> bool {
    &&& e.base == r.base
    &&& e.size == r.size
    &&& e.state == r.state
    &&& e.kind == r.kind
    &&& e.protect == r.protect
    &&& e.name@ == r.name@
    &&& e.label@ == label
}

/// Each region paired with the label at the same position; regions or
/// labels past the shorter of the two lists are dropped.
pub fn region_entries(regions: &Vec<Region>, labels: &Vec<&str>) -> (entries: Vec<RegionEntry>)
    ensures
        entries@.len() == if regions@.len() <= labels@.len() {
            regions@.len()
        } else {
            labels@.len()
        },
        forall|i: int|
            0 <= i < entries@.len() ==> entry_matches(#[trigger] entries@[i], regions@[i], labels@[i]@),
{
    let n = if regions.len() <= labels.len() {
        regions.len()
    } else {
        labels.len()
    };
    let mut entries: Vec<RegionEntry> = Vec::new();
    let mut i: usize = 0;
    while i < n
        invariant
            n <= regions@.len(),
            n <= labels@.len(),
            n == if regions@.len() <= labels@.len() {
                regions@.len()
            } else {
                labels@.len()
            },
            i <= n,
            entries@.len() == i,
            forall|j: int|
                0 <= j < i ==> entry_matches(#[trigger] entries@[j], regions@[j], labels@[j]@),
        decreases n - i,
    {
        let r = &regions[i];
        let entry = RegionEntry {
            base: r.base,
            size: r.size,
            state: r.state,
            kind: r.kind,
            protect: r.protect,
            name: r.name.clone(),
            label: labels[i].to_owned(),
        };
        let ghost before = entries@;
        entries.push(entry);
        proof {
            assert(entries@[i as int] == entry);
            assert(entry.name@ == regions@[i as int].name@);
            assert(entry.label@ == labels@[i as int]@);
            assert forall|j: int| 0 <= j < i implies entries@[j] == before[j] by {}
        }
        i = i + 1;
    }
    entries
}

/// `quick_junit::Report`, carried through opaquely.
#[verifier::external_type_specification]
#[verifier::external_body]
pub struct ExReport(Report);

/// `quick_junit::TestSuite`, carried through opaquely.
#[verifier::external_type_specification]
#[verifier::external_body]
pub struct ExTestSuite(TestSuite);

/// `quick_junit::TestCase`, carried through opaquely.
#[verifier::external_type_specification]
#[verifier::external_body]
pub struct ExTestCase(TestCase);

/// `quick_junit::TestCaseStatus`, carried through opaquely.
#[verifier::external_type_specification]
#[verifier::external_body]
pub struct ExTestCaseStatus(TestCaseStatus);

/// `quick_junit::SerializeError`, carried through opaquely.
#[verifier::external_type_specification]
#[verifier::external_body]
pub struct ExSerializeError(SerializeError);

/// The text that `quick_junit::XmlString::new` keeps of `s` (it drops ANSI
/// escapes and control characters). Every name and message a report holds is
/// stored this way.
pub uninterp spec fn xml_text(s: Seq<char>) -> Seq<char>;

/// What a `quick_junit::TestCaseStatus` holds: for a success with no flaky
/// runs, `(true, None)`; for a failure (`NonSuccessKind::Failure`) with no
/// type, description or reruns, `(false, message)`; `None` for any other status.
pub uninterp spec fn status_model(s: TestCaseStatus) -> Option<(bool, Option<Seq<char>>)>;

/// What a `quick_junit::TestCase` holds: its name and its status as
/// `status_model` gives it, when it holds nothing else (no classname,
/// assertions, time, output, extra attributes or properties) and its status
/// has a model; `None` otherwise.
pub uninterp spec fn case_model(c: TestCase) -> Option<(Seq<char>, bool, Option<Seq<char>>)>;

/// What a `quick_junit::TestSuite` holds: its name and its cases in order,
/// when it is a suite made by `TestSuite::new` to which only cases with a
/// model were added with `add_test_case`; `None` otherwise.
pub uninterp spec fn suite_model(s: TestSuite) -> Option<(Seq<char>, Seq<(Seq<char>, bool, Option<Seq<char>>)>)>;

/// What a `quick_junit::Report` holds: its name and its suites in order, when
/// it is a report made by `Report::new` to which only suites with a model
/// were added with `add_test_suite`; `None` otherwise.
pub uninterp spec fn report_model(r: Report) -> Option<
    (Seq<char>, Seq<(Seq<char>, Seq<(Seq<char>, bool, Option<Seq<char>>)>)>),
>;

/// The JUnit XML that `quick_junit::Report::to_string` writes for a report
/// with this model.
pub uninterp spec fn junit_xml(m: (Seq<char>, Seq<(Seq<char>, Seq<(Seq<char>, bool, Option<Seq<char>>)>)>)) -> Seq<
    char,
>;

/// `quick_junit::Report::new`: a report with this name and no suites.
#[verifier::external_body]
fn new_report(name: &str) -> (r: Report)
    ensures
        report_model(r) == Some((xml_text(name@), Seq::<(Seq<char>, Seq<(Seq<char>, bool, Option<Seq<char>>)>)>::empty())),
{
    Report::new(name)
}

/// `quick_junit::TestSuite::new`: a suite with this name and no cases.
#[verifier::external_body]
fn new_suite(name: &str) -> (r: TestSuite)
    ensures
        suite_model(r) == Some((xml_text(name@), Seq::<(Seq<char>, bool, Option<Seq<char>>)>::empty())),
{
    TestSuite::new(name)
}

/// `quick_junit::TestCaseStatus::success`: the status of a passed test.
#[verifier::external_body]
fn success_status() -> (r: TestCaseStatus)
    ensures
        status_model(r) == Some((true, None::<Seq<char>>)),
{
    TestCaseStatus::success()
}

/// `quick_junit::TestCaseStatus::non_success` with `NonSuccessKind::Failure`:
/// the status of a failed test, with no message yet.
#[verifier::external_body]
fn failure_status() -> (r: TestCaseStatus)
    ensures
        status_model(r) == Some((false, None::<Seq<char>>)),
{
    TestCaseStatus::non_success(NonSuccessKind::Failure)
}

/// `quick_junit::TestCaseStatus::set_message`: records the message of a
/// failure; a success is left as it is.
#[verifier::external_body]
fn set_status_message(status: &mut TestCaseStatus, message: String)
    ensures
        status_model(*old(status)) matches Some((passed, m)) ==> status_model(*final(status)) == if passed {
            Some((true, m))
        } else {
            Some((false, Some(xml_text(message@))))
        },
{
    status.set_message(message);
}

/// `quick_junit::TestCase::new`: a test case with this name and status.
#[verifier::external_body]
fn new_case(name: String, status: TestCaseStatus) -> (r: TestCase)
    ensures
        status_model(status) matches Some((passed, m)) ==> case_model(r) == Some((xml_text(name@), passed, m)),
{
    TestCase::new(name, status)
}

/// `quick_junit::TestSuite::add_test_case`: appends the case and updates the
/// suite's counts.
#[verifier::external_body]
fn add_case(suite: &mut TestSuite, case: TestCase)
    ensures
        suite_model(*old(suite)) matches Some((n, cs)) && case_model(case) matches Some(c) ==> suite_model(
            *final(suite),
        ) == Some((n, cs.push(c))),
{
    suite.add_test_case(case);
}

/// `quick_junit::Report::add_test_suite`: appends the suite and updates the
/// report's counts.
#[verifier::external_body]
fn add_suite(report: &mut Report, suite: TestSuite)
    ensures
        report_model(*old(report)) matches Some((n, ss)) && suite_model(suite) matches Some(m) ==> report_model(
            *final(report),
        ) == Some((n, ss.push(m))),
{
    report.add_test_suite(suite);
}

/// `quick_junit::Report::to_string`: the report as JUnit XML. The only
/// errors its writer can meet are those of the in-memory buffer it writes
/// into, which takes every write, so it always succeeds.
#[verifier::external_body]
fn report_xml(report: &Report) -> (xml: Result<String, SerializeError>)
    ensures
        xml is Ok,
        report_model(*report) is Some ==> xml->Ok_0@ == junit_xml(report_model(*report)->0),
{
    report.to_string()
}

/// The `Display` text of a `quick_junit::SerializeError`, which the crate
/// fixes as "error serializing JUnit report".
#[verifier::external_body]
fn serialize_error_text(e: &SerializeError) -> (text: String)
    ensures
        text@ == "error serializing JUnit report"@,
{
    format!("{}", e)
}

/// What a JUnit report's serialisation comes to: the XML as it was written,
/// or the serialiser's error with its message.
pub fn junit_outcome(written: Result<String, SerializeError>) -> (r: Result<String, ExportError>)
    ensures
        match written {
            Ok(xml) => r matches Ok(out) && out == xml,
            Err(_) => r matches Err(ExportError::Serialize(m)) && m@ == "error serializing JUnit report"@,
        },
{
    match written {
        Ok(xml) => Ok(xml),
        Err(e) => Err(ExportError::Serialize(serialize_error_text(&e))),
    }
}

/// A check result as a JUnit case: its name, passed or failed, and, for a
/// failure, its message, each as the report stores it.
pub open spec fn case_of(r: CheckResult) -> (Seq<char>, bool, Option<Seq<char>>) {
    if r.passed {
        (xml_text(r.name@), true, None)
    } else {
        (
            xml_text(r.name@),
            false,
            match r.message {
                Some(m) => Some(xml_text(m@)),
                None => None,
            },
        )
    }
}

/// The report of CI check results: named "mvis-ci-checks", with one suite,
/// "memory-checks", holding one case per result in order.
pub open spec fn junit_model(results: Seq<CheckResult>) -> (Seq<char>, Seq<(Seq<char>, Seq<(Seq<char>, bool, Option<Seq<char>>)>)>) {
    (
        xml_text("mvis-ci-checks"@),
        seq![(xml_text("memory-checks"@), results.map_values(|r: CheckResult| case_of(r)))],
    )
}

/// The JUnit XML report of CI check results: a report named
/// "mvis-ci-checks" with one suite, "memory-checks", holding one test case
/// per result, passed or failed as the result is, with the result's message
/// on a failure that has one.
pub fn heap_to_junit_xml(results: Vec<CheckResult>) -> (r: Result<String, ExportError>)
    ensures
        r matches Ok(x) && x@ == junit_xml(junit_model(results@)),
{
    let mut report = new_report("mvis-ci-checks");
    let mut suite = new_suite("memory-checks");
    let n = results.len();
    let mut i: usize = 0;
    while i < n
        invariant
            n == results@.len(),
            i <= n,
            suite_model(suite) == Some(
                (
                    xml_text("memory-checks"@),
                    results@.take(i as int).map_values(|r: CheckResult| case_of(r)),
                ),
            ),
        decreases n - i,
    {
        let name = results[i].name.clone();
        let passed = results[i].passed;
        let status = if passed {
            success_status()
        } else {
            let mut s = failure_status();
            match &results[i].message {
                Some(msg) => {
                    set_status_message(&mut s, msg.clone());
                },
                None => {},
            }
            s
        };
        let case = new_case(name, status);
        add_case(&mut suite, case);
        proof {
            assert(results@.take(i + 1).map_values(|r: CheckResult| case_of(r)) =~= results@.take(
                i as int,
            ).map_values(|r: CheckResult| case_of(r)).push(case_of(results@[i as int])));
        }
        i = i + 1;
    }
    proof {
        assert(results@.take(n as int) =~= results@);
    }
    add_suite(&mut report, suite);
    proof {
        assert(Seq::<(Seq<char>, Seq<(Seq<char>, bool, Option<Seq<char>>)>)>::empty().push(
            (xml_text("memory-checks"@), results@.map_values(|r: CheckResult| case_of(r))),
        ) =~= junit_model(results@).1);
    }
    junit_outcome(report_xml(&report))
}

} // verus!
