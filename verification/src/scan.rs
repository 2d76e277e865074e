//! The bookkeeping of a scan: what is done with each item of the walk, what
//! a source file yields, and the counts that a scan ends with.
//!
//! A scan goes through the items of a walk. A directory is counted. A file
//! is counted, and if its extension is that of a source file its text is
//! read, parsed and handed to the rule; the findings that the rule then
//! holds are drained and shown with the lines they are about. Nothing that
//! goes wrong with one item ends the scan: it is counted, and the scan goes
//! on.

use vstd::prelude::*;
use vstd::string::StringSliceAdditionalSpecFns;
use vstd::utf8::{
    encode_utf8_valid_utf8, is_char_boundary, is_char_boundary_start_end_of_seq, valid_utf8,
};

use crate::rule::{Findings, Inspect, ScanFinding};
use crate::syntax::parses;
use crate::text::{
    context, context_of, lemma_context_covers_finding, lemma_context_within_text,
    lemma_lines_in_text, lemma_lines_on_char_boundaries, line_spans, line_text, lines,
    ContextLine, LineSpan, TRAILING_CONTEXT,
};

verus! {

/// The extension of the files that are parsed.
pub const SOURCE_SUFFIX: &'static str = "rs";

/// The root that is scanned when none is named: the current directory.
pub const DEFAULT_ROOT: &'static str = ".";

/// Three counters, one for each kind of thing that a scan meets.
#[derive(Clone, Copy, Debug, PartialEq, Eq, Structural)]
pub struct ScanStats {
    dirs: u32,
    files: u32,
    ast: u32,
}

/// The mathematical form of [`ScanStats`].
pub struct Counts {
    pub dirs: nat,
    pub files: nat,
    pub ast: nat,
}

impl View for ScanStats {
    type V = Counts;

    closed spec fn view(&self) -> Counts {
        Counts { dirs: self.dirs as nat, files: self.files as nat, ast: self.ast as nat }
    }
}

impl ScanStats {
    /// The count for directories.
    pub fn dirs(&self) -> (count: u32)
        ensures
            count == self@.dirs,
    {
        self.dirs
    }

    /// The count for files.
    pub fn files(&self) -> (count: u32)
        ensures
            count == self@.files,
    {
        self.files
    }

    /// The count for source files, each of which stands for one syntax tree.
    pub fn ast(&self) -> (count: u32)
        ensures
            count == self@.ast,
    {
        self.ast
    }
}

impl Default for ScanStats {
    fn default() -> (stats: Self)
        ensures
            stats@ == (Counts { dirs: 0, files: 0, ast: 0 }),
    {
        ScanStats { dirs: 0, files: 0, ast: 0 }
    }
}

/// Why a source file gave no findings.
#[derive(Clone, Copy, Debug, PartialEq, Eq, Structural)]
pub enum ScanError {
    /// The text of the file could not be read.
    Read,
    /// The text is not a well-formed source file.
    Parse,
}

/// What became of one item of the walk.
#[derive(Clone, Copy, Debug, PartialEq, Eq)]
pub enum Visit {
    /// The walk yielded a failure: a directory could not be listed.
    WalkFailure,
    /// The walk yielded a directory.
    Directory,
    /// The walk yielded a file that is not a source file.
    PlainFile,
    /// The walk yielded a source file; the number of findings in it, or why
    /// there are none.
    SourceFile(Result<usize, ScanError>),
}

/// What is to be done with a path that the walk yielded.
#[derive(Clone, Copy, Debug, PartialEq, Eq)]
pub enum Task {
    /// Nothing but to count it.
    Record(Visit),
    /// Its text is to be read and scanned; it is counted afterwards.
    Scan,
}

/// The mathematical form of [`ScanResults`].
pub struct Tally {
    pub findings: nat,
    pub total: Counts,
    pub errors: Counts,
}

impl Tally {
    /// The tally of a scan that has met nothing yet.
    pub open spec fn zero() -> Tally {
        Tally {
            findings: 0,
            total: Counts { dirs: 0, files: 0, ast: 0 },
            errors: Counts { dirs: 0, files: 0, ast: 0 },
        }
    }

    /// What holds of every tally that a scan builds: a source file is a
    /// file, and no more source files failed than were met. A directory that
    /// could not be listed is no directory that was met, so the two counts
    /// for directories are independent.
    pub open spec fn ordered(self) -> bool {
        &&& self.errors.files + self.errors.ast <= self.total.ast
        &&& self.total.ast <= self.total.files
    }

    /// The tally with one more visit counted.
    pub open spec fn count(self, visit: Visit) -> Tally {
        match visit {
            Visit::WalkFailure => Tally {
                errors: Counts { dirs: self.errors.dirs + 1, ..self.errors },
                ..self
            },
            Visit::Directory => Tally {
                total: Counts { dirs: self.total.dirs + 1, ..self.total },
                ..self
            },
            Visit::PlainFile => Tally {
                total: Counts { files: self.total.files + 1, ..self.total },
                ..self
            },
            Visit::SourceFile(outcome) => {
                let total = Counts {
                    files: self.total.files + 1,
                    ast: self.total.ast + 1,
                    ..self.total
                };
                match outcome {
                    Ok(found) => Tally { findings: self.findings + found as nat, total, ..self },
                    Err(ScanError::Read) => Tally {
                        total,
                        errors: Counts { files: self.errors.files + 1, ..self.errors },
                        ..self
                    },
                    Err(ScanError::Parse) => Tally {
                        total,
                        errors: Counts { ast: self.errors.ast + 1, ..self.errors },
                        ..self
                    },
                }
            },
        }
    }

    /// Whether every count fits the counters.
    pub open spec fn fits(self) -> bool {
        &&& self.findings <= u32::MAX
        &&& self.total.dirs <= u32::MAX
        &&& self.total.files <= u32::MAX
        &&& self.total.ast <= u32::MAX
        &&& self.errors.dirs <= u32::MAX
        &&& self.errors.files <= u32::MAX
        &&& self.errors.ast <= u32::MAX
    }
}

/// The tally of a scan that met these visits, in their order.
pub open spec fn tally_of(visits: Seq<Visit>) -> Tally
    decreases visits.len(),
{
    if visits.len() == 0 {
        Tally::zero()
    } else {
        tally_of(visits.drop_last()).count(visits.last())
    }
}

/// How many of the visits are of one kind.
pub open spec fn number_of(visits: Seq<Visit>, kind: spec_fn(Visit) -> bool) -> nat
    decreases visits.len(),
{
    if visits.len() == 0 {
        0
    } else {
        number_of(visits.drop_last(), kind) + if kind(visits.last()) {
            1nat
        } else {
            0nat
        }
    }
}

/// The findings in all source files among the visits.
pub open spec fn findings_in(visits: Seq<Visit>) -> nat
    decreases visits.len(),
{
    if visits.len() == 0 {
        0
    } else {
        findings_in(visits.drop_last()) + match visits.last() {
            Visit::SourceFile(Ok(found)) => found as nat,
            _ => 0nat,
        }
    }
}

/// Every visit is counted once, and where it belongs: each counter holds the
/// number of visits of its kind, and the findings are those of all source
/// files together. The counts are in their order at every point of a scan.
pub proof fn lemma_tally_counts_each_visit_once(visits: Seq<Visit>)
    ensures
        tally_of(visits).ordered(),
        tally_of(visits).findings == findings_in(visits),
        tally_of(visits).total.dirs == number_of(visits, |v: Visit| v is Directory),
        tally_of(visits).total.files == number_of(visits, |v: Visit| v is PlainFile || v is SourceFile),
        tally_of(visits).total.ast == number_of(visits, |v: Visit| v is SourceFile),
        tally_of(visits).errors.dirs == number_of(visits, |v: Visit| v is WalkFailure),
        tally_of(visits).errors.files == number_of(
            visits,
            |v: Visit| v == Visit::SourceFile(Err(ScanError::Read)),
        ),
        tally_of(visits).errors.ast == number_of(
            visits,
            |v: Visit| v == Visit::SourceFile(Err(ScanError::Parse)),
        ),
    decreases visits.len(),
{
    if visits.len() > 0 {
        lemma_tally_counts_each_visit_once(visits.drop_last());
    }
}

/// Counting a visit keeps the counts in their order: no more failures than
/// source files, no more source files than files.
pub proof fn lemma_count_keeps_order(tally: Tally, visit: Visit)
    requires
        tally.ordered(),
    ensures
        tally.count(visit).ordered(),
{
}

/// A source file that cannot be parsed adds one to the source files met and
/// one to those that failed to parse. It adds no finding and no other
/// failure.
pub proof fn lemma_parse_failure_counts(tally: Tally)
    ensures
        ({
            let after = tally.count(Visit::SourceFile(Err(ScanError::Parse)));
            &&& after.total.ast == tally.total.ast + 1
            &&& after.errors.ast == tally.errors.ast + 1
            &&& after.total.files == tally.total.files + 1
            &&& after.total.dirs == tally.total.dirs
            &&& after.findings == tally.findings
            &&& after.errors.files == tally.errors.files
            &&& after.errors.dirs == tally.errors.dirs
        }),
{
}

/// A source file that cannot be read adds one to the files that failed and
/// to no other failure; the findings counted before it stay, and those of
/// the files after it are added as ever.
pub proof fn lemma_read_failure_counts(tally: Tally, found: usize)
    ensures
        ({
            let after = tally.count(Visit::SourceFile(Err(ScanError::Read)));
            &&& after.errors.files == tally.errors.files + 1
            &&& after.errors.ast == tally.errors.ast
            &&& after.errors.dirs == tally.errors.dirs
            &&& after.total.files == tally.total.files + 1
            &&& after.total.ast == tally.total.ast + 1
            &&& after.findings == tally.findings
            &&& after.count(Visit::SourceFile(Ok(found))).findings == tally.findings + found
            &&& after.count(Visit::SourceFile(Ok(found))).errors == after.errors
        }),
{
}

/// The counts of one scan.
#[derive(Clone, Copy, Debug, PartialEq, Eq, Structural)]
pub struct ScanResults {
    findings: u32,
    total: ScanStats,
    errors: ScanStats,
}

impl View for ScanResults {
    type V = Tally;

    closed spec fn view(&self) -> Tally {
        Tally { findings: self.findings as nat, total: self.total@, errors: self.errors@ }
    }
}

impl ScanResults {
    #[verifier::type_invariant]
    spec fn ordered(self) -> bool {
        self@.ordered()
    }

    /// The counts of a scan that has met nothing yet.
    pub fn new() -> (results: Self)
        ensures
            results@ == Tally::zero(),
    {
        ScanResults {
            findings: 0,
            total: ScanStats { dirs: 0, files: 0, ast: 0 },
            errors: ScanStats { dirs: 0, files: 0, ast: 0 },
        }
    }

    /// The number of findings.
    pub fn findings(&self) -> (count: u32)
        ensures
            count == self@.findings,
            self@.ordered(),
    {
        proof {
            use_type_invariant(self);
        }
        self.findings
    }

    /// What was met: directories, files, and source files among the files.
    pub fn total(&self) -> (stats: ScanStats)
        ensures
            stats@ == self@.total,
            self@.ordered(),
    {
        proof {
            use_type_invariant(self);
        }
        self.total
    }

    /// What went wrong: directories that could not be listed, source files
    /// that could not be read, and source files that could not be parsed.
    pub fn errors(&self) -> (stats: ScanStats)
        ensures
            stats@ == self@.errors,
            self@.ordered(),
    {
        proof {
            use_type_invariant(self);
        }
        self.errors
    }

    /// Whether `visit` can be counted without a counter running over.
    pub fn has_room(&self, visit: &Visit) -> (room: bool)
        ensures
            room == self@.count(*visit).fits(),
    {
        match visit {
            Visit::WalkFailure => self.errors.dirs < u32::MAX,
            Visit::Directory => self.total.dirs < u32::MAX,
            Visit::PlainFile => self.total.files < u32::MAX,
            Visit::SourceFile(outcome) => {
                self.total.files < u32::MAX && self.total.ast < u32::MAX && match outcome {
                    Ok(found) => *found <= (u32::MAX - self.findings) as usize,
                    Err(ScanError::Read) => self.errors.files < u32::MAX,
                    Err(ScanError::Parse) => self.errors.ast < u32::MAX,
                }
            },
        }
    }

    /// Counts one visit.
    pub fn record(&mut self, visit: &Visit)
        requires
            old(self)@.count(*visit).fits(),
        ensures
            final(self)@ == old(self)@.count(*visit),
            final(self)@.ordered(),
    {
        proof {
            use_type_invariant(&*self);
        }
        match visit {
            Visit::WalkFailure => {
                self.errors.dirs = self.errors.dirs + 1;
            },
            Visit::Directory => {
                self.total.dirs = self.total.dirs + 1;
            },
            Visit::PlainFile => {
                self.total.files = self.total.files + 1;
            },
            Visit::SourceFile(outcome) => {
                self.total.files = self.total.files + 1;
                self.total.ast = self.total.ast + 1;
                match outcome {
                    Ok(found) => {
                        self.findings = self.findings + (*found as u32);
                    },
                    Err(ScanError::Read) => {
                        self.errors.files = self.errors.files + 1;
                    },
                    Err(ScanError::Parse) => {
                        self.errors.ast = self.errors.ast + 1;
                    },
                }
            },
        }
    }
}

impl Default for ScanResults {
    fn default() -> (results: Self)
        ensures
            results@ == Tally::zero(),
    {
        ScanResults::new()
    }
}

/// One line of a source text as it is shown with a finding: its number,
/// counted from 1, and its text without the line ending.
#[derive(Clone, Copy, Debug, PartialEq, Eq)]
pub struct ShownLine<'a> {
    pub number: usize,
    pub text: &'a str,
}

/// One finding as it is shown: the finding, and the lines of the source
/// text that go with it.
#[derive(Debug)]
pub struct Report<'a> {
    pub finding: ScanFinding,
    pub context: Vec<ShownLine<'a>>,
}

/// Whether `shown` is the line `line` of a source text with these bytes.
pub open spec fn shows_line(shown: ShownLine, bytes: Seq<u8>, line: ContextLine) -> bool {
    &&& shown.number == line.number
    &&& shown.text.spec_bytes() == bytes.subrange(line.span.start as int, line.span.end as int)
}

/// Whether the lines of `context` are those that are shown with a finding
/// on lines `start` to `end` of a source text with these bytes: the lines
/// from `start` to two past `end`, as far as the text has them.
pub open spec fn shows_lines(context: Seq<ShownLine>, bytes: Seq<u8>, start: usize, end: usize) -> bool {
    let window = context_of(lines(bytes), start as int, end as int);
    &&& context.len() == window.len()
    &&& forall|k: int| 0 <= k < window.len() ==> shows_line(#[trigger] context[k], bytes, window[k])
}

/// Whether `report` shows `finding` with the lines that belong to it in a
/// source text with these bytes.
pub open spec fn shows(report: Report, bytes: Seq<u8>, finding: ScanFinding) -> bool {
    &&& report.finding == finding
    &&& shows_lines(report.context@, bytes, finding.start, finding.end)
}

/// A finding that names a proper range of lines of the text is shown with
/// every one of its lines, the first of them first, and with at most two
/// lines more.
pub proof fn lemma_report_covers_finding(report: Report, bytes: Seq<u8>, finding: ScanFinding)
    requires
        shows(report, bytes, finding),
        finding.is_span(),
        finding.end <= lines(bytes).len() <= usize::MAX,
    ensures
        finding.end - finding.start + 1 <= report.context@.len() <= finding.end - finding.start + 1
            + TRAILING_CONTEXT,
        forall|k: int|
            0 <= k < report.context@.len() ==> (#[trigger] report.context@[k]).number
                == finding.start + k,
{
    let window = context_of(lines(bytes), finding.start as int, finding.end as int);
    lemma_context_within_text(lines(bytes), finding.start as int, finding.end as int);
    lemma_context_covers_finding(lines(bytes), finding.start as int, finding.end as int);
    assert forall|k: int| 0 <= k < report.context@.len() implies (#[trigger] report.context@[k]).number
        == finding.start + k by {
        assert(shows_line(report.context@[k], bytes, window[k]));
    }
}

/// Whether an extension is that of a source file.
pub fn is_source_suffix(extension: &str) -> (source: bool)
    ensures
        source == (extension@ == SOURCE_SUFFIX@),
{
    broadcast use vstd::string::group_string_axioms;

    proof {
        reveal_strlit("rs");
    }
    let mut chars = extension.chars();
    let first = chars.next();
    let second = chars.next();
    let third = chars.next();
    let source = first == Some('r') && second == Some('s') && third.is_none();
    assert(source ==> extension@ =~= SOURCE_SUFFIX@);
    source
}

/// What is to be done with an item of the walk, where `is_dir` and
/// `extension` tell what the path of the item is: whether it is a directory,
/// and the extension of its last component, if that has one.
pub open spec fn task_of<P, E>(item: Result<P, E>, is_dir: bool, extension: Option<&str>) -> Task {
    if item is Err {
        Task::Record(Visit::WalkFailure)
    } else if is_dir {
        Task::Record(Visit::Directory)
    } else if extension is Some && extension->0@ == SOURCE_SUFFIX@ {
        Task::Scan
    } else {
        Task::Record(Visit::PlainFile)
    }
}

/// Says what is to be done with an item of the walk. A failure of the walk
/// is counted as one, whatever is said of a path. A directory is counted; a
/// file with the extension of a source file is to be scanned; any other file
/// is counted as a plain file.
pub fn task_for<P, E>(item: &Result<P, E>, is_dir: bool, extension: Option<&str>) -> (task: Task)
    ensures
        task == task_of(*item, is_dir, extension),
{
    match item {
        Err(_) => Task::Record(Visit::WalkFailure),
        Ok(_) => {
            if is_dir {
                Task::Record(Visit::Directory)
            } else {
                match extension {
                    Some(suffix) => {
                        if is_source_suffix(suffix) {
                            Task::Scan
                        } else {
                            Task::Record(Visit::PlainFile)
                        }
                    },
                    None => Task::Record(Visit::PlainFile),
                }
            }
        },
    }
}

/// The visit to count for a source file that was scanned with this outcome:
/// one finding for each report, or the failure.
pub fn visit_for(outcome: &Result<Vec<Report>, ScanError>) -> (visit: Visit)
    ensures
        visit == match *outcome {
            Ok(reports) => Visit::SourceFile(Ok(reports@.len() as usize)),
            Err(error) => Visit::SourceFile(Err(error)),
        },
{
    match outcome {
        Ok(reports) => Visit::SourceFile(Ok(reports.len())),
        Err(error) => Visit::SourceFile(Err(*error)),
    }
}

/// Picks the root of a scan from the arguments of the program: the first
/// argument after the program's name, or the current directory.
pub fn root_from_args<'a>(args: &'a Vec<String>) -> (root: &'a str)
    ensures
        root@ == if args@.len() > 1 {
            args@[1]@
        } else {
            DEFAULT_ROOT@
        },
{
    if args.len() > 1 {
        args[1].as_str()
    } else {
        DEFAULT_ROOT
    }
}

/// Cuts the lines that are shown with a finding on lines `start` to `end`
/// out of `content`, whose lines are `spans`.
fn shown_lines<'a>(content: &'a str, spans: &Vec<LineSpan>, start: usize, end: usize) -> (shown: Vec<
    ShownLine<'a>,
>)
    requires
        spans@ == lines(content.spec_bytes()),
    ensures
        shows_lines(shown@, content.spec_bytes(), start, end),
{
    let ghost bytes = content.spec_bytes();
    let window = context(spans, start, end);
    // The length of a text fits a machine integer.
    let size = content.as_bytes().len();
    proof {
        encode_utf8_valid_utf8(content@);
        is_char_boundary_start_end_of_seq(bytes);
        lemma_lines_in_text(bytes, 0);
        lemma_lines_on_char_boundaries(bytes, 0);
        lemma_context_within_text(spans@, start as int, end as int);
    }
    let mut shown: Vec<ShownLine<'a>> = Vec::new();
    let mut k: usize = 0;
    while k < window.len()
        invariant
            k <= window@.len(),
            bytes == content.spec_bytes(),
            valid_utf8(bytes),
            spans@ == lines(bytes),
            window@ == context_of(spans@, start as int, end as int),
            forall|i: int|
                0 <= i < spans@.len() ==> (#[trigger] spans@[i]).start <= spans@[i].end
                    <= bytes.len() && is_char_boundary(bytes, spans@[i].start as int)
                    && is_char_boundary(bytes, spans@[i].end as int),
            forall|i: int|
                0 <= i < window@.len() ==> 1 <= (#[trigger] window@[i]).number <= spans@.len()
                    && window@[i].span == spans@[window@[i].number - 1],
            shown@.len() == k,
            forall|i: int| 0 <= i < k ==> shows_line(#[trigger] shown@[i], bytes, window@[i]),
        decreases window@.len() - k,
    {
        let line = window[k];
        let text = line_text(content, line.span);
        shown.push(ShownLine { number: line.number, text });
        k += 1;
    }
    shown
}

/// Puts each finding together with the lines of `content` that are shown
/// with it, in the order of the findings.
pub fn report<'a>(content: &'a str, findings: Vec<ScanFinding>) -> (reports: Vec<Report<'a>>)
    ensures
        reports@.len() == findings@.len(),
        forall|i: int|
            0 <= i < reports@.len() ==> shows(
                #[trigger] reports@[i],
                content.spec_bytes(),
                findings@[i],
            ),
{
    broadcast use vstd::std_specs::vec::group_vec_axioms;

    let spans = line_spans(content.as_bytes());
    let ghost all = findings@;
    let mut reports: Vec<Report<'a>> = Vec::new();
    for finding in rest: findings
        invariant
            spans@ == lines(content.spec_bytes()),
            rest.seq() == all,
            reports@.len() == rest.index(),
            forall|i: int|
                0 <= i < reports@.len() ==> shows(
                    #[trigger] reports@[i],
                    content.spec_bytes(),
                    all[i],
                ),
    {
        let context = shown_lines(content, &spans, finding.start, finding.end);
        reports.push(Report { finding, context });
    }
    reports
}

/// A rule at work on the files of a scan.
pub struct Scanner<T: Findings + Inspect> {
    rule: T,
}

impl<T: Findings + Inspect> Scanner<T> {
    /// The rule that the scanner runs.
    pub closed spec fn rule(&self) -> T {
        self.rule
    }

    /// A scanner that runs `rule`.
    pub fn new(rule: T) -> (scanner: Self)
        ensures
            scanner.rule() == rule,
    {
        Self { rule }
    }

    /// Scans one source file, given its text, or `None` if the text could
    /// not be read.
    ///
    /// A file that could not be read or parsed gives the matching error and
    /// leaves the rule untouched. Otherwise the rule visits the syntax tree
    /// and is drained; the findings come back in the order in which the rule
    /// handed them over, each with the lines that are shown with it.
    pub fn scan_file<'a>(&mut self, loaded: Option<&'a str>) -> (outcome: Result<
        Vec<Report<'a>>,
        ScanError,
    >)
        ensures
            loaded is None ==> outcome == Err::<Vec<Report>, ScanError>(ScanError::Read),
            loaded is Some && !parses(loaded->0@) ==> outcome == Err::<Vec<Report>, ScanError>(
                ScanError::Parse,
            ),
            loaded is Some && parses(loaded->0@) ==> outcome is Ok,
            outcome is Err ==> final(self).rule() == old(self).rule(),
            outcome matches Ok(reports) ==> forall|i: int|
                0 <= i < reports@.len() ==> shows_lines(
                    (#[trigger] reports@[i]).context@,
                    loaded->0.spec_bytes(),
                    reports@[i].finding.start,
                    reports@[i].finding.end,
                ),
    {
        match loaded {
            None => Err(ScanError::Read),
            Some(content) => {
                match syn::parse_file(content) {
                    Err(_) => Err(ScanError::Parse),
                    Ok(tree) => {
                        self.rule.inspect(&tree);
                        let findings = self.rule.consume_findings();
                        Ok(report(content, findings))
                    },
                }
            },
        }
    }
}

} // verus!
