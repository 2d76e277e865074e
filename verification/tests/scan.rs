use rast::scan::{is_source_suffix, report, root_from_args, task_for, visit_for};
use rast::{
    found_function, BaseRule, Findings, Inspect, Report, ScanError, ScanFinding, ScanResults, ScanStats, Scanner,
    ShownLine, Task, Visit,
};
use syn::visit::Visit as _;

/// Reports every function-like declaration with the line of its name.
#[derive(Default)]
struct FunctionRule {
    base: BaseRule,
    visits: usize,
}

impl FunctionRule {
    fn report_fn(&mut self, sig: &syn::Signature) {
        let span = sig.ident.span();
        let name = sig.ident.to_string();
        self.base.add_finding(found_function(&name, span.start().line, span.end().line));
    }
}

impl<'ast> syn::visit::Visit<'ast> for FunctionRule {
    fn visit_item(&mut self, item: &'ast syn::Item) {
        self.base.push(item);
        syn::visit::visit_item(self, item);
        self.base.pop();
    }

    fn visit_foreign_item_fn(&mut self, item: &'ast syn::ForeignItemFn) {
        self.report_fn(&item.sig);
    }

    fn visit_item_fn(&mut self, item: &'ast syn::ItemFn) {
        self.report_fn(&item.sig);
    }

    fn visit_impl_item_fn(&mut self, item: &'ast syn::ImplItemFn) {
        self.report_fn(&item.sig);
    }

    fn visit_trait_item_fn(&mut self, item: &'ast syn::TraitItemFn) {
        self.report_fn(&item.sig);
    }
}

impl Findings for FunctionRule {
    fn consume_findings(&mut self) -> Vec<ScanFinding> {
        self.base.consume_findings()
    }
}

impl Inspect for FunctionRule {
    fn inspect(&mut self, tree: &syn::File) {
        self.visits += 1;
        self.visit_file(tree);
        assert!(self.base.stack.is_empty(), "every node that was entered was left");
    }
}

/// A rule that keeps what it is given until it is drained, and counts how
/// often it is asked to visit.
struct Canned {
    ready: Vec<ScanFinding>,
}

impl Findings for Canned {
    fn consume_findings(&mut self) -> Vec<ScanFinding> {
        std::mem::take(&mut self.ready)
    }
}

impl Inspect for Canned {
    fn inspect(&mut self, _tree: &syn::File) {}
}

fn finding(text: &str, start: usize, end: usize) -> ScanFinding {
    ScanFinding { text: text.to_string(), start, end }
}

fn shown(number: usize, text: &str) -> ShownLine<'_> {
    ShownLine { number, text }
}

fn counts(stats: ScanStats) -> (u32, u32, u32) {
    (stats.dirs(), stats.files(), stats.ast())
}

/// The counts of results as (findings, total, errors).
fn all(results: &ScanResults) -> (u32, (u32, u32, u32), (u32, u32, u32)) {
    (results.findings(), counts(results.total()), counts(results.errors()))
}

fn after(visits: &[Visit]) -> ScanResults {
    let mut results = ScanResults::new();
    for visit in visits {
        assert!(results.has_room(visit));
        results.record(visit);
    }
    results
}

const THREE_FUNCTIONS: &str = "fn free() {}\n\nstruct S;\n\nimpl S {\n    fn method(&self) {}\n}\n\ntrait T {\n    fn required(&self);\n}\n";

#[test]
fn fresh_results_are_all_zero() {
    assert_eq!(all(&ScanResults::new()), (0, (0, 0, 0), (0, 0, 0)));
    assert_eq!(all(&ScanResults::default()), (0, (0, 0, 0), (0, 0, 0)));
    assert_eq!(counts(ScanStats::default()), (0, 0, 0));
}

#[test]
fn directory_counts_as_a_directory() {
    assert_eq!(all(&after(&[Visit::Directory])), (0, (1, 0, 0), (0, 0, 0)));
}

#[test]
fn plain_file_counts_as_a_file_only() {
    assert_eq!(all(&after(&[Visit::PlainFile])), (0, (0, 1, 0), (0, 0, 0)));
}

#[test]
fn walk_failure_counts_as_a_directory_error_only() {
    assert_eq!(all(&after(&[Visit::WalkFailure])), (0, (0, 0, 0), (1, 0, 0)));
}

#[test]
fn source_file_counts_its_findings() {
    assert_eq!(all(&after(&[Visit::SourceFile(Ok(4))])), (4, (0, 1, 1), (0, 0, 0)));
    assert_eq!(all(&after(&[Visit::SourceFile(Ok(0))])), (0, (0, 1, 1), (0, 0, 0)));
}

#[test]
fn parse_failure_counts_one_tree_and_one_tree_error() {
    let results = after(&[Visit::SourceFile(Ok(2)), Visit::SourceFile(Err(ScanError::Parse))]);
    assert_eq!(all(&results), (2, (0, 2, 2), (0, 0, 1)));
}

#[test]
fn read_failure_counts_one_file_error() {
    let results = after(&[Visit::SourceFile(Err(ScanError::Read))]);
    assert_eq!(all(&results), (0, (0, 1, 1), (0, 1, 0)));
}

#[test]
fn counts_add_up_over_a_scan() {
    let results = after(&[
        Visit::Directory,
        Visit::SourceFile(Ok(3)),
        Visit::PlainFile,
        Visit::Directory,
        Visit::WalkFailure,
        Visit::SourceFile(Err(ScanError::Parse)),
        Visit::SourceFile(Ok(1)),
        Visit::SourceFile(Err(ScanError::Read)),
        Visit::PlainFile,
    ]);
    assert_eq!(all(&results), (4, (2, 6, 4), (1, 1, 1)));
    let (total, errors) = (results.total(), results.errors());
    assert!(errors.files() + errors.ast() <= total.ast());
    assert!(total.ast() <= total.files());
}

#[test]
fn results_are_plain_values() {
    let one = after(&[Visit::Directory, Visit::SourceFile(Ok(2))]);
    let two = one;
    assert_eq!(one, two);
    assert_ne!(one, ScanResults::new());
}

#[test]
fn room_runs_out_at_the_largest_count() {
    let results = after(&[Visit::SourceFile(Ok(u32::MAX as usize - 1))]);
    assert!(results.has_room(&Visit::SourceFile(Ok(1))));
    assert!(!results.has_room(&Visit::SourceFile(Ok(2))));
    assert!(!results.has_room(&Visit::SourceFile(Ok(usize::MAX))));
    assert!(results.has_room(&Visit::SourceFile(Err(ScanError::Parse))));
    assert!(results.has_room(&Visit::Directory));
    let mut full = results;
    full.record(&Visit::SourceFile(Ok(1)));
    assert_eq!(full.findings(), u32::MAX);
    assert!(full.has_room(&Visit::SourceFile(Ok(0))));
    assert!(!full.has_room(&Visit::SourceFile(Ok(1))));
}

#[test]
fn only_the_source_suffix_is_one() {
    assert!(is_source_suffix("rs"));
    for other in ["", "r", "s", "rss", "RS", "Rs", "sr", "rs ", " rs", ".rs", "txt", "r\u{455}"] {
        assert!(!is_source_suffix(other), "{:?} is no source suffix", other);
    }
}

#[test]
fn task_depends_on_what_the_item_is() {
    let path: Result<&str, ()> = Ok("some/path");
    assert_eq!(task_for(&path, true, None), Task::Record(Visit::Directory));
    assert_eq!(task_for(&path, true, Some("rs")), Task::Record(Visit::Directory));
    assert_eq!(task_for(&path, false, Some("rs")), Task::Scan);
    assert_eq!(task_for(&path, false, Some("txt")), Task::Record(Visit::PlainFile));
    assert_eq!(task_for(&path, false, Some("")), Task::Record(Visit::PlainFile));
    assert_eq!(task_for(&path, false, None), Task::Record(Visit::PlainFile));
}

#[test]
fn failed_item_is_a_walk_failure_whatever_else_is_said() {
    let failed: Result<&str, &str> = Err("denied");
    assert_eq!(task_for(&failed, false, None), Task::Record(Visit::WalkFailure));
    assert_eq!(task_for(&failed, true, None), Task::Record(Visit::WalkFailure));
    assert_eq!(task_for(&failed, false, Some("rs")), Task::Record(Visit::WalkFailure));
}

#[test]
fn root_is_the_first_argument_or_the_current_directory() {
    let args = |list: &[&str]| list.iter().map(|a| a.to_string()).collect::<Vec<String>>();
    assert_eq!(root_from_args(&args(&[])), ".");
    assert_eq!(root_from_args(&args(&["prog"])), ".");
    assert_eq!(root_from_args(&args(&["prog", "src"])), "src");
    assert_eq!(root_from_args(&args(&["prog", "/a/b", "ignored"])), "/a/b");
    assert_eq!(root_from_args(&args(&["prog", ""])), "");
}

#[test]
fn report_pairs_each_finding_with_its_lines() {
    let content = "one\ntwo\nthree\nfour\nfive\nsix\n";
    let reports = report(content, vec![finding("mid", 2, 3), finding("end", 6, 6), finding("off", 9, 9)]);
    assert_eq!(reports.len(), 3);
    assert_eq!(reports[0].finding.text, "mid");
    assert_eq!((reports[0].finding.start, reports[0].finding.end), (2, 3));
    assert_eq!(
        reports[0].context,
        vec![shown(2, "two"), shown(3, "three"), shown(4, "four"), shown(5, "five")]
    );
    assert_eq!(reports[1].finding.text, "end");
    assert_eq!(reports[1].context, vec![shown(6, "six")]);
    assert_eq!(reports[2].finding.text, "off");
    assert!(reports[2].context.is_empty());
}

#[test]
fn shown_lines_are_cut_between_characters() {
    let content = "// h\u{e9}llo\r\nfn w\u{f6}rld() {}\r\n// \u{4e16}\u{754c}\u{1f600}\n\u{1f600}";
    let reports = report(content, vec![finding("all", 1, 2)]);
    assert_eq!(
        reports[0].context,
        vec![
            shown(1, "// h\u{e9}llo"),
            shown(2, "fn w\u{f6}rld() {}"),
            shown(3, "// \u{4e16}\u{754c}\u{1f600}"),
            shown(4, "\u{1f600}"),
        ]
    );
    let expected: Vec<&str> = content.lines().collect();
    let texts: Vec<&str> = reports[0].context.iter().map(|line| line.text).collect();
    assert_eq!(texts, expected);
}

#[test]
fn report_of_no_findings_is_empty() {
    assert!(report("text\n", Vec::new()).is_empty());
}

#[test]
fn visit_counts_one_finding_for_each_report() {
    let reports: Result<Vec<Report>, ScanError> = Ok(report("a\nb\n", vec![finding("x", 1, 1), finding("y", 2, 2)]));
    assert_eq!(visit_for(&reports), Visit::SourceFile(Ok(2)));
    assert_eq!(visit_for(&Ok(Vec::new())), Visit::SourceFile(Ok(0)));
    assert_eq!(visit_for(&Err(ScanError::Read)), Visit::SourceFile(Err(ScanError::Read)));
    assert_eq!(visit_for(&Err(ScanError::Parse)), Visit::SourceFile(Err(ScanError::Parse)));
}

#[test]
fn unreadable_file_is_a_read_error_and_the_rule_is_not_asked() {
    let mut scanner = Scanner::new(Canned { ready: vec![finding("stale", 1, 1)] });
    assert_eq!(scanner.scan_file(None).unwrap_err(), ScanError::Read);
    // The rule still holds what it held: the next good file drains it.
    let reports = scanner.scan_file(Some("fn ok() {}\n")).unwrap();
    assert_eq!(reports.len(), 1);
    assert_eq!(reports[0].finding.text, "stale");
}

#[test]
fn file_with_a_parse_error_gives_no_findings() {
    let mut scanner = Scanner::new(FunctionRule::default());
    let outcome = scanner.scan_file(Some("fn broken( {\n"));
    assert_eq!(outcome.unwrap_err(), ScanError::Parse);
    let visit = visit_for(&Err(ScanError::Parse));
    let mut results = ScanResults::new();
    results.record(&visit);
    assert_eq!(results.errors().ast(), 1);
    assert_eq!(results.total().ast(), 1);
    assert_eq!(results.findings(), 0);
    assert_eq!(all(&results), (0, (0, 1, 1), (0, 0, 1)));
}

#[test]
fn parse_error_leaves_the_rule_untouched() {
    let mut scanner = Scanner::new(Canned { ready: vec![finding("held", 2, 2)] });
    for bad in ["fn (", "struct", "}", "let x = 1;", "fn f() { \"open }"] {
        assert_eq!(scanner.scan_file(Some(bad)).unwrap_err(), ScanError::Parse, "{:?}", bad);
    }
    let reports = scanner.scan_file(Some("")).unwrap();
    assert_eq!(reports.len(), 1);
    assert_eq!(reports[0].finding.text, "held");
}

#[test]
fn empty_and_odd_sources_parse() {
    let mut scanner = Scanner::new(FunctionRule::default());
    assert!(scanner.scan_file(Some("")).unwrap().is_empty());
    assert!(scanner.scan_file(Some("\u{feff}struct WithByteOrderMark;\n")).unwrap().is_empty());
    let reports = scanner.scan_file(Some("#!/usr/bin/env run\nfn main() {}\n")).unwrap();
    assert_eq!(reports.len(), 1);
    assert_eq!(reports[0].finding.text, "Found function: main");
    assert_eq!((reports[0].finding.start, reports[0].finding.end), (2, 2));
}

#[test]
fn function_rule_reports_three_function_like_declarations() {
    let mut scanner = Scanner::new(FunctionRule::default());
    let reports = scanner.scan_file(Some(THREE_FUNCTIONS)).unwrap();
    let found: Vec<(&str, usize, usize)> =
        reports.iter().map(|r| (r.finding.text.as_str(), r.finding.start, r.finding.end)).collect();
    assert_eq!(
        found,
        vec![
            ("Found function: free", 1, 1),
            ("Found function: method", 6, 6),
            ("Found function: required", 10, 10),
        ]
    );
    for report in &reports {
        assert!(report.finding.text.starts_with("Found function: "));
        assert_eq!(report.finding.start, report.finding.end);
    }
    // Each finding sits on the line that holds the name.
    let lines: Vec<&str> = THREE_FUNCTIONS.lines().collect();
    assert!(lines[0].contains("fn free"));
    assert!(lines[5].contains("fn method"));
    assert!(lines[9].contains("fn required"));
}

#[test]
fn findings_are_shown_with_two_lines_of_trailing_context() {
    let mut scanner = Scanner::new(FunctionRule::default());
    let reports = scanner.scan_file(Some(THREE_FUNCTIONS)).unwrap();
    assert_eq!(reports[0].context, vec![shown(1, "fn free() {}"), shown(2, ""), shown(3, "struct S;")]);
    assert_eq!(
        reports[1].context,
        vec![shown(6, "    fn method(&self) {}"), shown(7, "}"), shown(8, "")]
    );
}

#[test]
fn finding_near_the_end_is_shown_with_the_lines_that_are_left() {
    let mut scanner = Scanner::new(FunctionRule::default());
    let reports = scanner.scan_file(Some(THREE_FUNCTIONS)).unwrap();
    // The file has 11 lines; line 12 is asked for and is not there.
    assert_eq!(THREE_FUNCTIONS.lines().count(), 11);
    assert_eq!(reports[2].context, vec![shown(10, "    fn required(&self);"), shown(11, "}")]);
    let mut last = Scanner::new(FunctionRule::default());
    let reports = last.scan_file(Some("// lead\nfn tail() {}")).unwrap();
    assert_eq!(reports.len(), 1);
    assert_eq!(reports[0].context, vec![shown(2, "fn tail() {}")]);
}

#[test]
fn foreign_functions_are_reported_too() {
    let mut scanner = Scanner::new(FunctionRule::default());
    let reports = scanner.scan_file(Some("extern \"C\" {\n    fn outside(x: i32) -> i32;\n}\n")).unwrap();
    assert_eq!(reports.len(), 1);
    assert_eq!(reports[0].finding.text, "Found function: outside");
    assert_eq!((reports[0].finding.start, reports[0].finding.end), (2, 2));
}

#[test]
fn each_file_is_drained_before_the_next() {
    let mut scanner = Scanner::new(FunctionRule::default());
    assert_eq!(scanner.scan_file(Some("fn a() {}\nfn b() {}\n")).unwrap().len(), 2);
    assert_eq!(scanner.scan_file(Some("struct NoFunctions;\n")).unwrap().len(), 0);
    assert_eq!(scanner.scan_file(Some("fn c() {}\n")).unwrap().len(), 1);
}

/// One entry of a pretended scan: whether it is a directory, its extension,
/// and its text if it can be read.
struct Entry {
    failed: bool,
    is_dir: bool,
    extension: Option<&'static str>,
    text: Option<&'static str>,
}

fn file(extension: &'static str, text: Option<&'static str>) -> Entry {
    Entry { failed: false, is_dir: false, extension: Some(extension), text }
}

/// Scans the entries as a scan of a directory does, and gives the results
/// and the texts of all findings.
fn scan(entries: &[Entry]) -> (ScanResults, Vec<String>) {
    let mut scanner = Scanner::new(FunctionRule::default());
    let mut results = ScanResults::new();
    let mut texts = Vec::new();
    for entry in entries {
        let item: Result<(), ()> = if entry.failed { Err(()) } else { Ok(()) };
        let visit = match task_for(&item, entry.is_dir, entry.extension) {
            Task::Record(visit) => visit,
            Task::Scan => {
                let outcome = scanner.scan_file(entry.text);
                if let Ok(reports) = &outcome {
                    texts.extend(reports.iter().map(|r| r.finding.text.clone()));
                }
                visit_for(&outcome)
            }
        };
        assert!(results.has_room(&visit));
        results.record(&visit);
    }
    (results, texts)
}

#[test]
fn unreadable_file_among_valid_files_costs_one_file_error() {
    let entries = [
        Entry { failed: false, is_dir: true, extension: None, text: None },
        file("rs", Some("fn one() {}\n")),
        file("rs", None),
        file("rs", Some("fn two() {}\nfn three() {}\n")),
        file("md", None),
    ];
    let (results, texts) = scan(&entries);
    assert_eq!(texts, vec!["Found function: one", "Found function: two", "Found function: three"]);
    assert_eq!(results.findings(), 3);
    assert_eq!(counts(results.errors()), (0, 1, 0));
    assert_eq!(counts(results.total()), (1, 4, 3));
}

#[test]
fn nothing_that_goes_wrong_ends_a_scan() {
    let entries = [
        Entry { failed: true, is_dir: false, extension: None, text: None },
        file("rs", Some("fn (")),
        file("rs", None),
        Entry { failed: false, is_dir: true, extension: Some("rs"), text: None },
        file("rs", Some("trait T { fn m(&self); }\n")),
    ];
    let (results, texts) = scan(&entries);
    assert_eq!(texts, vec!["Found function: m"]);
    assert_eq!(all(&results), (1, (1, 3, 3), (1, 1, 1)));
}

#[test]
fn files_that_are_no_sources_are_never_read() {
    let entries = [file("txt", Some("fn not_scanned() {}")), file("", Some("fn nor_this() {}"))];
    let (results, texts) = scan(&entries);
    assert!(texts.is_empty());
    assert_eq!(all(&results), (0, (0, 2, 0), (0, 0, 0)));
}

/// What a path of a pretended disk is: a link, a directory with its listing,
/// a directory that cannot be listed, or a file with its text if readable.
enum OnDisk {
    Link,
    Dir(Vec<&'static str>),
    Sealed,
    File(Option<&'static str>),
}

/// Scans a pretended disk from `root` in the way a scan of a real one goes:
/// walks it, scans every readable source file, counts everything.
fn scan_disk(disk: &[(&'static str, OnDisk)], root: &'static str) -> (ScanResults, Vec<String>) {
    let find = |path: &str| disk.iter().find(|(name, _)| *name == path).map(|(_, node)| node);
    let mut walker = rast::DirIter::new(root);
    let mut scanner = Scanner::new(FunctionRule::default());
    let mut results = ScanResults::new();
    let mut texts = Vec::new();
    loop {
        let item = loop {
            let Some(path) = walker.pull() else { return (results, texts) };
            let found = match find(path) {
                None => rast::Probe::Unreadable,
                Some(OnDisk::Link) => rast::Probe::Symlink,
                Some(OnDisk::File(_)) => rast::Probe::File,
                Some(OnDisk::Dir(children)) => rast::Probe::Dir(children.clone()),
                Some(OnDisk::Sealed) => rast::Probe::Unlistable("denied"),
            };
            match walker.settle(path, found) {
                rast::Verdict::Skip => continue,
                rast::Verdict::Yield(item) => break item,
            }
        };
        let (is_dir, extension) = match &item {
            Ok(path) => (
                matches!(find(path), Some(OnDisk::Dir(_))),
                path.rsplit('/').next().and_then(|name| name.rsplit_once('.')).map(|(_, ext)| ext),
            ),
            Err(_) => (false, None),
        };
        let visit = match (task_for(&item, is_dir, extension), &item) {
            (Task::Record(visit), _) => visit,
            (Task::Scan, Ok(path)) => {
                let text = match find(path) {
                    Some(OnDisk::File(text)) => *text,
                    _ => None,
                };
                let outcome = scanner.scan_file(text);
                if let Ok(reports) = &outcome {
                    texts.extend(reports.iter().map(|r| format!("{}: {}", path, r.finding.text)));
                }
                visit_for(&outcome)
            }
            (Task::Scan, Err(_)) => unreachable!(),
        };
        assert!(results.has_room(&visit));
        results.record(&visit);
    }
}

#[test]
fn scan_of_a_whole_tree_counts_what_the_walk_yields() {
    let disk = [
        ("proj", OnDisk::Dir(vec!["proj/src", "proj/README.md", "proj/link.rs", "proj/locked", "proj/build.rs"])),
        ("proj/src", OnDisk::Dir(vec!["proj/src/lib.rs", "proj/src/bad.rs", "proj/src/secret.rs", "proj/src/deep"])),
        ("proj/README.md", OnDisk::File(Some("fn in_prose() {}"))),
        ("proj/link.rs", OnDisk::Link),
        ("proj/locked", OnDisk::Sealed),
        ("proj/build.rs", OnDisk::File(Some("fn main() {}\n"))),
        ("proj/src/lib.rs", OnDisk::File(Some("pub fn a() {}\npub fn b() {}\n"))),
        ("proj/src/bad.rs", OnDisk::File(Some("pub fn {"))),
        ("proj/src/secret.rs", OnDisk::File(None)),
        ("proj/src/deep", OnDisk::Dir(vec!["proj/src/deep/mod.rs", "proj/src/deep/data.bin"])),
        ("proj/src/deep/mod.rs", OnDisk::File(Some("trait T { fn t(&self); }\n"))),
        ("proj/src/deep/data.bin", OnDisk::File(None)),
    ];
    let (results, texts) = scan_disk(&disk, "proj");
    assert_eq!(
        texts,
        vec![
            "proj/src/lib.rs: Found function: a",
            "proj/src/lib.rs: Found function: b",
            "proj/src/deep/mod.rs: Found function: t",
            "proj/build.rs: Found function: main",
        ]
    );
    // 3 directories; 7 files, 5 of them sources; the link is never met.
    assert_eq!(all(&results), (4, (3, 7, 5), (1, 1, 1)));
}

#[test]
fn scan_of_a_missing_root_counts_it_as_a_file() {
    let (results, texts) = scan_disk(&[], "nowhere");
    assert!(texts.is_empty());
    assert_eq!(all(&results), (0, (0, 1, 0), (0, 0, 0)));
}

#[test]
fn scan_of_a_missing_source_file_counts_a_read_error() {
    let (results, texts) = scan_disk(&[], "gone.rs");
    assert!(texts.is_empty());
    assert_eq!(all(&results), (0, (0, 1, 1), (0, 1, 0)));
}

#[test]
fn entry_that_vanished_does_not_end_the_scan() {
    let disk = [
        ("top", OnDisk::Dir(vec!["top/vanished.rs", "top/kept.rs"])),
        ("top/kept.rs", OnDisk::File(Some("fn kept() {}\n"))),
    ];
    let (results, texts) = scan_disk(&disk, "top");
    assert_eq!(texts, vec!["top/kept.rs: Found function: kept"]);
    assert_eq!(all(&results), (1, (1, 2, 2), (0, 1, 0)));
}

#[test]
fn scan_of_a_single_source_file_counts_one_file() {
    let disk = [("one.rs", OnDisk::File(Some("fn only() {}")))];
    let (results, texts) = scan_disk(&disk, "one.rs");
    assert_eq!(texts, vec!["one.rs: Found function: only"]);
    assert_eq!(all(&results), (1, (0, 1, 1), (0, 0, 0)));
}
