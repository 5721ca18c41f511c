use warnsum::count_map::{diff_hashmaps, CountMap};
use warnsum::extract::extract_warnings;
use warnsum::keywords::make_keywords;
use warnsum::report::make_warning_counts;
use warnsum::{Warning, WarningCollection};

/// The entries of a count table, sorted for order-insensitive comparison.
fn sorted_counts(m: &CountMap) -> Vec<(String, i16)> {
    let mut v = m.entries.clone();
    v.sort();
    v
}

fn pairs(expected: &[(&str, i16)]) -> Vec<(String, i16)> {
    let mut v: Vec<(String, i16)> = expected.iter().map(|(k, c)| (k.to_string(), *c)).collect();
    v.sort();
    v
}

fn strings(items: &[&str]) -> Vec<String> {
    items.iter().map(|s| s.to_string()).collect()
}

fn test_warnings() -> Vec<Warning> {
    vec![
        Warning {
            file: "/path/to/dir1/file1.c".to_string(),
            name: "bad-thing".to_string(),
            keywords: strings(&["horrible", "zing", "zimb"]),
        },
        Warning {
            file: "/path/to/dir2/file1.c".to_string(),
            name: "dont-like-this".to_string(),
            keywords: strings(&["zing", "zimb", "zang"]),
        },
        Warning {
            file: "/path/to/dir2/file2.c".to_string(),
            name: "horrible-stuff".to_string(),
            keywords: strings(&["horrible", "stuff"]),
        },
        Warning {
            file: "/path/to/dir2/file2.c".to_string(),
            name: "horrible-stuff".to_string(),
            keywords: strings(&["horrible", "stuff"]),
        },
    ]
}

const GCC_LOG: &str = "Some warnings
[  1%] Generating file1.c
[  2%] Generating file2.c
/path/to/dir1/file1.c: In function \u{2018}func1\u{2019}:
/path/to/dir1/file1.c:235:36: warning: doing some bad thing [-Wbad-thing]
  235 |     if (horrible) *foo = zing->zimb;
      |                                ^~~~~
/path/to/dir2/file1.c: In function \u{2018}func2\u{2019}:
/path/to/dir2/file1.c:340:27: warning: don't like this [-Wdont-like-this]
  340 |     zing->zimb &= (~foo.zang);
      |                     ^~
/path/to/dir2/file2.c: In function \u{2018}func3\u{2019}:
/path/to/dir2/file2.c:697:16: warning: just horrible stuff [-Whorrible-stuff]
  697 |     horrible = stuff;
      |                ^~~
/path/to/dir2/file2.c:715:18: warning: just horrible stuff [-Whorrible-stuff]
  715 |       horrible = stuff[i];
      |                  ^~~
";

const FORTRAN_LOG: &str = "Some warnings
[  1%] Generating file1.c
[  2%] Generating file2.c
/path/to/dir1/file1.c:235:36:

  235 |     if (horrible) *foo = zing->zimb;
      |                                1
Warning: doing some bad thing [-Wbad-thing]
/path/to/dir2/file1.c:340:27:

  340 |     zing->zimb &= (~foo.zang);
      |                     ^
Warning: don't like this [-Wdont-like-this]
/path/to/dir2/file2.c:697:16:

  697 |     horrible = stuff;
      |                ^~~
Warning: just horrible stuff [-Whorrible-stuff]
/path/to/dir2/file2.c:715:18:

  715 |       horrible = stuff[i];
      |                  ^~~
Warning: just horrible stuff [-Whorrible-stuff]
";

fn assert_is_test_collection(result: &WarningCollection) {
    assert_eq!(result.warnings, test_warnings());
    assert_eq!(
        sorted_counts(&result.names),
        pairs(&[("bad-thing", 1), ("dont-like-this", 1), ("horrible-stuff", 2)])
    );
    assert_eq!(
        sorted_counts(&result.files),
        pairs(&[
            ("/path/to/dir1/file1.c", 1),
            ("/path/to/dir2/file1.c", 1),
            ("/path/to/dir2/file2.c", 2),
        ])
    );
    assert_eq!(
        sorted_counts(&result.directories),
        pairs(&[("/path/to/dir1", 1), ("/path/to/dir2", 3)])
    );
    assert_eq!(
        sorted_counts(&result.keywords),
        pairs(&[("horrible", 3), ("stuff", 2), ("zang", 1), ("zimb", 2), ("zing", 2)])
    );
}

#[test]
fn find_a_warning() {
    let result = WarningCollection::new(GCC_LOG, 3, &strings(&["foo"]), "");
    assert_is_test_collection(&result);
}

#[test]
fn find_a_warning_fortran() {
    let result = WarningCollection::new(FORTRAN_LOG, 3, &strings(&["foo"]), "");
    assert_is_test_collection(&result);
}

#[test]
fn format_hash_map_for_warnings() {
    let counts = CountMap {
        entries: vec![
            ("result1".to_string(), 3),
            ("result2".to_string(), 120),
            ("result3".to_string(), 1),
        ],
    };

    let result = make_warning_counts(&counts, 2, false);
    let expected = "120  result2\n  3  result1\n     (+1 more items)\n124  Total".to_string();
    assert_eq!(result, expected);
}

#[test]
fn format_hash_map_for_files() {
    let counts = CountMap {
        entries: vec![
            ("result1".to_string(), 3),
            ("result2".to_string(), 120),
            ("result3".to_string(), 1),
        ],
    };

    let result = make_warning_counts(&counts, 2, true);
    let expected = "120  result2\n  3  result1\n     (+1 more items)\n  3  Total".to_string();
    assert_eq!(result, expected);
}

#[test]
fn warning_diff() {
    let new_warnings = WarningCollection::from_warnings(vec![
        Warning {
            file: "/path/to/dir1/file1.c".to_string(),
            name: "bad-thing".to_string(),
            keywords: strings(&["horrible", "zing", "zimb"]),
        },
        Warning {
            file: "/path/to/dir2/file1.c".to_string(),
            name: "dont-like-this".to_string(),
            keywords: strings(&["zing", "zimb", "zang"]),
        },
    ]);
    let old_warnings = WarningCollection::from_warnings(test_warnings());
    let result = new_warnings.diff(&old_warnings);

    assert_eq!(sorted_counts(&result.names), pairs(&[("horrible-stuff", -2)]));
    assert_eq!(sorted_counts(&result.files), pairs(&[("/path/to/dir2/file2.c", -2)]));
    assert_eq!(sorted_counts(&result.directories), pairs(&[("/path/to/dir2", -2)]));
    assert_eq!(sorted_counts(&result.keywords), pairs(&[("horrible", -2), ("stuff", -2)]));
}

#[test]
fn aggregation_totals_match_warning_count() {
    let result = WarningCollection::from_warnings(test_warnings());
    let n = result.warnings.len() as i32;
    let sum = |m: &CountMap| m.entries.iter().map(|e| e.1 as i32).sum::<i32>();
    assert_eq!(sum(&result.names), n);
    assert_eq!(sum(&result.files), n);
    assert_eq!(sum(&result.directories), n);
    let keyword_occurrences: i32 = result.warnings.iter().map(|w| w.keywords.len() as i32).sum();
    assert_eq!(sum(&result.keywords), keyword_occurrences);
}

#[test]
fn diff_with_itself_is_empty() {
    let c = WarningCollection::from_warnings(test_warnings());
    let d = c.diff(&c);
    assert_eq!(d.names.len(), 0);
    assert_eq!(d.files.len(), 0);
    assert_eq!(d.directories.len(), 0);
    assert_eq!(d.keywords.len(), 0);
}

#[test]
fn diff_keeps_exactly_the_changed_keys() {
    let lhs = CountMap {
        entries: vec![
            ("same".to_string(), 4),
            ("only-left".to_string(), 2),
            ("bigger-left".to_string(), 5),
        ],
    };
    let rhs = CountMap {
        entries: vec![
            ("same".to_string(), 4),
            ("only-right".to_string(), 3),
            ("bigger-left".to_string(), 1),
        ],
    };
    let d = diff_hashmaps(&lhs, &rhs);
    assert_eq!(
        sorted_counts(&d),
        pairs(&[("only-left", 2), ("only-right", -3), ("bigger-left", 4)])
    );
}

#[test]
fn empty_map_renders_as_empty_string() {
    let counts = CountMap { entries: Vec::new() };
    assert_eq!(make_warning_counts(&counts, 10, false), "");
    assert_eq!(make_warning_counts(&counts, 0, true), "");
}

#[test]
fn report_shows_all_entries_when_top_n_is_zero() {
    let counts = CountMap {
        entries: vec![
            ("result1".to_string(), 3),
            ("result2".to_string(), 120),
            ("result3".to_string(), 1),
        ],
    };
    let result = make_warning_counts(&counts, 0, false);
    let expected = "120  result2\n  3  result1\n  1  result3\n124  Total".to_string();
    assert_eq!(result, expected);
}

#[test]
fn report_breaks_count_ties_by_key() {
    let counts = CountMap {
        entries: vec![
            ("zeta".to_string(), 2),
            ("alpha".to_string(), 2),
            ("mid".to_string(), 2),
        ],
    };
    let result = make_warning_counts(&counts, 0, false);
    let expected = "2  alpha\n2  mid\n2  zeta\n6  Total".to_string();
    assert_eq!(result, expected);
}

#[test]
fn gcc_excerpt_yields_name_file_and_keywords() {
    let log = "/a/b/f.c:235:36: warning: bad [-Wbad-thing]\n  235 | if (horrible) *x = zing->zimb;\n      |  ^~~~~";
    let warnings = extract_warnings(log, 3, &strings(&["foo"]), "");
    assert_eq!(warnings.len(), 1);
    assert_eq!(warnings[0].name, "bad-thing");
    assert_eq!(warnings[0].file, "/a/b/f.c");
    assert!(warnings[0].keywords.contains(&"horrible".to_string()));
    assert!(warnings[0].keywords.contains(&"zing".to_string()));
    assert!(warnings[0].keywords.contains(&"zimb".to_string()));
    assert!(!warnings[0].keywords.contains(&"foo".to_string()));
    assert!(warnings[0].keywords.iter().all(|k| k.len() >= 3));
}

#[test]
fn both_dialects_yield_identical_records() {
    let gcc = WarningCollection::new(GCC_LOG, 3, &strings(&["foo"]), "");
    let fortran = WarningCollection::new(FORTRAN_LOG, 3, &strings(&["foo"]), "");
    assert_eq!(gcc.warnings, fortran.warnings);
}

#[test]
fn repeated_warnings_accumulate_in_every_table() {
    let log = "/a/f.c:1:2: warning: dup [-Wdup]\n  1 | zork = grue;\n      | ^\n/a/f.c:9:4: warning: dup [-Wdup]\n  9 | zork = grue;\n      | ^\n";
    let c = WarningCollection::new(log, 3, &Vec::new(), "");
    assert_eq!(sorted_counts(&c.names), pairs(&[("dup", 2)]));
    assert_eq!(sorted_counts(&c.files), pairs(&[("/a/f.c", 2)]));
    assert_eq!(sorted_counts(&c.keywords), pairs(&[("zork", 2), ("grue", 2)]));
}

#[test]
fn keywords_keep_order_and_duplicates() {
    let kws = make_keywords("zing += zing + zapp_1; no 2abc x", 3, &strings(&["zapp_1"]));
    assert_eq!(kws, strings(&["zing", "zing"]));
}

#[test]
fn short_and_ignored_keywords_are_dropped() {
    let kws = make_keywords("abc ab abcd ignored_kw", 3, &strings(&["ignored_kw"]));
    assert_eq!(kws, strings(&["abc", "abcd"]));
}

#[test]
fn cwd_prefix_is_stripped_from_file_paths() {
    let log = "/work/src/f.c:1:2: warning: x [-Wthing]\n";
    let with_cwd = extract_warnings(log, 5, &Vec::new(), "/work");
    assert_eq!(with_cwd[0].file, "src/f.c");
    let other_cwd = extract_warnings(log, 5, &Vec::new(), "/elsewhere");
    assert_eq!(other_cwd[0].file, "/work/src/f.c");
}

#[test]
fn file_without_directory_counts_under_itself() {
    let c = WarningCollection::from_warnings(vec![Warning {
        file: "plain.c".to_string(),
        name: "odd".to_string(),
        keywords: Vec::new(),
    }]);
    assert_eq!(sorted_counts(&c.directories), pairs(&[("plain.c", 1)]));
}

#[test]
fn malformed_input_yields_no_warnings() {
    let c = WarningCollection::new("nothing to see here\njust text\n", 3, &Vec::new(), "");
    assert_eq!(c.warnings.len(), 0);
    assert_eq!(c.names.len(), 0);
    assert_eq!(c.keywords.len(), 0);
}

#[test]
fn flag_name_comes_from_the_last_bracketed_flag() {
    let log = "/a/f.c:1:2: warning: odd [-Wfirst] text [-Wsecond]\n";
    let warnings = extract_warnings(log, 5, &Vec::new(), "");
    assert_eq!(warnings.len(), 1);
    assert_eq!(warnings[0].name, "second");
}

#[test]
fn file_part_is_the_longest_matching_prefix() {
    let log = "a:1:2:3:4: warning: m [-Wn]\n";
    let warnings = extract_warnings(log, 5, &Vec::new(), "");
    assert_eq!(warnings.len(), 1);
    assert_eq!(warnings[0].file, "a:1:2");
}

#[test]
fn marker_tolerates_only_the_leading_capital() {
    let lower = extract_warnings("/a/f.c:1:2: warning: m [-Wn]\n", 5, &Vec::new(), "");
    assert_eq!(lower.len(), 1);
    let capital = extract_warnings("/a/f.c:1:2: Warning: m [-Wn]\n", 5, &Vec::new(), "");
    assert_eq!(capital.len(), 1);
    let shouted = extract_warnings("/a/f.c:1:2: WARNING: m [-Wn]\n", 5, &Vec::new(), "");
    assert_eq!(shouted.len(), 0);
}

#[test]
fn empty_collection_reports_bare_headings() {
    let c = WarningCollection::from_warnings(Vec::new());
    assert_eq!(
        c.to_report(10),
        "Warnings:\n\n\nFiles:\n\n\nDirectories:\n\n\nKeywords:\n\n"
    );
}

#[test]
fn full_report_has_four_labelled_sections() {
    let c = WarningCollection::from_warnings(test_warnings());
    let report = c.to_report(10);
    assert!(report.starts_with("Warnings:\n"));
    assert!(report.contains("\n\nFiles:\n"));
    assert!(report.contains("\n\nDirectories:\n"));
    assert!(report.contains("\n\nKeywords:\n"));
    assert!(report.contains("2  horrible-stuff"));
    assert!(report.contains("4  Total"));
    assert!(report.ends_with("\n"));
}
