//! Summarise compiler warnings found in build-log text.
//!
//! The crate scans raw log text for compiler diagnostics in two dialects
//! (GCC/Clang style, where the quoted source excerpt follows the
//! `warning:` line, and the Fortran style, where the excerpt precedes the
//! `Warning:` marker), collects each hit as a [`Warning`], aggregates the
//! hits into count tables over four dimensions (warning name, file,
//! directory, keyword), diffs two such summaries, and renders any count
//! table as an aligned, sorted, optionally truncated text block.

pub mod count_map;
pub mod extract;
pub mod keywords;
pub mod paths;
pub mod report;

use crate::count_map::{
    count_keys, count_of, counts_of, diff_hashmaps, distinct_keys, has_key, lemma_counts_of,
    lemma_occurrences_bounds, total_of, CountMap, Entries,
};
use crate::extract::{extract_warnings, extracted_warnings};
use crate::paths::{dir_of, parent_or_self};
use crate::report::{make_warning_counts, section_text};
use vstd::prelude::*;

verus! {

/// The specification image of one warning.
pub struct WarningModel {
    /// Flag name with the leading `-W` stripped.
    pub name: Seq<char>,
    /// Path of the file the warning points at, relativized.
    pub file: Seq<char>,
    /// Keyword tokens taken from the adjacent source excerpt.
    pub keywords: Seq<Seq<char>>,
}

/// A compiler warning.
#[derive(Debug, PartialEq, Clone)]
pub struct Warning {
    /// Name of the warning, minus the initial `-W`.
    pub name: String,
    /// File the warning appears in.
    pub file: String,
    /// Potentially interesting keywords from the line that raised the
    /// warning.
    pub keywords: Vec<String>,
}

impl View for Warning {
    type V = WarningModel;

    open spec fn view(&self) -> WarningModel {
        WarningModel { name: self.name@, file: self.file@, keywords: self.keywords.deep_view() }
    }
}

impl DeepView for Warning {
    type V = WarningModel;

    open spec fn deep_view(&self) -> WarningModel {
        self.view()
    }
}

/// The warning names, one per warning.
pub open spec fn names_of(ws: Seq<WarningModel>) -> Seq<Seq<char>> {
    ws.map_values(|w: WarningModel| w.name)
}

/// The warning files, one per warning.
pub open spec fn files_of(ws: Seq<WarningModel>) -> Seq<Seq<char>> {
    ws.map_values(|w: WarningModel| w.file)
}

/// The warning directories, one per warning.
pub open spec fn dirs_of(ws: Seq<WarningModel>) -> Seq<Seq<char>> {
    ws.map_values(|w: WarningModel| dir_of(w.file))
}

/// Every keyword occurrence of every warning, in order.
pub open spec fn all_keywords(ws: Seq<WarningModel>) -> Seq<Seq<char>>
    decreases ws.len(),
{
    if ws.len() == 0 {
        Seq::empty()
    } else {
        all_keywords(ws.drop_last()) + ws.last().keywords
    }
}

/// Counts the warnings by an arbitrary key: `f` computes the key of one
/// warning, and `key_fn` is its specification.
pub fn count_warning_fn<F: Fn(&Warning) -> String>(
    warnings: &Vec<Warning>,
    f: F,
    key_fn: Ghost<spec_fn(WarningModel) -> Seq<char>>,
) -> (r: CountMap)
    requires
        warnings@.len() <= 32767,
        forall|w: &Warning| #[trigger] call_requires(f, (w,)),
        forall|w: &Warning, s: String| #[trigger] call_ensures(f, (w,), s) ==> s@ == key_fn@(w@),
    ensures
        r@ == counts_of(warnings.deep_view().map_values(key_fn@)),
        distinct_keys(r@),
{
    let ghost keys_spec = warnings.deep_view().map_values(key_fn@);
    let mut keys: Vec<String> = Vec::new();
    let mut i: usize = 0;
    proof {
        assert(keys.deep_view() =~= keys_spec.take(0));
    }
    while i < warnings.len()
        invariant
            i <= warnings.len(),
            warnings@.len() <= 32767,
            keys_spec == warnings.deep_view().map_values(key_fn@),
            forall|w: &Warning| #[trigger] call_requires(f, (w,)),
            forall|w: &Warning, s: String|
                #[trigger] call_ensures(f, (w,), s) ==> s@ == key_fn@(w@),
            keys.deep_view() == keys_spec.take(i as int),
        decreases warnings.len() - i,
    {
        let s = f(&warnings[i]);
        proof {
            assert(s@ == key_fn@(warnings@[i as int]@));
            assert(warnings.deep_view()[i as int] == warnings@[i as int]@);
        }
        let ghost pre = keys.deep_view();
        keys.push(s);
        proof {
            assert(keys.deep_view() =~= pre.push(s@));
            assert(keys.deep_view() =~= keys_spec.take(i as int + 1));
        }
        i = i + 1;
    }
    proof {
        assert(keys_spec.take(warnings@.len() as int) =~= keys_spec);
    }
    count_keys(&keys)
}

/// The name key of one warning.
fn name_key(w: &Warning) -> (s: String)
    ensures
        s@ == w@.name,
{
    w.name.clone()
}

/// The file key of one warning.
fn file_key(w: &Warning) -> (s: String)
    ensures
        s@ == w@.file,
{
    w.file.clone()
}

/// The directory key of one warning.
fn dir_key(w: &Warning) -> (s: String)
    ensures
        s@ == dir_of(w@.file),
{
    parent_or_self(&w.file)
}

/// Counts the warnings by warning name.
pub fn count_warning_types(warnings: &Vec<Warning>) -> (r: CountMap)
    requires
        warnings@.len() <= 32767,
    ensures
        r@ == counts_of(names_of(warnings.deep_view())),
        distinct_keys(r@),
{
    let r = count_warning_fn(warnings, name_key, Ghost(|wm: WarningModel| wm.name));
    proof {
        assert(warnings.deep_view().map_values(|wm: WarningModel| wm.name) =~= names_of(
            warnings.deep_view(),
        ));
    }
    r
}

/// Counts the warnings by file.
pub fn count_warning_files(warnings: &Vec<Warning>) -> (r: CountMap)
    requires
        warnings@.len() <= 32767,
    ensures
        r@ == counts_of(files_of(warnings.deep_view())),
        distinct_keys(r@),
{
    let r = count_warning_fn(warnings, file_key, Ghost(|wm: WarningModel| wm.file));
    proof {
        assert(warnings.deep_view().map_values(|wm: WarningModel| wm.file) =~= files_of(
            warnings.deep_view(),
        ));
    }
    r
}

/// Counts the warnings by the directory of their file.
pub fn count_warning_directories(warnings: &Vec<Warning>) -> (r: CountMap)
    requires
        warnings@.len() <= 32767,
    ensures
        r@ == counts_of(dirs_of(warnings.deep_view())),
        distinct_keys(r@),
{
    let r = count_warning_fn(warnings, dir_key, Ghost(|wm: WarningModel| dir_of(wm.file)));
    proof {
        assert(warnings.deep_view().map_values(|wm: WarningModel| dir_of(wm.file)) =~= dirs_of(
            warnings.deep_view(),
        ));
    }
    r
}

/// Counts every keyword occurrence across all warnings; duplicates within
/// and across warnings all count.
pub fn count_warning_keywords(warnings: &Vec<Warning>) -> (r: CountMap)
    requires
        all_keywords(warnings.deep_view()).len() <= 32767,
    ensures
        r@ == counts_of(all_keywords(warnings.deep_view())),
        distinct_keys(r@),
{
    let ghost ws = warnings.deep_view();
    let mut flat: Vec<String> = Vec::new();
    let mut i: usize = 0;
    proof {
        assert(flat.deep_view() =~= all_keywords(ws.take(0)));
    }
    while i < warnings.len()
        invariant
            i <= warnings.len(),
            ws == warnings.deep_view(),
            flat.deep_view() == all_keywords(ws.take(i as int)),
        decreases warnings.len() - i,
    {
        let mut j: usize = 0;
        while j < warnings[i].keywords.len()
            invariant
                i < warnings@.len(),
                j <= warnings@[i as int].keywords@.len(),
                ws == warnings.deep_view(),
                flat.deep_view() == all_keywords(ws.take(i as int)) + ws[i as int].keywords.take(
                    j as int,
                ),
            decreases warnings[i as int].keywords.len() - j,
        {
            let ghost pre = flat.deep_view();
            flat.push(warnings[i].keywords[j].clone());
            proof {
                assert(ws[i as int].keywords[j as int] == warnings@[i as int].keywords@[j as int]@);
                assert(flat.deep_view() =~= pre.push(ws[i as int].keywords[j as int]));
                assert(flat.deep_view() =~= all_keywords(ws.take(i as int)) + ws[
                    i as int
                ].keywords.take(j as int + 1));
            }
            j = j + 1;
        }
        proof {
            assert(ws[i as int].keywords.take(ws[i as int].keywords.len() as int) =~= ws[
                i as int
            ].keywords);
            assert(ws.take(i as int + 1).drop_last() =~= ws.take(i as int));
            assert(ws.take(i as int + 1).last() == ws[i as int]);
            assert(flat.deep_view() == all_keywords(ws.take(i as int + 1)));
        }
        i = i + 1;
    }
    proof {
        assert(ws.take(warnings@.len() as int) =~= ws);
    }
    count_keys(&flat)
}

/// A single signed count delta.
#[derive(Debug, PartialEq, Clone)]
pub struct CountDiff(pub i16);

/// The signed per-key deltas between the four count tables of two
/// collections; keys with a zero net delta are omitted.
#[derive(Debug)]
pub struct WarningCollectionDiff {
    /// Delta of warning-name counts.
    pub names: CountMap,
    /// Delta of file counts.
    pub files: CountMap,
    /// Delta of directory counts.
    pub directories: CountMap,
    /// Delta of keyword counts.
    pub keywords: CountMap,
}

/// All warnings of one log, with their four aggregations.
#[derive(Debug)]
pub struct WarningCollection {
    /// Every warning, in order of appearance.
    pub warnings: Vec<Warning>,
    /// Warning names to counts.
    pub names: CountMap,
    /// File paths to counts.
    pub files: CountMap,
    /// Directories to counts.
    pub directories: CountMap,
    /// Keywords to counts.
    pub keywords: CountMap,
}

impl WarningCollection {
    /// The four tables agree with the warning list, and the list is small
    /// enough for the 16-bit counters.
    pub open spec fn wf(&self) -> bool {
        &&& self.warnings.deep_view().len() <= 32767
        &&& all_keywords(self.warnings.deep_view()).len() <= 32767
        &&& self.names@ == counts_of(names_of(self.warnings.deep_view()))
        &&& self.files@ == counts_of(files_of(self.warnings.deep_view()))
        &&& self.directories@ == counts_of(dirs_of(self.warnings.deep_view()))
        &&& self.keywords@ == counts_of(all_keywords(self.warnings.deep_view()))
    }

    /// Aggregates an already-extracted warning list into a collection.
    pub fn from_warnings(warnings: Vec<Warning>) -> (r: WarningCollection)
        requires
            warnings.deep_view().len() <= 32767,
            all_keywords(warnings.deep_view()).len() <= 32767,
        ensures
            r.wf(),
            r.warnings == warnings,
    {
        let names = count_warning_types(&warnings);
        let files = count_warning_files(&warnings);
        let directories = count_warning_directories(&warnings);
        let keywords = count_warning_keywords(&warnings);
        WarningCollection { warnings, names, files, directories, keywords }
    }

    /// Scans `content` and builds the complete summary: every warning in
    /// order of appearance, counted by name, file, directory and keyword.
    /// `cwd` is the working directory used to relativize file paths; the
    /// 16-bit counters ask that the log stay below 32767 warnings and
    /// keyword occurrences.
    pub fn new(
        content: &str,
        keyword_len: usize,
        ignored_keywords: &Vec<String>,
        cwd: &str,
    ) -> (r: WarningCollection)
        requires
            extracted_warnings(
                content@,
                keyword_len as int,
                ignored_keywords.deep_view(),
                cwd@,
            ).len() <= 32767,
            all_keywords(
                extracted_warnings(content@, keyword_len as int, ignored_keywords.deep_view(), cwd@),
            ).len() <= 32767,
        ensures
            r.wf(),
            r.warnings.deep_view() == extracted_warnings(
                content@,
                keyword_len as int,
                ignored_keywords.deep_view(),
                cwd@,
            ),
    {
        let ws = extract_warnings(content, keyword_len, ignored_keywords, cwd);
        WarningCollection::from_warnings(ws)
    }

    /// The signed delta of this collection against `other`, per table: a
    /// key's count is how many more occurrences this collection has, keys
    /// with equal counts vanish.
    pub fn diff(&self, other: &WarningCollection) -> (r: WarningCollectionDiff)
        requires
            self.wf(),
            other.wf(),
        ensures
            distinct_keys(r.names@),
            distinct_keys(r.files@),
            distinct_keys(r.directories@),
            distinct_keys(r.keywords@),
            forall|k: Seq<char>|
                #[trigger] has_key(r.names@, k) <==> count_of(self.names@, k) != count_of(
                    other.names@,
                    k,
                ),
            forall|k: Seq<char>|
                #[trigger] count_of(r.names@, k) == count_of(self.names@, k) - count_of(
                    other.names@,
                    k,
                ),
            forall|k: Seq<char>|
                #[trigger] has_key(r.files@, k) <==> count_of(self.files@, k) != count_of(
                    other.files@,
                    k,
                ),
            forall|k: Seq<char>|
                #[trigger] count_of(r.files@, k) == count_of(self.files@, k) - count_of(
                    other.files@,
                    k,
                ),
            forall|k: Seq<char>|
                #[trigger] has_key(r.directories@, k) <==> count_of(self.directories@, k)
                    != count_of(other.directories@, k),
            forall|k: Seq<char>|
                #[trigger] count_of(r.directories@, k) == count_of(self.directories@, k)
                    - count_of(other.directories@, k),
            forall|k: Seq<char>|
                #[trigger] has_key(r.keywords@, k) <==> count_of(self.keywords@, k) != count_of(
                    other.keywords@,
                    k,
                ),
            forall|k: Seq<char>|
                #[trigger] count_of(r.keywords@, k) == count_of(self.keywords@, k) - count_of(
                    other.keywords@,
                    k,
                ),
    {
        proof {
            lemma_aggregate_counts_bounded(self.names@, names_of(self.warnings.deep_view()));
            lemma_aggregate_counts_bounded(other.names@, names_of(other.warnings.deep_view()));
            lemma_aggregate_counts_bounded(self.files@, files_of(self.warnings.deep_view()));
            lemma_aggregate_counts_bounded(other.files@, files_of(other.warnings.deep_view()));
            lemma_aggregate_counts_bounded(
                self.directories@,
                dirs_of(self.warnings.deep_view()),
            );
            lemma_aggregate_counts_bounded(
                other.directories@,
                dirs_of(other.warnings.deep_view()),
            );
            lemma_aggregate_counts_bounded(self.keywords@, all_keywords(self.warnings.deep_view()));
            lemma_aggregate_counts_bounded(
                other.keywords@,
                all_keywords(other.warnings.deep_view()),
            );
        }
        WarningCollectionDiff {
            names: diff_hashmaps(&self.names, &other.names),
            files: diff_hashmaps(&self.files, &other.files),
            directories: diff_hashmaps(&self.directories, &other.directories),
            keywords: diff_hashmaps(&self.keywords, &other.keywords),
        }
    }

    /// The full report: the four tables rendered in turn under their
    /// headings.  The name table is never truncated and totals its
    /// occurrences; the file, directory and keyword tables honour
    /// `top_n` and total their distinct keys.
    pub fn to_report(&self, top_n: usize) -> (r: String)
        requires
            self.wf(),
        ensures
            r@ == report_of(
                section_text(self.names@, 0, false),
                section_text(self.files@, top_n as int, true),
                section_text(self.directories@, top_n as int, true),
                section_text(self.keywords@, top_n as int, true),
            ),
    {
        proof {
            lemma_section_pre(self.names@, names_of(self.warnings.deep_view()));
            lemma_section_pre(self.files@, files_of(self.warnings.deep_view()));
            lemma_section_pre(self.directories@, dirs_of(self.warnings.deep_view()));
            lemma_section_pre(self.keywords@, all_keywords(self.warnings.deep_view()));
        }
        let names = make_warning_counts(&self.names, 0, false);
        let files = make_warning_counts(&self.files, top_n, true);
        let directories = make_warning_counts(&self.directories, top_n, true);
        let keywords = make_warning_counts(&self.keywords, top_n, true);
        let mut out = String::new();
        out.append("Warnings:\n");
        out.append(names.as_str());
        out.append("\n\nFiles:\n");
        out.append(files.as_str());
        out.append("\n\nDirectories:\n");
        out.append(directories.as_str());
        out.append("\n\nKeywords:\n");
        out.append(keywords.as_str());
        out.append("\n");
        proof {
            reveal_strlit("Warnings:\n");
            reveal_strlit("\n\nFiles:\n");
            reveal_strlit("\n\nDirectories:\n");
            reveal_strlit("\n\nKeywords:\n");
            reveal_strlit("\n");
            assert("Warnings:\n"@ =~= seq![
                'W', 'a', 'r', 'n', 'i', 'n', 'g', 's', ':', '\n',
            ]);
            assert("\n\nFiles:\n"@ =~= seq!['\n', '\n', 'F', 'i', 'l', 'e', 's', ':', '\n']);
            assert("\n\nDirectories:\n"@ =~= seq![
                '\n', '\n', 'D', 'i', 'r', 'e', 'c', 't', 'o', 'r', 'i', 'e', 's', ':', '\n',
            ]);
            assert("\n\nKeywords:\n"@ =~= seq![
                '\n', '\n', 'K', 'e', 'y', 'w', 'o', 'r', 'd', 's', ':', '\n',
            ]);
            assert("\n"@ =~= seq!['\n']);
            assert(out@ =~= report_of(names@, files@, directories@, keywords@));
        }
        out
    }
}

/// The four rendered sections under their headings.
pub open spec fn report_of(s1: Seq<char>, s2: Seq<char>, s3: Seq<char>, s4: Seq<char>) -> Seq<
    char,
> {
    seq!['W', 'a', 'r', 'n', 'i', 'n', 'g', 's', ':', '\n'] + s1 + seq![
        '\n', '\n', 'F', 'i', 'l', 'e', 's', ':', '\n',
    ] + s2 + seq!['\n', '\n', 'D', 'i', 'r', 'e', 'c', 't', 'o', 'r', 'i', 'e', 's', ':', '\n']
        + s3 + seq!['\n', '\n', 'K', 'e', 'y', 'w', 'o', 'r', 'd', 's', ':', '\n'] + s4 + seq![
        '\n',
    ]
}

/// An aggregation table holds counts between 0 and the number of
/// aggregated keys.
proof fn lemma_aggregate_counts_bounded(m: Entries, keys: Seq<Seq<char>>)
    requires
        m == counts_of(keys),
        keys.len() <= 32767,
    ensures
        distinct_keys(m),
        forall|k: Seq<char>| 0 <= #[trigger] count_of(m, k) <= 32767,
        forall|k1: Seq<char>, k2: Seq<char>|
            -32768 <= #[trigger] count_of(m, k1) - #[trigger] count_of(m, k2) <= 32767,
{
    lemma_counts_of(keys, Seq::empty());
    assert forall|k: Seq<char>| 0 <= #[trigger] count_of(m, k) <= 32767 by {
        lemma_counts_of(keys, k);
        lemma_occurrences_bounds(keys, k);
    }
}

/// An aggregation table meets the renderer's preconditions: distinct
/// keys, counts of at least 1, and a total within the 16-bit range.
proof fn lemma_section_pre(m: Entries, keys: Seq<Seq<char>>)
    requires
        m == counts_of(keys),
        keys.len() <= 32767,
    ensures
        distinct_keys(m),
        forall|i: int| 0 <= i < m.len() ==> 1 <= (#[trigger] m[i]).1,
        total_of(m) <= 32767,
{
    lemma_counts_of(keys, Seq::empty());
}

/// Law: in a well-formed collection the name, file and directory counts
/// each sum to the number of warnings, and the keyword counts sum to the
/// number of keyword occurrences.
pub proof fn lemma_collection_totals(c: &WarningCollection)
    requires
        c.wf(),
    ensures
        total_of(c.names@) == c.warnings.deep_view().len(),
        total_of(c.files@) == c.warnings.deep_view().len(),
        total_of(c.directories@) == c.warnings.deep_view().len(),
        total_of(c.keywords@) == all_keywords(c.warnings.deep_view()).len(),
{
    let ws = c.warnings.deep_view();
    lemma_counts_of(names_of(ws), Seq::empty());
    lemma_counts_of(files_of(ws), Seq::empty());
    lemma_counts_of(dirs_of(ws), Seq::empty());
    lemma_counts_of(all_keywords(ws), Seq::empty());
}

/// Law: a table diffed against itself is empty.  The two premises are
/// exactly what the diff of a table with itself ensures.
pub proof fn lemma_diff_self_empty(x: Entries, d: Entries)
    requires
        distinct_keys(d),
        forall|k: Seq<char>| #[trigger] has_key(d, k) <==> count_of(x, k) != count_of(x, k),
    ensures
        d.len() == 0,
{
    if d.len() > 0 {
        assert(d[0].0 == d[0].0);
        assert(has_key(d, d[0].0));
    }
}

} // verus!
