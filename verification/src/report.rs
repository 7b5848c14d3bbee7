//! The report parser/rewriter: classifies the rows of the tabular report that
//! the external counting tool produces, and rewrites each row with one extra
//! right-aligned column per insight, preserving every other row unchanged
//! except for separator-width extension.

use crate::insight::{quantify_insight, spec_quantify, Insight};
use crate::text::{
    dec_string, field_end, has_ten_run, join_lines, lemma_dec_no_line_feed, lemma_lines_no_line_feed,
    lemma_lines_nonempty, lemma_lines_of_join, pad_field, seq_views, spec_dec, spec_field_end,
    spec_field_width, spec_has_run, spec_join, spec_lines, spec_opt_view, spec_pad_field,
    spec_spaces, split_lines, str_chars,
};
use vstd::prelude::*;

verus! {

/// What a row of the report is, decided purely by its index and text.
#[derive(Debug, PartialEq, Eq, Structural)]
pub enum RowKind {
    /// The column-header row, always the line at index 1; the line at index 0
    /// is a title and passes through unchanged.
    Header,
    /// A per-file data row: a single leading space followed by the base path.
    Data,
    /// A visual rule: it contains a run of ten or more `=` characters, a run
    /// of ten or more `-` characters, or both.
    Separator { equals: bool, dashes: bool },
    /// Anything else: titles, blank lines, summary totals.
    Other,
}

/// A data row: a single leading space followed immediately by the base path.
pub open spec fn spec_is_data_row(line: Seq<char>, base: Seq<char>) -> bool {
    line.len() >= base.len() + 1 && line[0] == ' ' && line.subrange(1, base.len() + 1 as int) == base
}

/// Classifies a row from its index and text alone: the row at index 1 is the
/// header; a row starting with a space and the base path is a data row; a row
/// with a run of ten `=` or ten `-` is a separator; all else passes through.
pub open spec fn spec_classify(ix: int, line: Seq<char>, base: Seq<char>) -> RowKind {
    if ix == 1 {
        RowKind::Header
    } else if spec_is_data_row(line, base) {
        RowKind::Data
    } else {
        let equals = spec_has_run(line, '=');
        let dashes = spec_has_run(line, '-');
        if equals || dashes {
            RowKind::Separator { equals, dashes }
        } else {
            RowKind::Other
        }
    }
}

fn is_data_row(chars: &Vec<char>, base: &Vec<char>) -> (b: bool)
    ensures
        b == spec_is_data_row(chars@, base@),
{
    if chars.len() == 0 || chars.len() - 1 < base.len() {
        return false;
    }
    if chars[0] != ' ' {
        return false;
    }
    let mut i: usize = 0;
    while i < base.len()
        invariant
            i <= base@.len(),
            chars@.len() >= base@.len() + 1,
            chars@[0] == ' ',
            forall|j: int| 0 <= j < i ==> chars@[j + 1] == base@[j],
        decreases base@.len() - i,
    {
        if chars[i + 1] != base[i] {
            proof {
                assert(chars@.subrange(1, base@.len() + 1 as int)[i as int] != base@[i as int]);
            }
            return false;
        }
        i += 1;
    }
    proof {
        assert(chars@.subrange(1, base@.len() + 1 as int) =~= base@);
    }
    true
}

/// Classifies a row of the report by its zero-based index and its text.
pub fn classify_row(ix: usize, line: &str, base_path: &str) -> (k: RowKind)
    ensures
        k == spec_classify(ix as int, line@, base_path@),
{
    if ix == 1 {
        return RowKind::Header;
    }
    let chars = str_chars(line);
    let base = str_chars(base_path);
    if is_data_row(&chars, &base) {
        return RowKind::Data;
    }
    let equals = has_ten_run(&chars, '=');
    let dashes = has_ten_run(&chars, '-');
    if equals || dashes {
        RowKind::Separator { equals, dashes }
    } else {
        RowKind::Other
    }
}

/// The file path carried by a data row: the row's first field — what stands
/// before the first run of two or more whitespace characters — stripped of
/// its single leading space. `None` when that field is empty or does not
/// begin with a space: such a data row is malformed.
pub open spec fn spec_extract_path(line: Seq<char>) -> Option<Seq<char>> {
    let fe = spec_field_end(line);
    if fe >= 1 && line[0] == ' ' {
        Some(line.subrange(1, fe))
    } else {
        None
    }
}

/// Extracts the file path of a data row, or reports it malformed.
pub fn extract_path(line: &str) -> (r: Option<String>)
    ensures
        spec_opt_view(r) == spec_extract_path(line@),
{
    let chars = str_chars(line);
    proof {
        crate::text::lemma_field_end(chars@);
    }
    let fe = field_end(&chars);
    if fe >= 1 && chars[0] == ' ' {
        Some(String::from_str(line.substring_char(1, fe)))
    } else {
        None
    }
}

/// A run of thirteen `c` characters: what a separator gains per widened
/// table, one field width wide.
pub open spec fn spec_thirteen(c: char) -> Seq<char> {
    Seq::new(spec_field_width(), |i: int| c)
}

/// The display names of a catalog of insights, in catalog order.
pub open spec fn spec_names(insights: Seq<Insight>) -> Seq<Seq<char>> {
    insights.map_values(|x: Insight| x.spec_name())
}

/// The pattern groups of a catalog of insights, in catalog order.
pub open spec fn spec_groups(insights: Seq<Insight>) -> Seq<Seq<Seq<char>>> {
    insights.map_values(|x: Insight| x.spec_patterns())
}

/// The views of a sequence of optional file texts.
pub open spec fn spec_files_view(files: Seq<Option<String>>) -> Seq<Option<Seq<char>>> {
    files.map_values(|o: Option<String>| spec_opt_view(o))
}

/// The fields the header row gains: one right-aligned name field per group,
/// in catalog order.
pub open spec fn spec_header_suffix(names: Seq<Seq<char>>) -> Seq<char>
    decreases names.len(),
{
    if names.len() == 0 {
        Seq::<char>::empty()
    } else {
        spec_header_suffix(names.drop_last()) + spec_pad_field(names.last())
    }
}

/// The fields a data row gains: one right-aligned decimal count per group, in
/// catalog order, each counting the row's own file.
pub open spec fn spec_data_suffix(file: Option<Seq<char>>, groups: Seq<Seq<Seq<char>>>) -> Seq<
    char,
>
    decreases groups.len(),
{
    if groups.len() == 0 {
        Seq::<char>::empty()
    } else {
        spec_data_suffix(file, groups.drop_last()) + spec_pad_field(
            spec_dec(spec_quantify(file, groups.last())),
        )
    }
}

/// What a separator row gains: thirteen `=` for a run of ten or more `=`,
/// then thirteen `-` for a run of ten or more `-`.
pub open spec fn spec_separator_suffix(equals: bool, dashes: bool) -> Seq<char> {
    (if equals {
        spec_thirteen('=')
    } else {
        Seq::<char>::empty()
    }) + (if dashes {
        spec_thirteen('-')
    } else {
        Seq::<char>::empty()
    })
}

/// How many of the first `i` rows are data rows.
pub open spec fn spec_data_rows_before(ls: Seq<Seq<char>>, base: Seq<char>, i: int) -> nat
    decreases i,
{
    if i <= 0 {
        0
    } else {
        spec_data_rows_before(ls, base, i - 1) + (if spec_classify(i - 1, ls[i - 1], base) is Data {
            1nat
        } else {
            0nat
        })
    }
}

/// How many rows of the report are data rows.
pub open spec fn spec_n_data_rows(ls: Seq<Seq<char>>, base: Seq<char>) -> nat {
    spec_data_rows_before(ls, base, ls.len() as int)
}

proof fn lemma_data_rows_before_mono(ls: Seq<Seq<char>>, base: Seq<char>, i: int, j: int)
    requires
        i <= j,
    ensures
        spec_data_rows_before(ls, base, i) <= spec_data_rows_before(ls, base, j),
    decreases j - i,
{
    if i < j {
        lemma_data_rows_before_mono(ls, base, i, j - 1);
    }
}

proof fn lemma_data_row_ordinal(ls: Seq<Seq<char>>, base: Seq<char>, i: int)
    requires
        0 <= i < ls.len(),
        spec_classify(i, ls[i], base) is Data,
    ensures
        spec_data_rows_before(ls, base, i) < spec_n_data_rows(ls, base),
{
    assert(spec_data_rows_before(ls, base, i + 1) == spec_data_rows_before(ls, base, i) + 1);
    lemma_data_rows_before_mono(ls, base, i + 1, ls.len() as int);
}

/// The text row `i` gains: name fields on the header row, count fields on a
/// data row (counting the file of that row, the k-th entry of `files` for the
/// k-th data row), widened rules on a separator row, and nothing elsewhere.
pub open spec fn spec_row_suffix(
    ls: Seq<Seq<char>>,
    base: Seq<char>,
    names: Seq<Seq<char>>,
    groups: Seq<Seq<Seq<char>>>,
    files: Seq<Option<Seq<char>>>,
    i: int,
) -> Seq<char> {
    match spec_classify(i, ls[i], base) {
        RowKind::Header => spec_header_suffix(names),
        RowKind::Data => spec_data_suffix(
            files[spec_data_rows_before(ls, base, i) as int],
            groups,
        ),
        RowKind::Separator { equals, dashes } => spec_separator_suffix(equals, dashes),
        RowKind::Other => Seq::<char>::empty(),
    }
}

/// The rows of the augmented report: each input row followed by exactly the
/// fields it gains, in the original order.
pub open spec fn spec_aug_lines(
    ls: Seq<Seq<char>>,
    base: Seq<char>,
    names: Seq<Seq<char>>,
    groups: Seq<Seq<Seq<char>>>,
    files: Seq<Option<Seq<char>>>,
) -> Seq<Seq<char>> {
    Seq::new(ls.len(), |i: int| ls[i] + spec_row_suffix(ls, base, names, groups, files, i))
}

/// No line of `ls` contains a line feed.
pub open spec fn spec_no_line_feeds(ls: Seq<Seq<char>>) -> bool {
    forall|i: int, j: int| 0 <= i < ls.len() && 0 <= j < ls[i].len() ==> ls[i][j] != '\n'
}

proof fn lemma_pad_no_line_feed(s: Seq<char>)
    requires
        forall|j: int| 0 <= j < s.len() ==> s[j] != '\n',
    ensures
        forall|j: int| 0 <= j < spec_pad_field(s).len() ==> spec_pad_field(s)[j] != '\n',
{
    let p = spec_pad_field(s);
    assert forall|j: int| 0 <= j < p.len() implies p[j] != '\n' by {
        if s.len() < spec_field_width() && j >= spec_field_width() - s.len() {
            assert(p[j] == s[j - (spec_field_width() - s.len())]);
        }
    }
}

proof fn lemma_header_suffix_no_line_feed(names: Seq<Seq<char>>)
    requires
        spec_no_line_feeds(names),
    ensures
        forall|j: int|
            0 <= j < spec_header_suffix(names).len() ==> spec_header_suffix(names)[j] != '\n',
    decreases names.len(),
{
    if names.len() > 0 {
        let front = names.drop_last();
        assert forall|i: int, j: int|
            0 <= i < front.len() && 0 <= j < front[i].len() implies front[i][j] != '\n' by {
            assert(front[i] == names[i]);
        }
        lemma_header_suffix_no_line_feed(front);
        lemma_pad_no_line_feed(names.last());
        assert forall|j: int|
            0 <= j < spec_header_suffix(names).len() implies spec_header_suffix(names)[j]
            != '\n' by {
            if j >= spec_header_suffix(front).len() {
                assert(spec_header_suffix(names)[j] == spec_pad_field(names.last())[j
                    - spec_header_suffix(front).len()]);
            }
        }
    }
}

proof fn lemma_data_suffix_no_line_feed(file: Option<Seq<char>>, groups: Seq<Seq<Seq<char>>>)
    ensures
        forall|j: int|
            0 <= j < spec_data_suffix(file, groups).len() ==> spec_data_suffix(file, groups)[j]
                != '\n',
    decreases groups.len(),
{
    if groups.len() > 0 {
        let front = groups.drop_last();
        lemma_data_suffix_no_line_feed(file, front);
        lemma_dec_no_line_feed(spec_quantify(file, groups.last()));
        lemma_pad_no_line_feed(spec_dec(spec_quantify(file, groups.last())));
        let f = spec_pad_field(spec_dec(spec_quantify(file, groups.last())));
        assert forall|j: int|
            0 <= j < spec_data_suffix(file, groups).len() implies spec_data_suffix(file, groups)[j]
            != '\n' by {
            if j >= spec_data_suffix(file, front).len() {
                assert(spec_data_suffix(file, groups)[j] == f[j - spec_data_suffix(
                    file,
                    front,
                ).len()]);
            }
        }
    }
}

/// What any row gains is free of line feeds, as long as no group name holds
/// one, so augmentation cannot change how the text splits into rows.
proof fn lemma_row_suffix_no_line_feed(
    ls: Seq<Seq<char>>,
    base: Seq<char>,
    names: Seq<Seq<char>>,
    groups: Seq<Seq<Seq<char>>>,
    files: Seq<Option<Seq<char>>>,
    i: int,
)
    requires
        spec_no_line_feeds(names),
    ensures
        forall|j: int|
            0 <= j < spec_row_suffix(ls, base, names, groups, files, i).len() ==> spec_row_suffix(
                ls,
                base,
                names,
                groups,
                files,
                i,
            )[j] != '\n',
{
    match spec_classify(i, ls[i], base) {
        RowKind::Header => {
            lemma_header_suffix_no_line_feed(names);
        },
        RowKind::Data => {
            lemma_data_suffix_no_line_feed(
                files[spec_data_rows_before(ls, base, i) as int],
                groups,
            );
        },
        RowKind::Separator { equals, dashes } => {
        },
        RowKind::Other => {
        },
    }
}

/// The rows of an augmented report are free of line feeds when the input rows
/// and the group names are.
proof fn lemma_aug_no_line_feed(
    ls: Seq<Seq<char>>,
    base: Seq<char>,
    names: Seq<Seq<char>>,
    groups: Seq<Seq<Seq<char>>>,
    files: Seq<Option<Seq<char>>>,
)
    requires
        spec_no_line_feeds(ls),
        spec_no_line_feeds(names),
    ensures
        spec_no_line_feeds(spec_aug_lines(ls, base, names, groups, files)),
{
    let aug = spec_aug_lines(ls, base, names, groups, files);
    assert forall|i: int, j: int|
        0 <= i < aug.len() && 0 <= j < aug[i].len() implies aug[i][j] != '\n' by {
        lemma_row_suffix_no_line_feed(ls, base, names, groups, files, i);
        if j >= ls[i].len() {
            assert(aug[i][j] == spec_row_suffix(ls, base, names, groups, files, i)[j
                - ls[i].len()]);
        } else {
            assert(aug[i][j] == ls[i][j]);
        }
    }
}

fn append_header_fields(line: &String, insights: &Vec<Insight>) -> (r: String)
    ensures
        r@ == line@ + spec_header_suffix(spec_names(insights@)),
{
    let mut r = String::from_str(line.as_str());
    let mut j: usize = 0;
    proof {
        assert(r@ =~= line@ + spec_header_suffix(spec_names(insights@).take(0)));
    }
    while j < insights.len()
        invariant
            j <= insights@.len(),
            r@ == line@ + spec_header_suffix(spec_names(insights@).take(j as int)),
        decreases insights@.len() - j,
    {
        let field = pad_field(insights[j].display_name());
        r.append(field.as_str());
        proof {
            let names = spec_names(insights@);
            assert(names.take(j + 1).drop_last() =~= names.take(j as int));
            assert(names.take(j + 1).last() == names[j as int]);
            assert(r@ =~= line@ + spec_header_suffix(names.take(j + 1)));
        }
        j += 1;
    }
    proof {
        assert(spec_names(insights@).take(insights@.len() as int) =~= spec_names(insights@));
    }
    r
}

fn append_count_fields(line: &String, file: &Option<String>, insights: &Vec<Insight>) -> (r:
    String)
    ensures
        r@ == line@ + spec_data_suffix(spec_opt_view(*file), spec_groups(insights@)),
{
    let mut r = String::from_str(line.as_str());
    let mut j: usize = 0;
    proof {
        assert(r@ =~= line@ + spec_data_suffix(spec_opt_view(*file), spec_groups(insights@).take(0)));
    }
    while j < insights.len()
        invariant
            j <= insights@.len(),
            r@ == line@ + spec_data_suffix(spec_opt_view(*file), spec_groups(insights@).take(j as int)),
        decreases insights@.len() - j,
    {
        let q = quantify_insight(file, &insights[j]);
        let digits = dec_string(q);
        let field = pad_field(digits.as_str());
        r.append(field.as_str());
        proof {
            let groups = spec_groups(insights@);
            assert(groups.take(j + 1).drop_last() =~= groups.take(j as int));
            assert(groups.take(j + 1).last() == groups[j as int]);
            assert(r@ =~= line@ + spec_data_suffix(spec_opt_view(*file), groups.take(j + 1)));
        }
        j += 1;
    }
    proof {
        assert(spec_groups(insights@).take(insights@.len() as int) =~= spec_groups(insights@));
    }
    r
}

fn append_separator_fields(line: &String, equals: bool, dashes: bool) -> (r: String)
    ensures
        r@ == line@ + spec_separator_suffix(equals, dashes),
{
    let mut r = String::from_str(line.as_str());
    if equals {
        r.append("=============");
        proof {
            reveal_strlit("=============");
            assert("============="@ =~= spec_thirteen('='));
        }
    }
    if dashes {
        r.append("-------------");
        proof {
            reveal_strlit("-------------");
            assert("-------------"@ =~= spec_thirteen('-'));
        }
    }
    proof {
        assert(r@ =~= line@ + spec_separator_suffix(equals, dashes));
    }
    r
}

/// The one fatal condition of augmentation: a data row whose first field,
/// after the leading space, yields no file path. It aborts the run rather
/// than being skipped.
#[derive(Clone, Copy, Debug, PartialEq, Eq, Structural)]
pub enum AugmentError {
    MalformedDataRow,
}

/// Every data row of the report carries an extractable file path.
pub open spec fn spec_rows_well_formed(ls: Seq<Seq<char>>, base: Seq<char>) -> bool {
    forall|i: int|
        0 <= i < ls.len() && #[trigger] spec_classify(i, ls[i], base) is Data
            ==> spec_extract_path(ls[i]) is Some
}

/// The file paths named by the data rows of a report, in row order: the k-th
/// returned path belongs to the k-th data row. An unreadable report (`None`)
/// names no files; a malformed data row is fatal.
#[verifier::loop_isolation(false)]
pub fn data_row_paths(content: &Option<String>, base_path: &str) -> (r: Result<
    Vec<String>,
    AugmentError,
>)
    ensures
        ({
            match *content {
                None => r matches Ok(v) && v@.len() == 0,
                Some(text) => {
                    let ls = spec_lines(text@);
                    &&& (r is Ok <==> spec_rows_well_formed(ls, base_path@))
                    &&& (r is Err ==> r == Err::<Vec<String>, AugmentError>(
                        AugmentError::MalformedDataRow,
                    ))
                    &&& (r matches Ok(v) ==> {
                        &&& v@.len() == spec_n_data_rows(ls, base_path@)
                        &&& forall|i: int|
                            0 <= i < ls.len() && #[trigger] spec_classify(i, ls[i], base_path@)
                                is Data ==> Some(
                                v@[spec_data_rows_before(ls, base_path@, i) as int]@,
                            ) == spec_extract_path(ls[i])
                    })
                },
            }
        }),
{
    match content {
        None => Ok(Vec::new()),
        Some(text) => {
            let ghost ls = spec_lines(text@);
            let lines = split_lines(text.as_str());
            let mut paths: Vec<String> = Vec::new();
            let mut ix: usize = 0;
            while ix < lines.len()
                invariant
                    ix <= lines@.len(),
                    seq_views(lines@) == ls,
                    paths@.len() == spec_data_rows_before(ls, base_path@, ix as int),
                    forall|i: int|
                        0 <= i < ix && #[trigger] spec_classify(i, ls[i], base_path@) is Data
                            ==> Some(
                            paths@[spec_data_rows_before(ls, base_path@, i) as int]@,
                        ) == spec_extract_path(ls[i]),
                decreases lines@.len() - ix,
            {
                let line = &lines[ix];
                proof {
                    assert(line@ == ls[ix as int]);
                }
                let kind = classify_row(ix, line.as_str(), base_path);
                match kind {
                    RowKind::Data => {
                        match extract_path(line.as_str()) {
                            Some(p) => {
                                proof {
                                    assert forall|i: int|
                                        0 <= i < ix && #[trigger] spec_classify(
                                            i,
                                            ls[i],
                                            base_path@,
                                        ) is Data implies spec_data_rows_before(ls, base_path@, i)
                                        < paths@.len() by {
                                        assert(spec_data_rows_before(ls, base_path@, i + 1)
                                            == spec_data_rows_before(ls, base_path@, i) + 1);
                                        lemma_data_rows_before_mono(
                                            ls,
                                            base_path@,
                                            i + 1,
                                            ix as int,
                                        );
                                    }
                                }
                                paths.push(p);
                            },
                            None => {
                                proof {
                                    assert(spec_classify(ix as int, ls[ix as int], base_path@)
                                        is Data && spec_extract_path(ls[ix as int]) is None);
                                }
                                return Err(AugmentError::MalformedDataRow);
                            },
                        }
                    },
                    _ => {},
                }
                ix += 1;
            }
            Ok(paths)
        },
    }
}

/// Takes a report produced by the external counting tool — given as its text,
/// or `None` where the report could not be read, in which case nothing is
/// done — and yields it extended with the insight columns: the header row
/// gains one name field per insight, each data row gains one count field per
/// insight counting that row's own file, separator rows are widened, and all
/// other rows pass through unchanged. `files` holds the text of the k-th data
/// row's file at index k, `None` where that file could not be read (which
/// counts zero). A data row whose path cannot be extracted is fatal rather
/// than skipped, though only when there is at least one insight, since only
/// then is the path needed at all.
#[verifier::loop_isolation(false)]
pub fn add_insights_to_output(
    content: &Option<String>,
    base_path: &str,
    insights: &Vec<Insight>,
    files: &Vec<Option<String>>,
) -> (r: Result<Option<String>, AugmentError>)
    requires
        match *content {
            Some(text) => files@.len() == spec_n_data_rows(spec_lines(text@), base_path@),
            None => true,
        },
    ensures
        ({
            match *content {
                None => r == Ok::<Option<String>, AugmentError>(None),
                Some(text) => {
                    let ls = spec_lines(text@);
                    let ok = insights@.len() == 0 || spec_rows_well_formed(ls, base_path@);
                    &&& (r is Ok <==> ok)
                    &&& (!ok ==> r == Err::<Option<String>, AugmentError>(
                        AugmentError::MalformedDataRow,
                    ))
                    &&& (ok ==> (r matches Ok(o) && (o matches Some(out) && out@ == spec_join(
                        spec_aug_lines(
                            ls,
                            base_path@,
                            spec_names(insights@),
                            spec_groups(insights@),
                            spec_files_view(files@),
                        ),
                    ))))
                },
            }
        }),
{
    match content {
        None => Ok(None),
        Some(text) => {
            let ghost ls = spec_lines(text@);
            let ghost names = spec_names(insights@);
            let ghost groups = spec_groups(insights@);
            let ghost fviews = spec_files_view(files@);
            let ghost aug = spec_aug_lines(ls, base_path@, names, groups, fviews);
            let lines = split_lines(text.as_str());
            let mut out: Vec<String> = Vec::new();
            let mut k: usize = 0;
            let mut ix: usize = 0;
            proof {
                assert(seq_views(out@) =~= aug.take(0));
            }
            while ix < lines.len()
                invariant
                    ix <= lines@.len(),
                    seq_views(lines@) == ls,
                    names == spec_names(insights@),
                    groups == spec_groups(insights@),
                    fviews == spec_files_view(files@),
                    aug == spec_aug_lines(ls, base_path@, names, groups, fviews),
                    files@.len() == spec_n_data_rows(ls, base_path@),
                    k == spec_data_rows_before(ls, base_path@, ix as int),
                    out@.len() == ix,
                    seq_views(out@) == aug.take(ix as int),
                    insights@.len() > 0 ==> forall|i: int|
                        0 <= i < ix && #[trigger] spec_classify(i, ls[i], base_path@) is Data
                            ==> spec_extract_path(ls[i]) is Some,
                decreases lines@.len() - ix,
            {
                let line = &lines[ix];
                proof {
                    assert(line@ == ls[ix as int]);
                }
                let kind = classify_row(ix, line.as_str(), base_path);
                let new_line: String = match kind {
                    RowKind::Header => {
                        let nl = append_header_fields(line, insights);
                        proof {
                            assert(nl@ == ls[ix as int] + spec_row_suffix(
                                ls,
                                base_path@,
                                names,
                                groups,
                                fviews,
                                ix as int,
                            ));
                        }
                        nl
                    },
                    RowKind::Data => {
                        if insights.len() > 0 {
                            match extract_path(line.as_str()) {
                                Some(_) => {},
                                None => {
                                    proof {
                                        assert(spec_classify(ix as int, ls[ix as int], base_path@)
                                            is Data && spec_extract_path(ls[ix as int]) is None);
                                    }
                                    return Err(AugmentError::MalformedDataRow);
                                },
                            }
                        }
                        proof {
                            lemma_data_row_ordinal(ls, base_path@, ix as int);
                            assert(k < files.len());
                        }
                        let nl = append_count_fields(line, &files[k], insights);
                        proof {
                            assert(fviews[k as int] == spec_opt_view(files@[k as int]));
                            assert(nl@ == ls[ix as int] + spec_row_suffix(
                                ls,
                                base_path@,
                                names,
                                groups,
                                fviews,
                                ix as int,
                            ));
                        }
                        k += 1;
                        nl
                    },
                    RowKind::Separator { equals, dashes } => {
                        let nl = append_separator_fields(line, equals, dashes);
                        proof {
                            assert(nl@ == ls[ix as int] + spec_row_suffix(
                                ls,
                                base_path@,
                                names,
                                groups,
                                fviews,
                                ix as int,
                            ));
                        }
                        nl
                    },
                    RowKind::Other => {
                        let nl = String::from_str(line.as_str());
                        proof {
                            assert(nl@ =~= ls[ix as int] + spec_row_suffix(
                                ls,
                                base_path@,
                                names,
                                groups,
                                fviews,
                                ix as int,
                            ));
                        }
                        nl
                    },
                };
                proof {
                    assert(aug[ix as int] == ls[ix as int] + spec_row_suffix(
                        ls,
                        base_path@,
                        names,
                        groups,
                        fviews,
                        ix as int,
                    ));
                    assert(seq_views(out@).push(new_line@) =~= aug.take(ix + 1));
                }
                out.push(new_line);
                ix += 1;
            }
            proof {
                assert(aug.take(lines@.len() as int) =~= aug);
            }
            let joined = join_lines(&out);
            Ok(Some(joined))
        },
    }
}

/// Row-order preservation: the augmented report has exactly as many rows as
/// the report it was built from, and its i-th row is the i-th input row
/// followed by precisely the fields that row gains — provided no group name
/// holds a line feed, which would itself break a row in two.
pub proof fn lemma_row_order_preserved(
    content: Seq<char>,
    base: Seq<char>,
    names: Seq<Seq<char>>,
    groups: Seq<Seq<Seq<char>>>,
    files: Seq<Option<Seq<char>>>,
)
    requires
        spec_no_line_feeds(names),
    ensures
        ({
            let ls = spec_lines(content);
            let aug = spec_aug_lines(ls, base, names, groups, files);
            let out = spec_lines(spec_join(aug));
            &&& out.len() == ls.len()
            &&& forall|i: int|
                0 <= i < ls.len() ==> out[i] == ls[i] + spec_row_suffix(
                    ls,
                    base,
                    names,
                    groups,
                    files,
                    i,
                )
        }),
{
    let ls = spec_lines(content);
    let aug = spec_aug_lines(ls, base, names, groups, files);
    lemma_lines_nonempty(content);
    lemma_lines_no_line_feed(content);
    lemma_aug_no_line_feed(ls, base, names, groups, files);
    lemma_lines_of_join(aug);
}

/// Idempotence of structure: augmenting a report a second time with the same
/// groups leaves the row count unchanged and only appends to each row — what
/// a row already held after the first pass is never modified. The counts of
/// the second pass may differ (they come from `files2`); the structure does
/// not. Group names must be free of line feeds, which would themselves break
/// rows in two.
pub proof fn lemma_augment_twice_structure(
    content: Seq<char>,
    base: Seq<char>,
    names: Seq<Seq<char>>,
    groups: Seq<Seq<Seq<char>>>,
    files1: Seq<Option<Seq<char>>>,
    files2: Seq<Option<Seq<char>>>,
)
    requires
        spec_no_line_feeds(names),
    ensures
        ({
            let once = spec_lines(
                spec_join(spec_aug_lines(spec_lines(content), base, names, groups, files1)),
            );
            let twice = spec_lines(spec_join(spec_aug_lines(once, base, names, groups, files2)));
            &&& twice.len() == once.len()
            &&& forall|i: int|
                0 <= i < once.len() ==> twice[i].take(once[i].len() as int) == once[i]
        }),
{
    let ls = spec_lines(content);
    let aug1 = spec_aug_lines(ls, base, names, groups, files1);
    lemma_lines_nonempty(content);
    lemma_lines_no_line_feed(content);
    lemma_aug_no_line_feed(ls, base, names, groups, files1);
    lemma_lines_of_join(aug1);
    let once = spec_lines(spec_join(aug1));
    let aug2 = spec_aug_lines(once, base, names, groups, files2);
    lemma_aug_no_line_feed(once, base, names, groups, files2);
    lemma_lines_of_join(aug2);
    let twice = spec_lines(spec_join(aug2));
    assert forall|i: int| 0 <= i < once.len() implies twice[i].take(once[i].len() as int)
        == once[i] by {
        assert(twice[i] == once[i] + spec_row_suffix(once, base, names, groups, files2, i));
        assert(twice[i].take(once[i].len() as int) =~= once[i]);
    }
}

proof fn lemma_header_suffix_fields(names: Seq<Seq<char>>)
    requires
        forall|j: int| 0 <= j < names.len() ==> (#[trigger] names[j]).len() <= spec_field_width(),
    ensures
        spec_header_suffix(names).len() == names.len() * spec_field_width(),
        forall|j: int|
            0 <= j < names.len() ==> #[trigger] spec_header_suffix(names).subrange(
                spec_field_width() * j,
                spec_field_width() * j + spec_field_width(),
            ) == spec_spaces((spec_field_width() - names[j].len()) as nat) + names[j],
    decreases names.len(),
{
    let w = spec_field_width() as int;
    if names.len() > 0 {
        let front = names.drop_last();
        lemma_header_suffix_fields(front);
        let hs = spec_header_suffix(names);
        let last = names.last();
        assert(spec_pad_field(last).len() == w) by {
            if last.len() == spec_field_width() {
                assert(spec_pad_field(last) == last);
            }
        }
        assert(hs.len() == names.len() * w);
        assert forall|j: int|
            0 <= j < names.len() implies #[trigger] hs.subrange(w * j, w * j + w) == spec_spaces(
            (spec_field_width() - names[j].len()) as nat,
        ) + names[j] by {
            if j < names.len() - 1 {
                assert(hs.subrange(w * j, w * j + w) =~= spec_header_suffix(front).subrange(
                    w * j,
                    w * j + w,
                ));
                assert(front[j] == names[j]);
            } else {
                assert(hs.subrange(w * j, w * j + w) =~= spec_pad_field(last));
                if last.len() == spec_field_width() {
                    assert(spec_pad_field(last) =~= spec_spaces(
                        (spec_field_width() - last.len()) as nat,
                    ) + last);
                }
            }
        }
    }
}

/// The header row gains exactly one field per group, in catalog order, each
/// exactly one field width wide and right-aligned: spaces, then the group's
/// display name — for names that fit the field width. (A longer name is
/// appended whole, distorting alignment rather than being truncated.)
pub proof fn lemma_header_row_fields(
    ls: Seq<Seq<char>>,
    base: Seq<char>,
    names: Seq<Seq<char>>,
    groups: Seq<Seq<Seq<char>>>,
    files: Seq<Option<Seq<char>>>,
)
    requires
        ls.len() > 1,
        forall|j: int| 0 <= j < names.len() ==> (#[trigger] names[j]).len() <= spec_field_width(),
    ensures
        ({
            let aug = spec_aug_lines(ls, base, names, groups, files);
            &&& aug[1] == ls[1] + spec_header_suffix(names)
            &&& spec_header_suffix(names).len() == names.len() * spec_field_width()
            &&& forall|j: int|
                0 <= j < names.len() ==> #[trigger] spec_header_suffix(names).subrange(
                    spec_field_width() * j,
                    spec_field_width() * j + spec_field_width(),
                ) == spec_spaces((spec_field_width() - names[j].len()) as nat) + names[j]
        }),
{
    lemma_header_suffix_fields(names);
}

/// Separator rows: a row that is neither the header nor a data row gains
/// thirteen `=` when it contains a run of ten or more `=`, then thirteen `-`
/// when it contains a run of ten or more `-`, and is unchanged when it
/// contains neither.
pub proof fn lemma_separator_row(
    ls: Seq<Seq<char>>,
    base: Seq<char>,
    names: Seq<Seq<char>>,
    groups: Seq<Seq<Seq<char>>>,
    files: Seq<Option<Seq<char>>>,
    i: int,
)
    requires
        0 <= i < ls.len(),
        i != 1,
        !spec_is_data_row(ls[i], base),
    ensures
        ({
            let aug = spec_aug_lines(ls, base, names, groups, files);
            let equals = spec_has_run(ls[i], '=');
            let dashes = spec_has_run(ls[i], '-');
            &&& (equals && !dashes ==> aug[i] == ls[i] + spec_thirteen('='))
            &&& (!equals && dashes ==> aug[i] == ls[i] + spec_thirteen('-'))
            &&& (equals && dashes ==> aug[i] == ls[i] + spec_thirteen('=') + spec_thirteen('-'))
            &&& (!equals && !dashes ==> aug[i] == ls[i])
        }),
{
    let aug = spec_aug_lines(ls, base, names, groups, files);
    let equals = spec_has_run(ls[i], '=');
    let dashes = spec_has_run(ls[i], '-');
    if equals && !dashes {
        assert(aug[i] =~= ls[i] + spec_thirteen('='));
    } else if !equals && dashes {
        assert(aug[i] =~= ls[i] + spec_thirteen('-'));
    } else if equals && dashes {
        assert(aug[i] =~= ls[i] + spec_thirteen('=') + spec_thirteen('-'));
    } else {
        assert(aug[i] =~= ls[i]);
    }
}

} // verus!
