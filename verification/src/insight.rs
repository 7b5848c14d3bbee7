//! Pattern groups ("insights") and the line counter: a group is a display
//! name and a set of patterns, and the count of a group over a file is the
//! number of lines matching at least one of its patterns.

use crate::text::{seq_views, spec_lines, spec_opt_view, split_lines};
use vstd::prelude::*;

verus! {

/// Whether `regex::Regex::new` accepts `pat` as a pattern. Compilation is a
/// function of the pattern string alone.
pub uninterp spec fn regex_compiles(pat: Seq<char>) -> bool;

/// Whether the expression compiled from `pat` matches anywhere in `line`:
/// the result of `regex::Regex::is_match`, a function of the pattern and the
/// line alone.
pub uninterp spec fn regex_matches(pat: Seq<char>, line: Seq<char>) -> bool;

/// Relies on regex::Regex::new: it accepts or rejects a pattern string,
/// deterministically in the pattern.
#[verifier::external_body]
fn regex_pattern_compiles(pat: &str) -> (r: bool)
    ensures
        r == regex_compiles(pat@),
{
    regex::Regex::new(pat).is_ok()
}

/// Relies on regex::Regex::new and regex::Regex::is_match: for a pattern that
/// compiles, whether the compiled expression matches anywhere in `line`,
/// deterministically in the pattern and the line.
#[verifier::external_body]
fn regex_line_matches(pat: &str, line: &str) -> (r: bool)
    requires
        regex_compiles(pat@),
    ensures
        r == regex_matches(pat@, line@),
{
    match regex::Regex::new(pat) {
        Ok(re) => re.is_match(line),
        Err(_) => false,
    }
}

/// A flexible "insight" into the code: a readable name and a collection of
/// patterns whose matching lines are counted together as one derived column.
pub struct Insight {
    display_name: String,
    patterns: Vec<String>,
}

impl Insight {
    /// The group's display name, used verbatim as its column header.
    pub closed spec fn spec_name(self) -> Seq<char> {
        self.display_name@
    }

    /// The group's pattern strings, in order.
    pub closed spec fn spec_patterns(self) -> Seq<Seq<char>> {
        seq_views(self.patterns@)
    }

    #[verifier::type_invariant]
    spec fn wf(self) -> bool {
        self.patterns@.len() > 0 && (forall|i: int|
            0 <= i < self.patterns@.len() ==> #[trigger] regex_compiles(self.patterns@[i]@))
    }

    /// Builds a group from a display name and pattern strings. Yields `None`
    /// exactly when some pattern string is not a valid pattern: a malformed
    /// pattern is a configuration error, so construction fails as a whole.
    pub fn new(display_name: &str, regex_strs: Vec<&str>) -> (r: Option<Insight>)
        requires
            regex_strs@.len() > 0,
        ensures
            (r is Some) <==> (forall|i: int|
                0 <= i < regex_strs@.len() ==> #[trigger] regex_compiles(regex_strs@[i]@)),
            r is Some ==> r.unwrap().spec_name() == display_name@,
            r is Some ==> r.unwrap().spec_patterns() == regex_strs@.map_values(|p: &str| p@),
    {
        let mut patterns: Vec<String> = Vec::new();
        let mut k: usize = 0;
        while k < regex_strs.len()
            invariant
                k <= regex_strs@.len(),
                patterns@.len() == k,
                forall|i: int| 0 <= i < k ==> patterns@[i]@ == #[trigger] regex_strs@[i]@,
                forall|i: int| 0 <= i < k ==> #[trigger] regex_compiles(regex_strs@[i]@),
            decreases regex_strs@.len() - k,
    {
            let p = regex_strs[k];
            if !regex_pattern_compiles(p) {
                return None;
            }
            patterns.push(String::from_str(p));
            k += 1;
        }
        proof {
            assert forall|i: int| 0 <= i < patterns@.len() implies #[trigger] regex_compiles(
                patterns@[i]@,
            ) by {
                assert(patterns@[i]@ == regex_strs@[i]@);
                assert(regex_compiles(regex_strs@[i]@));
            }
        }
        let r = Insight { display_name: String::from_str(display_name), patterns };
        proof {
            assert(r.spec_patterns() =~~= regex_strs@.map_values(|p: &str| p@));
        }
        Some(r)
    }

    /// The display name.
    pub fn display_name(&self) -> (r: &str)
        ensures
            r@ == self.spec_name(),
    {
        self.display_name.as_str()
    }

    /// The pattern strings, in order.
    pub fn patterns(&self) -> (r: &Vec<String>)
        ensures
            seq_views(r@) == self.spec_patterns(),
    {
        &self.patterns
    }
}

/// A line is counted for a group when at least one of the group's patterns
/// matches it; a line matching several patterns is still counted once.
pub open spec fn spec_line_counted(line: Seq<char>, pats: Seq<Seq<char>>) -> bool {
    exists|i: int| 0 <= i < pats.len() && regex_matches(pats[i], line)
}

/// The number of lines among `lines` counted for a group with patterns
/// `pats`.
pub open spec fn spec_count_matching(lines: Seq<Seq<char>>, pats: Seq<Seq<char>>) -> nat
    decreases lines.len(),
{
    if lines.len() == 0 {
        0
    } else {
        spec_count_matching(lines.drop_last(), pats) + (if spec_line_counted(lines.last(), pats) {
            1nat
        } else {
            0nat
        })
    }
}

/// The count of a group over a file: the number of lines of its text that
/// match at least one pattern of the group, and zero for an unreadable file.
pub open spec fn spec_quantify(data: Option<Seq<char>>, pats: Seq<Seq<char>>) -> nat {
    match data {
        None => 0,
        Some(text) => spec_count_matching(spec_lines(text), pats),
    }
}

fn line_matches_group(line: &str, insight: &Insight) -> (b: bool)
    ensures
        b == spec_line_counted(line@, insight.spec_patterns()),
{
    proof {
        use_type_invariant(insight);
    }
    let mut j: usize = 0;
    while j < insight.patterns.len()
        invariant
            j <= insight.patterns@.len(),
            insight.wf(),
            forall|i: int|
                0 <= i < j ==> !regex_matches(#[trigger] insight.spec_patterns()[i], line@),
        decreases insight.patterns@.len() - j,
    {
        if regex_line_matches(insight.patterns[j].as_str(), line) {
            proof {
                assert(regex_matches(insight.spec_patterns()[j as int], line@));
            }
            return true;
        }
        j += 1;
    }
    false
}

/// For a given file and insight, counts how many lines of the file satisfy at
/// least one of the insight's patterns. The file is given as its text, or as
/// `None` where it could not be read: an unreadable file silently counts
/// zero, so that one bad file never aborts a whole report.
pub fn quantify_insight(data: &Option<String>, insight: &Insight) -> (count: usize)
    ensures
        count == spec_quantify(spec_opt_view(*data), insight.spec_patterns()),
{
    match data {
        None => 0,
        Some(text) => {
            let lines = split_lines(text.as_str());
            let mut count: usize = 0;
            let mut i: usize = 0;
            while i < lines.len()
                invariant
                    i <= lines@.len(),
                    count <= i,
                    count == spec_count_matching(
                        seq_views(lines@).take(i as int),
                        insight.spec_patterns(),
                    ),
                decreases lines@.len() - i,
            {
                proof {
                    let all = seq_views(lines@);
                    assert(all.take(i + 1).drop_last() =~= all.take(i as int));
                    assert(all.take(i + 1).last() == all[i as int]);
                }
                if line_matches_group(lines[i].as_str(), insight) {
                    count += 1;
                }
                i += 1;
            }
            proof {
                assert(seq_views(lines@).take(lines@.len() as int) =~= seq_views(lines@));
            }
            count
        },
    }
}

} // verus!
