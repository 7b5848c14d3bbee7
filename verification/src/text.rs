//! Character and line utilities for the report text: splitting a report into
//! lines, joining lines back, and the whitespace class used to separate the
//! columns of a data row.

use vstd::prelude::*;

verus! {

/// The whitespace class used when splitting a data row into fields: the
/// Unicode `White_Space` code points.
pub open spec fn spec_is_ws(c: char) -> bool {
    ||| ('\u{0009}' <= c && c <= '\u{000D}')
    ||| c == ' '
    ||| c == '\u{0085}'
    ||| c == '\u{00A0}'
    ||| c == '\u{1680}'
    ||| ('\u{2000}' <= c && c <= '\u{200A}')
    ||| c == '\u{2028}'
    ||| c == '\u{2029}'
    ||| c == '\u{202F}'
    ||| c == '\u{205F}'
    ||| c == '\u{3000}'
}

/// Decides membership in the whitespace class of `spec_is_ws`.
pub fn is_ws_char(c: char) -> (b: bool)
    ensures
        b == spec_is_ws(c),
{
    ('\u{0009}' <= c && c <= '\u{000D}') || c == ' ' || c == '\u{0085}' || c == '\u{00A0}' || c
        == '\u{1680}' || ('\u{2000}' <= c && c <= '\u{200A}') || c == '\u{2028}' || c == '\u{2029}'
        || c == '\u{202F}' || c == '\u{205F}' || c == '\u{3000}'
}

/// Copies the characters of a string into a vector, for random access.
pub fn str_chars(s: &str) -> (v: Vec<char>)
    ensures
        v@ == s@,
{
    let n = s.unicode_len();
    let mut v: Vec<char> = Vec::new();
    let mut i: usize = 0;
    while i < n
        invariant
            i <= n,
            n == s@.len(),
            v@ == s@.take(i as int),
        decreases n - i,
    {
        v.push(s.get_char(i));
        proof {
            assert(v@ =~= s@.take(i + 1));
        }
        i += 1;
    }
    proof {
        assert(v@ =~= s@);
    }
    v
}

/// The view of an optional string: the text of a file that could be read, or
/// `None` for one that could not.
pub open spec fn spec_opt_view(o: Option<String>) -> Option<Seq<char>> {
    match o {
        Some(s) => Some(s@),
        None => None,
    }
}

/// The views of a sequence of strings.
pub open spec fn seq_views(v: Seq<String>) -> Seq<Seq<char>> {
    v.map_values(|x: String| x@)
}

/// The lines of a text: the segments obtained by splitting on every line-feed
/// character. An empty text has one (empty) line, and every line feed ends a
/// line, so a trailing line feed yields a final empty line.
pub open spec fn spec_lines(s: Seq<char>) -> Seq<Seq<char>>
    decreases s.len(),
{
    if s.len() == 0 {
        seq![Seq::<char>::empty()]
    } else if s.last() == '\n' {
        spec_lines(s.drop_last()).push(Seq::<char>::empty())
    } else {
        let prev = spec_lines(s.drop_last());
        prev.update(prev.len() - 1, prev.last().push(s.last()))
    }
}

/// A text always has at least one line.
pub proof fn lemma_lines_nonempty(s: Seq<char>)
    ensures
        spec_lines(s).len() >= 1,
    decreases s.len(),
{
    if s.len() != 0 {
        lemma_lines_nonempty(s.drop_last());
    }
}

/// No line produced by `spec_lines` contains a line feed.
pub proof fn lemma_lines_no_line_feed(s: Seq<char>)
    ensures
        forall|i: int, j: int|
            0 <= i < spec_lines(s).len() && 0 <= j < spec_lines(s)[i].len() ==> spec_lines(
                s,
            )[i][j] != '\n',
    decreases s.len(),
{
    if s.len() != 0 {
        lemma_lines_no_line_feed(s.drop_last());
        lemma_lines_nonempty(s.drop_last());
    }
}

/// Splits a string into its lines, one string per line.
pub fn split_lines(s: &str) -> (v: Vec<String>)
    ensures
        seq_views(v@) == spec_lines(s@),
{
    let n = s.unicode_len();
    let mut v: Vec<String> = Vec::new();
    let mut start: usize = 0;
    let mut i: usize = 0;
    proof {
        assert(seq_views(v@).push(s@.subrange(0, 0)) =~~= spec_lines(s@.take(0)));
    }
    while i < n
        invariant
            start <= i <= n,
            n == s@.len(),
            seq_views(v@).push(s@.subrange(start as int, i as int)) == spec_lines(
                s@.take(i as int),
            ),
        decreases n - i,
    {
        let c = s.get_char(i);
        proof {
            assert(s@.take(i + 1).drop_last() =~= s@.take(i as int));
            assert(s@.take(i + 1).last() == s@[i as int]);
            lemma_lines_nonempty(s@.take(i as int));
        }
        if c == '\n' {
            let ghost old_views = seq_views(v@);
            v.push(String::from_str(s.substring_char(start, i)));
            proof {
                assert(seq_views(v@) =~= old_views.push(s@.subrange(start as int, i as int)));
                assert(seq_views(v@).push(s@.subrange(i + 1, i + 1)) =~~= spec_lines(
                    s@.take(i as int),
                ).push(Seq::<char>::empty()));
            }
            start = i + 1;
        } else {
            proof {
                let prev = spec_lines(s@.take(i as int));
                assert(prev.last() == s@.subrange(start as int, i as int));
                assert(s@.subrange(start as int, i as int).push(s@[i as int]) =~= s@.subrange(
                    start as int,
                    i + 1,
                ));
                assert(seq_views(v@).push(s@.subrange(start as int, i + 1)) =~= prev.update(
                    prev.len() - 1,
                    prev.last().push(s@[i as int]),
                ));
            }
        }
        i += 1;
    }
    proof {
        assert(s@.take(n as int) =~= s@);
    }
    let ghost old_views = seq_views(v@);
    v.push(String::from_str(s.substring_char(start, n)));
    proof {
        assert(seq_views(v@) =~= old_views.push(s@.subrange(start as int, n as int)));
    }
    v
}

/// A text without line feeds is one single line.
pub proof fn lemma_lines_single(l: Seq<char>)
    requires
        forall|j: int| 0 <= j < l.len() ==> l[j] != '\n',
    ensures
        spec_lines(l) == seq![l],
    decreases l.len(),
{
    if l.len() == 0 {
        assert(spec_lines(l) =~~= seq![l]);
    } else {
        lemma_lines_single(l.drop_last());
        assert(l.drop_last().push(l.last()) =~= l);
        assert(spec_lines(l) =~~= seq![l]);
    }
}

/// Appending text without line feeds extends the last line and nothing else.
pub proof fn lemma_lines_append(s: Seq<char>, t: Seq<char>)
    requires
        forall|j: int| 0 <= j < t.len() ==> t[j] != '\n',
    ensures
        spec_lines(s + t) == spec_lines(s).update(
            spec_lines(s).len() - 1,
            spec_lines(s).last() + t,
        ),
    decreases t.len(),
{
    lemma_lines_nonempty(s);
    if t.len() == 0 {
        assert(s + t =~= s);
        assert(spec_lines(s).last() + t =~= spec_lines(s).last());
        assert(spec_lines(s).update(spec_lines(s).len() - 1, spec_lines(s).last() + t)
            =~= spec_lines(s));
    } else {
        let t0 = t.drop_last();
        lemma_lines_append(s, t0);
        assert((s + t).drop_last() =~= s + t0);
        assert((s + t).last() == t.last());
        let p = spec_lines(s + t0);
        assert(p.last() == spec_lines(s).last() + t0);
        assert((spec_lines(s).last() + t0).push(t.last()) =~= spec_lines(s).last() + t);
        assert(spec_lines(s + t) =~= spec_lines(s).update(
            spec_lines(s).len() - 1,
            spec_lines(s).last() + t,
        ));
    }
}

/// Splitting the join of line-feed-free lines gives those lines back.
pub proof fn lemma_lines_of_join(ls: Seq<Seq<char>>)
    requires
        ls.len() >= 1,
        forall|i: int, j: int| 0 <= i < ls.len() && 0 <= j < ls[i].len() ==> ls[i][j] != '\n',
    ensures
        spec_lines(spec_join(ls)) == ls,
    decreases ls.len(),
{
    if ls.len() == 1 {
        lemma_lines_single(ls[0]);
        assert(spec_lines(spec_join(ls)) =~= ls);
    } else {
        let front = ls.drop_last();
        assert forall|i: int, j: int|
            0 <= i < front.len() && 0 <= j < front[i].len() implies front[i][j] != '\n' by {
            assert(front[i] == ls[i]);
        }
        lemma_lines_of_join(front);
        let s1 = spec_join(front);
        assert((s1 + seq!['\n']).drop_last() =~= s1);
        assert((s1 + seq!['\n']).last() == '\n');
        assert(spec_lines(s1 + seq!['\n']) == spec_lines(s1).push(Seq::<char>::empty()));
        assert forall|j: int| 0 <= j < ls.last().len() implies ls.last()[j] != '\n' by {
            assert(ls[ls.len() - 1][j] != '\n');
        }
        lemma_lines_append(s1 + seq!['\n'], ls.last());
        assert(spec_join(ls) == (s1 + seq!['\n']) + ls.last());
        let q = spec_lines(s1 + seq!['\n']);
        assert(q.last() == Seq::<char>::empty());
        assert(q.last() + ls.last() =~= ls.last());
        assert(spec_lines(spec_join(ls)) =~= q.update(q.len() - 1, ls.last()));
        assert(q.update(q.len() - 1, ls.last()) =~= ls);
    }
}

/// The text whose lines are `ls`: the lines joined by single line feeds.
pub open spec fn spec_join(ls: Seq<Seq<char>>) -> Seq<char>
    decreases ls.len(),
{
    if ls.len() == 0 {
        Seq::<char>::empty()
    } else if ls.len() == 1 {
        ls[0]
    } else {
        spec_join(ls.drop_last()) + seq!['\n'] + ls.last()
    }
}

/// Joins lines into one string, with a line feed between neighbours.
pub fn join_lines(v: &Vec<String>) -> (s: String)
    ensures
        s@ == spec_join(seq_views(v@)),
{
    let mut s = String::new();
    let mut i: usize = 0;
    proof {
        reveal_strlit("\n");
    }
    while i < v.len()
        invariant
            i <= v.len(),
            s@ == spec_join(seq_views(v@).take(i as int)),
            "\n"@ =~= seq!['\n'],
        decreases v.len() - i,
    {
        if i > 0 {
            s.append("\n");
        }
        s.append(v[i].as_str());
        proof {
            let all = seq_views(v@);
            assert(all.take(i + 1).drop_last() =~= all.take(i as int));
            assert(all.take(i + 1).last() == all[i as int]);
            if i == 0 {
                assert(s@ =~= spec_join(all.take(i + 1)));
            } else {
                assert(s@ =~= spec_join(all.take(i as int)) + seq!['\n'] + all[i as int]);
            }
        }
        i += 1;
    }
    proof {
        assert(seq_views(v@).take(v@.len() as int) =~= seq_views(v@));
    }
    s
}

/// Every field appended to the report is padded to this display width, the
/// column width of the external counting tool's own columns.
pub open spec fn spec_field_width() -> nat {
    13
}

/// A run of `n` spaces.
pub open spec fn spec_spaces(n: nat) -> Seq<char> {
    Seq::new(n as nat, |i: int| ' ')
}

/// A value right-aligned in a field of the fixed display width: padded with
/// spaces on the left, or left as it stands if it is already wider.
pub open spec fn spec_pad_field(s: Seq<char>) -> Seq<char> {
    if s.len() >= spec_field_width() {
        s
    } else {
        spec_spaces((spec_field_width() - s.len()) as nat) + s
    }
}

/// Right-aligns `s` in a field of the fixed display width.
pub fn pad_field(s: &str) -> (r: String)
    ensures
        r@ == spec_pad_field(s@),
{
    let n = s.unicode_len();
    if n >= 13 {
        String::from_str(s)
    } else {
        let spaces = "             ";
        proof {
            reveal_strlit("             ");
        }
        let pad = spaces.substring_char(0, 13 - n);
        let mut r = String::from_str(pad);
        r.append(s);
        proof {
            assert(r@ =~= spec_pad_field(s@));
        }
        r
    }
}

/// The decimal digit `d` as a character.
pub open spec fn spec_digit(d: nat) -> char {
    if d == 0 {
        '0'
    } else if d == 1 {
        '1'
    } else if d == 2 {
        '2'
    } else if d == 3 {
        '3'
    } else if d == 4 {
        '4'
    } else if d == 5 {
        '5'
    } else if d == 6 {
        '6'
    } else if d == 7 {
        '7'
    } else if d == 8 {
        '8'
    } else {
        '9'
    }
}

/// The decimal representation of `n`, without sign or leading zeros.
pub open spec fn spec_dec(n: nat) -> Seq<char>
    decreases n,
{
    if n < 10 {
        seq![spec_digit(n)]
    } else {
        spec_dec(n / 10).push(spec_digit(n % 10))
    }
}

/// A decimal representation never contains a line feed.
pub proof fn lemma_dec_no_line_feed(n: nat)
    ensures
        forall|i: int| 0 <= i < spec_dec(n).len() ==> spec_dec(n)[i] != '\n',
    decreases n,
{
    if n < 10 {
        assert(spec_dec(n)[0] == spec_digit(n));
    } else {
        lemma_dec_no_line_feed(n / 10);
        assert forall|i: int| 0 <= i < spec_dec(n).len() implies spec_dec(n)[i] != '\n' by {
            if i < spec_dec(n / 10).len() {
                assert(spec_dec(n)[i] == spec_dec(n / 10)[i]);
            } else {
                assert(spec_dec(n)[i] == spec_digit(n % 10));
            }
        }
    }
}

fn digit_str(d: usize) -> (r: &'static str)
    requires
        d < 10,
    ensures
        r@ == seq![spec_digit(d as nat)],
{
    let r: &'static str = if d == 0 {
        "0"
    } else if d == 1 {
        "1"
    } else if d == 2 {
        "2"
    } else if d == 3 {
        "3"
    } else if d == 4 {
        "4"
    } else if d == 5 {
        "5"
    } else if d == 6 {
        "6"
    } else if d == 7 {
        "7"
    } else if d == 8 {
        "8"
    } else {
        "9"
    };
    proof {
        reveal_strlit("0");
        reveal_strlit("1");
        reveal_strlit("2");
        reveal_strlit("3");
        reveal_strlit("4");
        reveal_strlit("5");
        reveal_strlit("6");
        reveal_strlit("7");
        reveal_strlit("8");
        reveal_strlit("9");
        assert(r@ =~= seq![spec_digit(d as nat)]);
    }
    r
}

/// Renders `n` in decimal.
pub fn dec_string(n: usize) -> (r: String)
    ensures
        r@ == spec_dec(n as nat),
    decreases n,
{
    if n < 10 {
        String::from_str(digit_str(n))
    } else {
        let mut r = dec_string(n / 10);
        r.append(digit_str(n % 10));
        proof {
            assert(r@ =~= spec_dec(n as nat));
        }
        r
    }
}

/// A run of ten `c` characters stands at index `i` of `l`.
pub open spec fn spec_run_at(l: Seq<char>, c: char, i: int) -> bool {
    0 <= i && i + 10 <= l.len() && (forall|j: int| i <= j < i + 10 ==> l[j] == c)
}

/// `l` contains a run of ten or more `c` characters.
pub open spec fn spec_has_run(l: Seq<char>, c: char) -> bool {
    exists|i: int| spec_run_at(l, c, i)
}

/// Decides whether `chars` contains a run of ten or more `c` characters.
pub fn has_ten_run(chars: &Vec<char>, c: char) -> (b: bool)
    ensures
        b == spec_has_run(chars@, c),
{
    let mut i: usize = 0;
    let mut run: usize = 0;
    while i < chars.len()
        invariant
            i <= chars@.len(),
            run <= i,
            run < 10,
            forall|j: int| i - run <= j < i ==> chars@[j] == c,
            run == i || (0 <= i - run - 1 && chars@[i - run - 1] != c),
            forall|k: int| 0 <= k && k + 10 <= i ==> !spec_run_at(chars@, c, k),
        decreases chars@.len() - i,
    {
        if chars[i] == c {
            run += 1;
            if run == 10 {
                proof {
                    assert(spec_run_at(chars@, c, i - 9));
                }
                return true;
            }
            proof {
                assert forall|k: int| 0 <= k && k + 10 <= i + 1 implies !spec_run_at(
                    chars@,
                    c,
                    k,
                ) by {
                    if k + 10 == i + 1 {
                        assert(k <= i - run < k + 10);
                        assert(chars@[i - run] != c);
                    }
                }
            }
        } else {
            run = 0;
            proof {
                assert forall|k: int| 0 <= k && k + 10 <= i + 1 implies !spec_run_at(
                    chars@,
                    c,
                    k,
                ) by {
                    if k + 10 == i + 1 {
                        assert(chars@[i as int] != c);
                    }
                }
            }
        }
        i += 1;
    }
    proof {
        assert forall|k: int| !spec_run_at(chars@, c, k) by {
            if 0 <= k && k + 10 <= chars@.len() {
                assert(!spec_run_at(chars@, c, k));
            }
        }
    }
    false
}

/// A two-character whitespace run stands at index `j` of `l`.
pub open spec fn spec_ws_run_at(l: Seq<char>, j: int) -> bool {
    0 <= j && j + 1 < l.len() && spec_is_ws(l[j]) && spec_is_ws(l[j + 1])
}

/// The end of the first field of a data row: the index where the first run of
/// two or more whitespace characters begins, or the length of the row if
/// there is no such run.
pub open spec fn spec_field_end(l: Seq<char>) -> int
    decreases l.len(),
{
    if l.len() < 2 {
        l.len() as int
    } else if spec_is_ws(l[0]) && spec_is_ws(l[1]) {
        0
    } else {
        1 + spec_field_end(l.drop_first())
    }
}

/// `spec_field_end` marks the first two-character whitespace run, or the end
/// of the row when there is none.
pub proof fn lemma_field_end(l: Seq<char>)
    ensures
        0 <= spec_field_end(l) <= l.len(),
        spec_field_end(l) < l.len() ==> spec_ws_run_at(l, spec_field_end(l)),
        forall|j: int| 0 <= j < spec_field_end(l) ==> !spec_ws_run_at(l, j),
    decreases l.len(),
{
    if l.len() >= 2 && !(spec_is_ws(l[0]) && spec_is_ws(l[1])) {
        let t = l.drop_first();
        lemma_field_end(t);
        assert forall|j: int| 0 <= j < spec_field_end(l) implies !spec_ws_run_at(l, j) by {
            if j > 0 {
                assert(!spec_ws_run_at(t, j - 1));
                assert(t[j - 1] == l[j]);
                if j + 1 < l.len() {
                    assert(t[j] == l[j + 1]);
                }
            }
        }
        if spec_field_end(l) < l.len() {
            assert(spec_ws_run_at(t, spec_field_end(t)));
            assert(t[spec_field_end(t)] == l[spec_field_end(l)]);
            assert(t[spec_field_end(t) + 1] == l[spec_field_end(l) + 1]);
        }
    }
}

/// Finds the end of the first field of a row: the index where the first run
/// of two or more whitespace characters begins, or the row length.
pub fn field_end(chars: &Vec<char>) -> (r: usize)
    ensures
        r as int == spec_field_end(chars@),
{
    let mut i: usize = 0;
    while i < chars.len() && i + 1 < chars.len()
        invariant
            i <= chars@.len(),
            forall|j: int| 0 <= j < i ==> !spec_ws_run_at(chars@, j),
        decreases chars@.len() - i,
    {
        if is_ws_char(chars[i]) && is_ws_char(chars[i + 1]) {
            proof {
                lemma_field_end(chars@);
                assert(spec_ws_run_at(chars@, i as int));
            }
            return i;
        }
        i += 1;
    }
    proof {
        lemma_field_end(chars@);
        if spec_field_end(chars@) < chars@.len() {
            assert(spec_ws_run_at(chars@, spec_field_end(chars@)));
        }
    }
    chars.len()
}

} // verus!
