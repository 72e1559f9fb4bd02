//! Diffs between texts, line by line, and how they are applied.

use vstd::prelude::*;
use crate::text;

verus! {

/// How a line of a diff stands to the two texts.
#[derive(Debug, Clone, Copy, PartialEq, Eq, Structural)]
pub enum DiffTag {
    /// It stands in the first text only.
    Delete,
    /// It stands in the second text only.
    Insert,
    /// It stands in both.
    Equal,
}

/// The lines of a diff, with their ends, one after the other: those of the
/// first text among them.
pub open spec fn first_side(changes: Seq<(DiffTag, Seq<char>)>) -> Seq<char>
    decreases changes.len(),
{
    if changes.len() == 0 {
        seq![]
    } else if changes.last().0 == DiffTag::Insert {
        first_side(changes.drop_last())
    } else {
        first_side(changes.drop_last()) + changes.last().1
    }
}

/// The lines of a diff, with their ends, one after the other: those of the
/// second text among them.
pub open spec fn second_side(changes: Seq<(DiffTag, Seq<char>)>) -> Seq<char>
    decreases changes.len(),
{
    if changes.len() == 0 {
        seq![]
    } else if changes.last().0 == DiffTag::Delete {
        second_side(changes.drop_last())
    } else {
        second_side(changes.drop_last()) + changes.last().1
    }
}

/// What a list of changes to lines holds.
pub open spec fn line_views(v: Seq<(DiffTag, String)>) -> Seq<(DiffTag, Seq<char>)> {
    v.map_values(|c: (DiffTag, String)| (c.0, c.1@))
}

/// The number of characters that end a line.
pub open spec fn line_ends(s: Seq<char>) -> nat
    decreases s.len(),
{
    if s.len() == 0 {
        0
    } else {
        line_ends(s.drop_last()) + (if s.last() == '\n' || s.last() == '\r' {
            1nat
        } else {
            0
        })
    }
}

/// Whether the lines of two texts can be numbered together in 32 bits.
pub open spec fn can_number_lines(original: Seq<char>, modified: Seq<char>) -> bool {
    line_ends(original) + line_ends(modified) + 2 <= u32::MAX
}

/// Whether the character at `i` ends a line; `\r\n` ends a line together.
pub open spec fn ends_line(s: Seq<char>, i: int) -> bool {
    s[i] == '\n' || (s[i] == '\r' && !(i + 1 < s.len() && s[i + 1] == '\n'))
}

/// The length of the first line of a text, with its end.
pub open spec fn line_len(s: Seq<char>) -> nat
    decreases s.len(),
{
    if s.len() == 0 {
        0
    } else if ends_line(s, 0) {
        1
    } else {
        1 + line_len(s.skip(1))
    }
}

/// Whether a text is one line: it holds something, and no line ends in it
/// before its last character.
pub open spec fn is_line(s: Seq<char>) -> bool {
    s.len() > 0 && forall|j: int| 0 <= j < s.len() - 1 ==> !#[trigger] ends_line(s, j)
}

/// Whether the last character of a text ends a line.
pub open spec fn is_ended(s: Seq<char>) -> bool {
    s.len() > 0 && (s.last() == '\n' || s.last() == '\r')
}

/// Whether nothing more of its text can follow the change at `i`: nothing at
/// all, or only lines of the second text behind a line of the first.
pub open spec fn ends_its_text(changes: Seq<(DiffTag, Seq<char>)>, i: int) -> bool {
    if changes[i].0 == DiffTag::Delete {
        forall|j: int| i < j < changes.len() ==> (#[trigger] changes[j]).0 == DiffTag::Insert
    } else {
        i == changes.len() - 1
    }
}

/// Whether each change is one line, with its end unless its text stops there.
pub open spec fn are_lines(changes: Seq<(DiffTag, Seq<char>)>) -> bool {
    forall|i: int|
        0 <= i < changes.len() ==> is_line((#[trigger] changes[i]).1) && (is_ended(changes[i].1)
            || ends_its_text(changes, i))
}

/// Whether no change takes a line away or adds one.
pub open spec fn all_equal(changes: Seq<(DiffTag, Seq<char>)>) -> bool {
    forall|i: int| 0 <= i < changes.len() ==> (#[trigger] changes[i]).0 == DiffTag::Equal
}

/// The changes to lines from one text to another.
pub uninterp spec fn line_changes(original: Seq<char>, modified: Seq<char>) -> Seq<
    (DiffTag, Seq<char>),
>;

/// `similar::TextDiff::from_lines` and its `iter_all_changes`: the changes
/// depend on the two texts alone and go by the name `line_changes`. Told apart
/// by their tags, they give back both texts. Each is one line with its end, as
/// the lines are told apart: only the last line of a text may lack it, and of
/// two such lines the one that goes comes first. Equal texts have only equal
/// lines.
#[verifier::external_body]
pub(crate) fn diff_lines(original: &str, modified: &str) -> (r: Vec<(DiffTag, String)>)
    requires
        can_number_lines(original@, modified@),
    ensures
        line_views(r@) == line_changes(original@, modified@),
        first_side(line_views(r@)) == original@,
        second_side(line_views(r@)) == modified@,
        are_lines(line_views(r@)),
        original@ == modified@ ==> all_equal(line_views(r@)),
{
    similar::TextDiff::from_lines(original, modified)
        .iter_all_changes()
        .map(|c| match c.tag() {
            similar::ChangeTag::Delete => (DiffTag::Delete, c.value().to_string()),
            similar::ChangeTag::Insert => (DiffTag::Insert, c.value().to_string()),
            similar::ChangeTag::Equal => (DiffTag::Equal, c.value().to_string()),
        })
        .collect()
}

/// What stands before a line of a diff.
pub open spec fn tag_text(tag: DiffTag) -> Seq<char> {
    match tag {
        DiffTag::Delete => "-"@,
        DiffTag::Insert => "+"@,
        DiffTag::Equal => " "@,
    }
}

/// A diff as text.
pub open spec fn diff_text(changes: Seq<(DiffTag, Seq<char>)>) -> Seq<char>
    decreases changes.len(),
{
    if changes.len() == 0 {
        seq![]
    } else {
        diff_text(changes.drop_last()) + (tag_text(changes.last().0) + changes.last().1)
    }
}

/// A diff as text.
pub fn write_diff(changes: &Vec<(DiffTag, String)>) -> (r: String)
    ensures
        r@ == diff_text(line_views(changes@)),
{
    let ghost all = line_views(changes@);
    let mut out: String = String::new();
    let mut i: usize = 0;
    assert(all.take(0) =~= seq![]);
    assert(out@ =~= diff_text(all.take(0)));
    while i < changes.len()
        invariant
            i <= changes@.len(),
            all == line_views(changes@),
            out@ == diff_text(all.take(i as int)),
        decreases changes@.len() - i,
    {
        let ghost before = out@;
        let tag = match changes[i].0 {
            DiffTag::Delete => "-",
            DiffTag::Insert => "+",
            DiffTag::Equal => " ",
        };
        out.append(tag);
        out.append(changes[i].1.as_str());
        proof {
            assert(all.take(i + 1).drop_last() =~= all.take(i as int));
            assert(all.take(i + 1).last() == (changes@[i as int].0, changes@[i as int].1@));
            assert(out@ =~= before + (tag_text(changes@[i as int].0) + changes@[i as int].1@));
        }
        i += 1;
    }
    assert(all.take(i as int) =~= all);
    out
}

/// The number of characters that end a line.
pub(crate) fn count_line_ends(s: &str) -> (r: usize)
    ensures
        r == line_ends(s@),
{
    let v = text::chars_of(s);
    let mut n: usize = 0;
    let mut i: usize = 0;
    while i < v.len()
        invariant
            i <= v@.len(),
            n <= i,
            n == line_ends(v@.take(i as int)),
        decreases v@.len() - i,
    {
        assert(v@.take(i + 1).drop_last() =~= v@.take(i as int));
        if v[i] == '\n' || v[i] == '\r' {
            n += 1;
        }
        i += 1;
    }
    assert(v@.take(i as int) =~= v@);
    n
}

// A diff that tells every line of a text.

/// A text with another one before it, where there is one.
pub open spec fn behind(s: Seq<char>, t: Option<Seq<char>>) -> Option<Seq<char>> {
    match t {
        Some(t) => Some(s + t),
        None => None,
    }
}

/// How many characters of `rest` the line at the beginning of `told` stands
/// for: the whole line, or all of `rest` where that is a last line without an
/// end. None where `rest` begins otherwise.
pub open spec fn told_len(rest: Seq<char>, told: Seq<char>) -> Option<int> {
    if told.take(line_len(told) as int).is_prefix_of(rest) {
        Some(line_len(told) as int)
    } else if rest.len() > 0 && rest.is_prefix_of(told) {
        Some(rest.len() as int)
    } else {
        None
    }
}

/// The text that a diff makes of `rest`, where the diff tells every line of
/// `rest` behind a blank or a minus, and every line to add behind a plus.
pub open spec fn retold(rest: Seq<char>, diff: Seq<char>) -> Option<Seq<char>>
    decreases diff.len(),
{
    if diff.len() == 0 {
        if rest.len() == 0 {
            Some(seq![])
        } else {
            None
        }
    } else {
        let told = diff.skip(1);
        proof {
            lemma_line_len(told);
        }
        if diff[0] == '+' {
            let n = line_len(told) as int;
            behind(told.take(n), retold(rest, told.skip(n)))
        } else if diff[0] == '-' || diff[0] == ' ' {
            match told_len(rest, told) {
                Some(n) => behind(
                    if diff[0] == ' ' {
                        told.take(n)
                    } else {
                        seq![]
                    },
                    retold(rest.skip(n), told.skip(n)),
                ),
                None => None,
            }
        } else {
            None
        }
    }
}

// A diff that shows the places to change.

/// The lines of a text, with their ends.
pub open spec fn whole_lines(s: Seq<char>) -> Seq<Seq<char>>
    decreases s.len(),
{
    if s.len() == 0 {
        seq![]
    } else {
        proof {
            lemma_line_len(s);
        }
        seq![s.take(line_len(s) as int)] + whole_lines(s.skip(line_len(s) as int))
    }
}

/// A line without its end.
pub open spec fn bare(line: Seq<char>) -> Seq<char> {
    if line.len() > 0 && line.last() == '\n' {
        text::strip_cr(line.drop_last())
    } else {
        text::strip_cr(line)
    }
}

/// The lines of a text, without their ends.
pub open spec fn bare_lines(s: Seq<char>) -> Seq<Seq<char>> {
    whole_lines(s).map_values(|l: Seq<char>| bare(l))
}

/// Whether a line of a diff adds a line.
pub open spec fn is_addition(line: Seq<char>) -> bool {
    text::starts_with(line, "+"@) && !text::starts_with(line, "+++"@)
}

/// Whether a line of a diff takes a line away.
pub open spec fn is_deletion(line: Seq<char>) -> bool {
    text::starts_with(line, "-"@) && !text::starts_with(line, "---"@)
}

/// Whether a line of a diff tells a line that stays.
pub open spec fn is_context(line: Seq<char>) -> bool {
    text::starts_with(line, " "@)
}

/// The first of some lines that reads as `wanted`; their number where none
/// does.
pub open spec fn place(lines: Seq<Seq<char>>, wanted: Seq<char>) -> int
    decreases lines.len(),
{
    if lines.len() == 0 || bare(lines.first()) == wanted {
        0
    } else {
        1 + place(lines.drop_first(), wanted)
    }
}

/// Lines put behind a text, on a line of their own.
pub open spec fn adding(out: Seq<char>, more: Seq<char>) -> Seq<char> {
    if more.len() == 0 {
        out
    } else if out.len() == 0 || is_ended(out) {
        out + more
    } else {
        out.push('\n') + more
    }
}

/// What the lines `told` of a diff make of the lines `rest` of a text, behind
/// what is already made, `out`.
///
/// A line that stays or goes is looked for in the rest of the text; one that is
/// not there is passed over. A line to add goes right behind the last line that
/// was found in its hunk. As long as none was found, it waits, with what waits
/// already, and goes right before the next one, or to the end of the text.
pub open spec fn located(
    out: Seq<char>,
    rest: Seq<Seq<char>>,
    told: Seq<Seq<char>>,
    found: bool,
    waiting: Seq<char>,
) -> Seq<char>
    decreases told.len(),
{
    if told.len() == 0 {
        adding(out + text::concat(rest), waiting)
    } else {
        let line = told.first();
        let more = told.drop_first();
        if is_deletion(line) || is_context(line) {
            let k = place(rest, line.skip(1));
            if 0 <= k < rest.len() {
                let before = adding(out + text::concat(rest.take(k)), waiting);
                located(
                    if is_deletion(line) {
                        before
                    } else {
                        before + rest[k]
                    },
                    rest.skip(k + 1),
                    more,
                    true,
                    seq![],
                )
            } else {
                located(out, rest, more, found, waiting)
            }
        } else if is_addition(line) {
            if found {
                located(adding(out, line.skip(1).push('\n')), rest, more, found, waiting)
            } else {
                located(out, rest, more, found, waiting + line.skip(1).push('\n'))
            }
        } else {
            located(out, rest, more, found && !text::starts_with(line, "@@"@), waiting)
        }
    }
}

/// A text with a diff applied. A diff that tells every line of the text makes
/// the text that it tells; any other is applied where its lines are found.
pub open spec fn patched(original: Seq<char>, diff: Seq<char>) -> Seq<char> {
    match retold(original, diff) {
        Some(s) => s,
        None => located(seq![], whole_lines(original), bare_lines(diff), false, seq![]),
    }
}

/// The first line of a text that is not empty is not empty either.
pub proof fn lemma_line_len(s: Seq<char>)
    ensures
        line_len(s) <= s.len(),
        s.len() > 0 ==> line_len(s) > 0,
    decreases s.len(),
{
    if s.len() > 0 && !ends_line(s, 0) {
        lemma_line_len(s.skip(1));
    }
}

/// Where the first line of a text ends.
proof fn lemma_line_len_is(s: Seq<char>, n: int)
    requires
        0 < n <= s.len(),
        forall|j: int| 0 <= j < n - 1 ==> !#[trigger] ends_line(s, j),
        ends_line(s, n - 1) || n == s.len(),
    ensures
        line_len(s) == n,
    decreases s.len(),
{
    reveal_with_fuel(line_len, 2);
    if n == 1 {
        if !ends_line(s, 0) {
            assert(s.skip(1).len() == 0);
        }
    } else {
        assert(!ends_line(s, 0));
        let t = s.skip(1);
        assert forall|j: int| 0 <= j < n - 2 implies !#[trigger] ends_line(t, j) by {
            assert(!ends_line(s, j + 1));
        }
        assert(ends_line(s, n - 1) ==> ends_line(t, n - 2));
        lemma_line_len_is(t, n - 1);
    }
}

/// Where the line of `v` that begins at `start` ends.
fn line_end(v: &Vec<char>, start: usize) -> (r: usize)
    requires
        start <= v@.len(),
    ensures
        start <= r <= v@.len(),
        start < v@.len() ==> start < r,
        r == start + line_len(v@.skip(start as int)),
{
    let ghost s = v@.skip(start as int);
    if start == v.len() {
        return start;
    }
    let mut i: usize = start;
    while i < v.len() && !(v[i] == '\n' || (v[i] == '\r' && !(i + 1 < v.len() && v[i + 1] == '\n')))
        invariant
            start <= i <= v@.len(),
            s == v@.skip(start as int),
            forall|j: int| 0 <= j < i - start ==> !#[trigger] ends_line(s, j),
        decreases v@.len() - i,
    {
        assert(!ends_line(s, i - start));
        i += 1;
    }
    if i < v.len() {
        i += 1;
        assert(ends_line(s, i - start - 1));
    }
    proof {
        lemma_line_len_is(s, i - start);
    }
    i
}

/// How much of `v`, from `i` on, the line of `d` that begins at `start` stands
/// for.
fn told_of(v: &Vec<char>, i: usize, d: &Vec<char>, start: usize) -> (r: Option<usize>)
    requires
        i <= v@.len(),
        start <= d@.len(),
    ensures
        match (r, told_len(v@.skip(i as int), d@.skip(start as int))) {
            (Some(m), Some(n)) => m == n && i + m <= v@.len() && start + m <= d@.len(),
            (None, None) => true,
            _ => false,
        },
{
    let ghost rest = v@.skip(i as int);
    let ghost told = d@.skip(start as int);
    let ghost n = line_len(told) as int;
    let end = line_end(d, start);
    let whole = text::string_of(d, start, end);
    let line = text::chars_of(whole.as_str());
    assert(told.take(n) =~= line@);
    if text::matches_at(v, i, &line) {
        assert(rest.subrange(0, n) =~= v@.subrange(i as int, i + n));
        return Some(line.len());
    }
    proof {
        if line@.is_prefix_of(rest) {
            assert(v@.subrange(i as int, i + n) =~= rest.subrange(0, n));
            assert(text::occurs_at(v@, line@, i as int));
        }
    }
    if i == v.len() {
        return None;
    }
    let tail = text::string_of(v, i, v.len());
    let last = text::chars_of(tail.as_str());
    assert(last@ =~= rest);
    if text::matches_at(d, start, &last) {
        assert(told.subrange(0, rest.len() as int) =~= d@.subrange(
            start as int,
            start + rest.len(),
        ));
        return Some(last.len());
    }
    proof {
        if rest.is_prefix_of(told) {
            assert(d@.subrange(start as int, start + rest.len()) =~= told.subrange(
                0,
                rest.len() as int,
            ));
            assert(text::occurs_at(d@, last@, start as int));
        }
    }
    None
}

/// One step of a diff that tells every line.
proof fn lemma_retold_step(rest: Seq<char>, diff: Seq<char>, out: Seq<char>)
    requires
        diff.len() > 0,
    ensures
        ({
            let told = diff.skip(1);
            let n = line_len(told) as int;
            &&& diff[0] == '+' ==> behind(out, retold(rest, diff)) == behind(
                out + told.take(n),
                retold(rest, told.skip(n)),
            )
            &&& diff[0] == '-' || diff[0] == ' ' ==> match told_len(rest, told) {
                Some(m) => behind(out, retold(rest, diff)) == behind(
                    if diff[0] == ' ' {
                        out + told.take(m)
                    } else {
                        out
                    },
                    retold(rest.skip(m), told.skip(m)),
                ),
                None => retold(rest, diff) is None,
            }
            &&& diff[0] != '+' && diff[0] != '-' && diff[0] != ' ' ==> retold(rest, diff) is None
        }),
{
    let told = diff.skip(1);
    let n = line_len(told) as int;
    lemma_behind(out, told.take(n), retold(rest, told.skip(n)));
    match told_len(rest, told) {
        Some(m) => {
            lemma_behind(out, told.take(m), retold(rest.skip(m), told.skip(m)));
            lemma_behind(out, seq![], retold(rest.skip(m), told.skip(m)));
            assert(out + Seq::<char>::empty() =~= out);
        },
        None => {},
    }
}

/// The text that a diff makes of the original where it tells every line of it.
fn retell(v: &Vec<char>, d: &Vec<char>) -> (r: Option<String>)
    ensures
        match (r, retold(v@, d@)) {
            (Some(t), Some(s)) => t@ == s,
            (None, None) => true,
            _ => false,
        },
{
    let mut out: String = String::new();
    let size: usize = v.len();
    let mut i: usize = 0;
    let mut k: usize = 0;
    proof {
        assert(v@.skip(0) =~= v@);
        assert(d@.skip(0) =~= d@);
        match retold(v@, d@) {
            Some(s) => {
                assert(out@ + s =~= s);
            },
            None => {},
        }
    }
    while k < d.len()
        invariant
            i <= size == v@.len(),
            k <= d@.len(),
            behind(out@, retold(v@.skip(i as int), d@.skip(k as int))) == retold(v@, d@),
        decreases d@.len() - k,
    {
        let ghost rest = v@.skip(i as int);
        let ghost told = d@.skip(k + 1);
        let ghost before = out@;
        let tag = d[k];
        let start = k + 1;
        proof {
            lemma_retold_step(rest, d@.skip(k as int), out@);
            assert(d@.skip(k as int).skip(1) =~= told);
            assert(d@.skip(k as int)[0] == tag);
        }
        if tag == '+' {
            let end = line_end(d, start);
            let line = text::string_of(d, start, end);
            out.append(line.as_str());
            proof {
                assert(line@ =~= told.take(line_len(told) as int));
                assert(told.skip(line_len(told) as int) =~= d@.skip(end as int));
            }
            k = end;
        } else if tag == '-' || tag == ' ' {
            match told_of(v, i, d, start) {
                Some(m) => {
                    if tag == ' ' {
                        let kept = text::string_of(d, start, start + m);
                        out.append(kept.as_str());
                        assert(kept@ =~= told.take(m as int));
                    }
                    proof {
                        assert(rest.skip(m as int) =~= v@.skip(i + m));
                        assert(told.skip(m as int) =~= d@.skip(start + m));
                    }
                    i += m;
                    k = start + m;
                },
                None => {
                    return None;
                },
            }
        } else {
            return None;
        }
    }
    assert(d@.skip(k as int).len() == 0);
    if i == size {
        assert(out@ + Seq::<char>::empty() =~= out@);
        Some(out)
    } else {
        None
    }
}

/// What stands behind two texts stands behind both of them together.
proof fn lemma_behind(a: Seq<char>, b: Seq<char>, t: Option<Seq<char>>)
    ensures
        behind(a, behind(b, t)) == behind(a + b, t),
{
    match t {
        Some(t) => {
            assert(a + (b + t) =~= (a + b) + t);
        },
        None => {},
    }
}

/// The lines of a text, with their ends.
fn lines_of(s: &str) -> (r: Vec<String>)
    ensures
        text::views(r@) == whole_lines(s@),
{
    let v = text::chars_of(s);
    let mut out: Vec<String> = Vec::new();
    let mut i: usize = 0;
    assert(v@.skip(0) =~= v@);
    assert(text::views(out@) + whole_lines(v@.skip(0)) =~= whole_lines(v@));
    while i < v.len()
        invariant
            i <= v@.len(),
            text::views(out@) + whole_lines(v@.skip(i as int)) == whole_lines(v@),
        decreases v@.len() - i,
    {
        let ghost before = text::views(out@);
        let ghost rest = v@.skip(i as int);
        let end = line_end(&v, i);
        let line = text::string_of(&v, i, end);
        let ghost l = line@;
        out.push(line);
        proof {
            lemma_line_len(rest);
            assert(rest.take(line_len(rest) as int) =~= l);
            assert(rest.skip(line_len(rest) as int) =~= v@.skip(end as int));
            assert(text::views(out@) =~= before.push(l));
            assert(before.push(l) + whole_lines(v@.skip(end as int)) =~= before + (seq![l]
                + whole_lines(v@.skip(end as int))));
        }
        i = end;
    }
    assert(v@.skip(i as int).len() == 0);
    assert(text::views(out@) =~= whole_lines(v@));
    out
}

/// A line without its end.
fn bare_of(line: &str) -> (r: String)
    ensures
        r@ == bare(line@),
{
    let v = text::chars_of(line);
    let mut n: usize = v.len();
    if n > 0 && v[n - 1] == '\n' {
        n -= 1;
        assert(v@.take(n as int) =~= line@.drop_last());
    } else {
        assert(v@.take(n as int) =~= line@);
    }
    let ghost t = v@.take(n as int);
    if n > 0 && v[n - 1] == '\r' {
        n -= 1;
        assert(v@.subrange(0, n as int) =~= t.drop_last());
    } else {
        assert(v@.subrange(0, n as int) =~= t);
    }
    text::string_of(&v, 0, n)
}

/// Where a line stands among lines, from a place on.
fn place_of(lines: &Vec<String>, start: usize, wanted: &str) -> (r: usize)
    requires
        start <= lines@.len(),
    ensures
        start <= r <= lines@.len(),
        r == start + place(text::views(lines@).skip(start as int), wanted@),
{
    let ghost all = text::views(lines@);
    let mut i: usize = start;
    while i < lines.len()
        invariant
            start <= i <= lines@.len(),
            all == text::views(lines@),
            place(all.skip(start as int), wanted@) == (i - start) + place(
                all.skip(i as int),
                wanted@,
            ),
        decreases lines@.len() - i,
    {
        let ghost rest = all.skip(i as int);
        assert(rest.first() == lines@[i as int]@);
        let b = bare_of(lines[i].as_str());
        if text::same_text(b.as_str(), wanted) {
            return i;
        }
        assert(rest.drop_first() =~= all.skip(i + 1));
        i += 1;
    }
    assert(all.skip(i as int).len() == 0);
    i
}

/// Puts lines behind a text, on a line of their own.
fn add_lines(out: &mut String, more: &str)
    ensures
        final(out)@ == adding(old(out)@, more@),
{
    if more.is_empty() {
        return;
    }
    let v = text::chars_of(out.as_str());
    if v.len() > 0 && v[v.len() - 1] != '\n' && v[v.len() - 1] != '\r' {
        out.push('\n');
    }
    out.append(more);
}

/// Appends some of a list of texts.
fn append_range(out: &mut String, lines: &Vec<String>, from: usize, to: usize)
    requires
        from <= to <= lines@.len(),
    ensures
        final(out)@ == old(out)@ + text::concat(
            text::views(lines@).subrange(from as int, to as int),
        ),
{
    let ghost all = text::views(lines@);
    let mut i: usize = from;
    assert(all.subrange(from as int, from as int) =~= seq![]);
    assert(out@ =~= old(out)@ + text::concat(all.subrange(from as int, i as int)));
    while i < to
        invariant
            from <= i <= to <= lines@.len(),
            all == text::views(lines@),
            out@ == old(out)@ + text::concat(all.subrange(from as int, i as int)),
        decreases to - i,
    {
        let ghost before = text::concat(all.subrange(from as int, i as int));
        out.append(lines[i].as_str());
        proof {
            let now = all.subrange(from as int, i + 1);
            assert(now.drop_last() =~= all.subrange(from as int, i as int));
            assert(now.last() == lines@[i as int]@);
            assert(out@ =~= old(out)@ + (before + lines@[i as int]@));
        }
        i += 1;
    }
}

/// The text of a line behind its first character.
fn behind_first(line: &str) -> (r: String)
    requires
        line@.len() > 0,
    ensures
        r@ == line@.skip(1),
{
    let v = text::chars_of(line);
    let r = text::string_of(&v, 1, v.len());
    assert(r@ =~= line@.skip(1));
    r
}

/// What the lines of a diff make of a text where they are found in it.
fn locate(original: &str, diff: &str) -> (r: String)
    ensures
        r@ == located(seq![], whole_lines(original@), bare_lines(diff@), false, seq![]),
{
    let lines = lines_of(original);
    let told = lines_of(diff);
    let ghost all = text::views(lines@);
    let ghost every = bare_lines(diff@);
    let ghost goal = located(seq![], all, every, false, seq![]);
    let mut out: String = String::new();
    let mut waiting: String = String::new();
    let mut found = false;
    let mut at: usize = 0;
    let mut i: usize = 0;
    proof {
        reveal_strlit("+");
        reveal_strlit("-");
        reveal_strlit(" ");
        assert(every.len() == told@.len());
        assert(all.skip(0) =~= all);
        assert(every.skip(0) =~= every);
        assert(out@ =~= seq![]);
        assert(waiting@ =~= seq![]);
    }
    while i < told.len()
        invariant
            i <= told@.len(),
            at <= lines@.len(),
            all == text::views(lines@),
            every == bare_lines(diff@),
            text::views(told@) == whole_lines(diff@),
            every.len() == told@.len(),
            "+"@.len() == 1,
            "-"@.len() == 1,
            " "@.len() == 1,
            goal == located(out@, all.skip(at as int), every.skip(i as int), found, waiting@),
        decreases told@.len() - i,
    {
        let line = bare_of(told[i].as_str());
        let ghost rest = all.skip(at as int);
        let ghost now = every.skip(i as int);
        proof {
            assert(text::views(told@)[i as int] == told@[i as int]@);
            assert(now.first() == line@);
            assert(now.drop_first() =~= every.skip(i + 1));
        }
        let gone = text::str_starts_with(line.as_str(), "-") && !text::str_starts_with(
            line.as_str(),
            "---",
        );
        if gone || text::str_starts_with(line.as_str(), " ") {
            let wanted = behind_first(line.as_str());
            let k = place_of(&lines, at, wanted.as_str());
            if k < lines.len() {
                let ghost begun = out@;
                append_range(&mut out, &lines, at, k);
                add_lines(&mut out, waiting.as_str());
                proof {
                    assert(rest.take(k - at) =~= all.subrange(at as int, k as int));
                    assert(rest[k - at] == lines@[k as int]@);
                    assert(rest.skip(k - at + 1) =~= all.skip(k + 1));
                }
                if !gone {
                    out.append(lines[k].as_str());
                }
                at = k + 1;
                found = true;
                waiting = String::new();
                assert(waiting@ =~= seq![]);
            }
        } else if text::str_starts_with(line.as_str(), "+") && !text::str_starts_with(
            line.as_str(),
            "+++",
        ) {
            let mut more = behind_first(line.as_str());
            more.push('\n');
            if found {
                add_lines(&mut out, more.as_str());
            } else {
                waiting.append(more.as_str());
            }
        } else if text::str_starts_with(line.as_str(), "@@") {
            found = false;
        }
        i += 1;
    }
    assert(every.skip(i as int).len() == 0);
    append_range(&mut out, &lines, at, lines.len());
    assert(all.subrange(at as int, lines@.len() as int) =~= all.skip(at as int));
    add_lines(&mut out, waiting.as_str());
    out
}

/// Parses a diff string and applies it to the original text.
pub fn parse_and_apply_diff(original: &str, diff: &str) -> (r: String)
    ensures
        r@ == patched(original@, diff@),
{
    let v = text::chars_of(original);
    let d = text::chars_of(diff);
    match retell(&v, &d) {
        Some(s) => s,
        None => locate(original, diff),
    }
}

// Laws of diffs.

/// What the changes behind the first one tell.
proof fn lemma_sides_first(changes: Seq<(DiffTag, Seq<char>)>)
    requires
        changes.len() > 0,
    ensures
        ({
            let (tag, line) = changes.first();
            let more = changes.drop_first();
            &&& diff_text(changes) == tag_text(tag) + line + diff_text(more)
            &&& first_side(changes) == (if tag == DiffTag::Insert {
                first_side(more)
            } else {
                line + first_side(more)
            })
            &&& second_side(changes) == (if tag == DiffTag::Delete {
                second_side(more)
            } else {
                line + second_side(more)
            })
        }),
    decreases changes.len(),
{
    let (tag, line) = changes.first();
    let more = changes.drop_first();
    let rest = changes.drop_last();
    if changes.len() == 1 {
        assert(rest =~= seq![]);
        assert(more =~= seq![]);
        assert(diff_text(changes) =~= tag_text(tag) + line + diff_text(more));
        assert(first_side(changes) =~= if tag == DiffTag::Insert {
            first_side(more)
        } else {
            line + first_side(more)
        });
        assert(second_side(changes) =~= if tag == DiffTag::Delete {
            second_side(more)
        } else {
            line + second_side(more)
        });
    } else {
        lemma_sides_first(rest);
        assert(rest.first() == changes.first());
        assert(rest.drop_first() =~= more.drop_last());
        assert(more.last() == changes.last());
        assert(diff_text(changes) =~= tag_text(tag) + line + diff_text(more));
        assert(first_side(changes) =~= if tag == DiffTag::Insert {
            first_side(more)
        } else {
            line + first_side(more)
        });
        assert(second_side(changes) =~= if tag == DiffTag::Delete {
            second_side(more)
        } else {
            line + second_side(more)
        });
    }
}

/// A line at the beginning of a text that goes on with no line feed is its
/// first line, if it has an end or nothing follows.
proof fn lemma_first_line(line: Seq<char>, more: Seq<char>)
    requires
        is_line(line),
        is_ended(line) || more.len() == 0,
        more.len() > 0 ==> more[0] != '\n',
    ensures
        line_len(line + more) == line.len(),
        (line + more).take(line.len() as int) == line,
        (line + more).skip(line.len() as int) == more,
{
    let s = line + more;
    let n = line.len() as int;
    assert forall|j: int| 0 <= j < n - 1 implies !#[trigger] ends_line(s, j) by {
        assert(!ends_line(line, j));
        assert(s[j] == line[j] && s[j + 1] == line[j + 1]);
    }
    assert(s[n - 1] == line[n - 1]);
    lemma_line_len_is(s, n);
    assert(s.take(n) =~= line);
    assert(s.skip(n) =~= more);
}

/// Changes that are lines are so without the first of them.
proof fn lemma_lines_behind_first(changes: Seq<(DiffTag, Seq<char>)>)
    requires
        changes.len() > 0,
        are_lines(changes),
    ensures
        are_lines(changes.drop_first()),
{
    let more = changes.drop_first();
    assert forall|i: int| 0 <= i < more.len() implies is_line((#[trigger] more[i]).1) && (is_ended(
        more[i].1,
    ) || ends_its_text(more, i)) by {
        assert(more[i] == changes[i + 1]);
        if ends_its_text(changes, i + 1) {
            assert forall|j: int| i < j < more.len() && more[i].0 == DiffTag::Delete implies (
            #[trigger] more[j]).0 == DiffTag::Insert by {
                assert(more[j] == changes[j + 1]);
            }
        }
    }
}

/// Changes that only add have nothing on the first side.
proof fn lemma_only_inserts(changes: Seq<(DiffTag, Seq<char>)>)
    requires
        forall|j: int| 0 <= j < changes.len() ==> (#[trigger] changes[j]).0 == DiffTag::Insert,
    ensures
        first_side(changes) == Seq::<char>::empty(),
    decreases changes.len(),
{
    if changes.len() > 0 {
        assert(changes[changes.len() - 1].0 == DiffTag::Insert);
        assert forall|j: int| 0 <= j < changes.drop_last().len() implies (
        #[trigger] changes.drop_last()[j]).0 == DiffTag::Insert by {
            assert(changes[j].0 == DiffTag::Insert);
        }
        lemma_only_inserts(changes.drop_last());
    }
}

/// A diff that tells every line of a text makes the text that it tells.
#[verifier::rlimit(40)]
proof fn lemma_told_text_is_made(changes: Seq<(DiffTag, Seq<char>)>)
    requires
        are_lines(changes),
    ensures
        retold(first_side(changes), diff_text(changes)) == Some(second_side(changes)),
    decreases changes.len(),
{
    if changes.len() > 0 {
        let (tag, line) = changes[0];
        let more = changes.drop_first();
        let rest = first_side(changes);
        let diff = diff_text(changes);
        let next = diff_text(more);
        lemma_sides_first(changes);
        lemma_lines_behind_first(changes);
        lemma_told_text_is_made(more);
        reveal_strlit("+");
        reveal_strlit("-");
        reveal_strlit(" ");
        assert(diff.skip(1) =~= line + next);
        if more.len() > 0 {
            lemma_sides_first(more);
            assert(next[0] == tag_text(more[0].0)[0]);
        }
        if is_ended(line) || more.len() == 0 {
            lemma_first_line(line, next);
            if tag != DiffTag::Insert {
                assert(line =~= rest.subrange(0, line.len() as int));
                assert(told_len(rest, line + next) == Some(line.len() as int));
                assert(rest.skip(line.len() as int) =~= first_side(more));
            }
        } else {
            assert(ends_its_text(changes, 0));
            assert(tag == DiffTag::Delete);
            assert forall|j: int| 0 <= j < more.len() implies (#[trigger] more[j]).0
                == DiffTag::Insert by {
                assert(changes[j + 1].0 == DiffTag::Insert);
            }
            lemma_only_inserts(more);
            assert(rest =~= line);
            let told = line + next;
            let n = line_len(told) as int;
            lemma_line_len(told);
            assert(line =~= told.subrange(0, line.len() as int));
            if told.take(n).is_prefix_of(rest) {
                lemma_unended_goes_on(line, next);
            }
            assert(told_len(rest, told) == Some(line.len() as int));
            assert(rest.skip(line.len() as int) =~= first_side(more));
            assert(told.skip(line.len() as int) =~= next);
        }
        match retold(first_side(more), next) {
            Some(s) => {
                assert(Seq::<char>::empty() + s =~= s);
            },
            None => {},
        }
    } else {
        assert(first_side(changes) =~= seq![]);
    }
}

/// A line without an end goes on with what follows it.
proof fn lemma_unended_goes_on(line: Seq<char>, more: Seq<char>)
    requires
        is_line(line),
        !is_ended(line),
        more.len() > 0,
    ensures
        line_len(line + more) > line.len(),
    decreases line.len(),
{
    let s = line + more;
    if line.len() == 1 {
        lemma_line_len(s.skip(1));
        assert(!ends_line(s, 0));
    } else {
        let t = line.skip(1);
        assert(!ends_line(line, 0));
        assert(!ends_line(s, 0));
        assert forall|j: int| 0 <= j < t.len() - 1 implies !#[trigger] ends_line(t, j) by {
            assert(!ends_line(line, j + 1));
        }
        lemma_unended_goes_on(t, more);
        assert(s.skip(1) =~= t + more);
    }
}

/// A diff whose lines tell a text makes the text that it tells: applied to the
/// lines that stay or go, it gives the lines that stay or come.
pub proof fn law_diff_is_applied(original: Seq<char>, changes: Seq<(DiffTag, Seq<char>)>)
    requires
        are_lines(changes),
        first_side(changes) == original,
    ensures
        patched(original, diff_text(changes)) == second_side(changes),
{
    lemma_told_text_is_made(changes);
}

/// The lines of a text make up the text.
proof fn lemma_whole_lines(s: Seq<char>)
    ensures
        text::concat(whole_lines(s)) == s,
    decreases s.len(),
{
    if s.len() > 0 {
        let n = line_len(s) as int;
        lemma_line_len(s);
        lemma_whole_lines(s.skip(n));
        lemma_concat_first(s.take(n), whole_lines(s.skip(n)));
        assert(s.take(n) + s.skip(n) =~= s);
    }
}

/// Texts one after another, the first one apart.
proof fn lemma_concat_first(a: Seq<char>, parts: Seq<Seq<char>>)
    ensures
        text::concat(seq![a] + parts) == a + text::concat(parts),
    decreases parts.len(),
{
    let all = seq![a] + parts;
    if parts.len() == 0 {
        reveal_with_fuel(text::concat, 2);
        assert(all.drop_last() =~= seq![]);
        assert(text::concat(all) =~= a + text::concat(parts));
    } else {
        lemma_concat_first(a, parts.drop_last());
        assert(all.drop_last() =~= seq![a] + parts.drop_last());
        assert(text::concat(all) =~= a + text::concat(parts));
    }
}

/// An empty diff changes nothing.
pub proof fn law_empty_diff_changes_nothing(original: Seq<char>)
    ensures
        patched(original, seq![]) == original,
{
    lemma_whole_lines(original);
    assert(bare_lines(seq![]) =~= seq![]);
    assert(Seq::<char>::empty() + original =~= original);
    if original.len() == 0 {
        assert(original =~= seq![]);
    }
}

/// The lines that only-adding lines of a diff add, each with its end.
pub open spec fn added_lines(told: Seq<Seq<char>>) -> Seq<char>
    decreases told.len(),
{
    if told.len() == 0 {
        seq![]
    } else {
        told.first().skip(1).push('\n') + added_lines(told.drop_first())
    }
}

/// Lines to add wait for the end where nothing is found.
proof fn lemma_additions_wait(
    out: Seq<char>,
    rest: Seq<Seq<char>>,
    told: Seq<Seq<char>>,
    waiting: Seq<char>,
)
    requires
        forall|i: int| 0 <= i < told.len() ==> is_addition(#[trigger] told[i]),
    ensures
        located(out, rest, told, false, waiting) == adding(
            out + text::concat(rest),
            waiting + added_lines(told),
        ),
    decreases told.len(),
{
    if told.len() == 0 {
        assert(waiting + added_lines(told) =~= waiting);
    } else {
        let line = told[0];
        let more = told.drop_first();
        assert(is_addition(line));
        reveal_strlit("+");
        reveal_strlit("-");
        reveal_strlit(" ");
        assert(line.subrange(0, 1)[0] == '+');
        assert(!is_deletion(line) && !is_context(line)) by {
            if text::starts_with(line, "-"@) {
                assert(line.subrange(0, 1)[0] == '-');
            }
            if text::starts_with(line, " "@) {
                assert(line.subrange(0, 1)[0] == ' ');
            }
        }
        assert forall|i: int| 0 <= i < more.len() implies is_addition(#[trigger] more[i]) by {
            assert(is_addition(told[i + 1]));
        }
        let w = waiting + line.skip(1).push('\n');
        lemma_additions_wait(out, rest, more, w);
        assert(w + added_lines(more) =~= waiting + added_lines(told));
    }
}

/// Lines that all begin with a plus tell nothing of a text.
proof fn lemma_pluses_tell_nothing(rest: Seq<char>, diff: Seq<char>)
    requires
        rest.len() > 0,
        forall|i: int|
            0 <= i < whole_lines(diff).len() ==> text::starts_with(
                #[trigger] whole_lines(diff)[i],
                "+"@,
            ),
    ensures
        retold(rest, diff) is None,
    decreases diff.len(),
{
    if diff.len() > 0 {
        let n = line_len(diff) as int;
        let told = diff.skip(1);
        let all = whole_lines(diff);
        let next = whole_lines(diff.skip(n));
        lemma_line_len(diff);
        lemma_line_len(told);
        reveal_strlit("+");
        assert(all[0] == diff.take(n));
        assert(text::starts_with(all[0], "+"@));
        assert(all[0].subrange(0, 1)[0] == '+');
        assert(diff[0] == '+');
        assert(!ends_line(diff, 0));
        assert(told.skip(n - 1) =~= diff.skip(n));
        assert forall|i: int| 0 <= i < next.len() implies text::starts_with(
            #[trigger] next[i],
            "+"@,
        ) by {
            assert(next[i] == all[i + 1]);
        }
        lemma_pluses_tell_nothing(rest, diff.skip(n));
    }
}

/// A diff that only adds leaves a text in place and puts its lines behind it.
pub proof fn law_adding_diff_appends(original: Seq<char>, diff: Seq<char>)
    requires
        original.len() > 0,
        forall|i: int|
            0 <= i < bare_lines(diff).len() ==> is_addition(#[trigger] bare_lines(diff)[i]),
    ensures
        patched(original, diff) == adding(original, added_lines(bare_lines(diff))),
{
    let all = whole_lines(diff);
    reveal_strlit("+");
    assert forall|i: int| 0 <= i < all.len() implies text::starts_with(#[trigger] all[i], "+"@) by {
        let b = bare_lines(diff)[i];
        assert(b == bare(all[i]));
        assert(is_addition(b));
        assert(b.subrange(0, 1)[0] == '+');
        assert(all[i].subrange(0, 1) =~= "+"@);
    }
    lemma_pluses_tell_nothing(original, diff);
    lemma_additions_wait(seq![], whole_lines(original), bare_lines(diff), seq![]);
    lemma_whole_lines(original);
    assert(Seq::<char>::empty() + original =~= original);
    assert(Seq::<char>::empty() + added_lines(bare_lines(diff)) =~= added_lines(bare_lines(diff)));
}

/// A hunk that takes a line away and adds another puts the new line where the
/// old one stood first, and leaves the lines around it as they are.
pub proof fn law_line_is_replaced_in_place(
    lines: Seq<Seq<char>>,
    k: int,
    gone: Seq<char>,
    new: Seq<char>,
)
    requires
        0 <= k < lines.len(),
        k == place(lines, gone),
        is_deletion(seq!['-'] + gone),
        is_addition(seq!['+'] + new),
    ensures
        located(seq![], lines, seq![seq!['-'] + gone, seq!['+'] + new], false, seq![]) == adding(
            text::concat(lines.take(k)),
            new.push('\n'),
        ) + text::concat(lines.skip(k + 1)),
{
    let told = seq![seq!['-'] + gone, seq!['+'] + new];
    reveal_with_fuel(located, 3);
    reveal_strlit("+");
    reveal_strlit("-");
    reveal_strlit(" ");
    let a = told[0];
    let b = told[1];
    assert(a.skip(1) =~= gone);
    assert(b.skip(1) =~= new);
    assert(told.drop_first() =~= seq![b]);
    assert(seq![b].drop_first() =~= seq![]);
    assert(!is_deletion(b) && !is_context(b)) by {
        assert(b.subrange(0, 1)[0] == '+');
        assert("-"@[0] == '-' && " "@[0] == ' ');
    }
    let before = text::concat(lines.take(k));
    assert(Seq::<char>::empty() + before =~= before);
}

/// Whether some texts stand in another one, one behind the other.
#[verifier::opaque]
pub open spec fn stand_in_order(s: Seq<char>, parts: Seq<Seq<char>>) -> bool
    decreases parts.len(),
{
    parts.len() == 0 || exists|i: int| #[trigger]
        text::occurs_at(s, parts.last(), i) && stand_in_order(s.take(i), parts.drop_last())
}

/// The lines that a diff adds, with their ends, in their order.
pub open spec fn lines_to_add(told: Seq<Seq<char>>) -> Seq<Seq<char>>
    decreases told.len(),
{
    if told.len() == 0 {
        seq![]
    } else if is_addition(told.first()) {
        seq![told.first().skip(1).push('\n')] + lines_to_add(told.drop_first())
    } else {
        lines_to_add(told.drop_first())
    }
}

/// Texts that stand in a text still do when more comes behind it.
pub proof fn lemma_stand_longer(s: Seq<char>, t: Seq<char>, parts: Seq<Seq<char>>)
    requires
        stand_in_order(s, parts),
    ensures
        stand_in_order(s + t, parts),
{
    reveal(stand_in_order);
    if parts.len() > 0 {
        let i = choose|i: int| #[trigger]
            text::occurs_at(s, parts.last(), i) && stand_in_order(s.take(i), parts.drop_last());
        let n = parts.last().len();
        assert((s + t).subrange(i, i + n) =~= s.subrange(i, i + n));
        assert((s + t).take(i) =~= s.take(i));
        assert(text::occurs_at(s + t, parts.last(), i));
    }
}

/// A text put behind stands behind.
pub proof fn lemma_stand_behind(s: Seq<char>, parts: Seq<Seq<char>>, x: Seq<char>)
    requires
        stand_in_order(s, parts),
    ensures
        stand_in_order(s + x, parts.push(x)),
{
    reveal(stand_in_order);
    let n = s.len() as int;
    assert((s + x).subrange(n, n + x.len()) =~= x);
    assert((s + x).take(n) =~= s);
    assert(parts.push(x).drop_last() =~= parts);
    assert(text::occurs_at(s + x, parts.push(x).last(), n));
}

/// Texts put behind one after the other stand behind.
proof fn lemma_stand_all_behind(s: Seq<char>, parts: Seq<Seq<char>>, more: Seq<Seq<char>>)
    requires
        stand_in_order(s, parts),
    ensures
        stand_in_order(s + text::concat(more), parts + more),
    decreases more.len(),
{
    if more.len() == 0 {
        assert(s + text::concat(more) =~= s);
        assert(parts + more =~= parts);
    } else {
        lemma_stand_all_behind(s, parts, more.drop_last());
        lemma_stand_behind(
            s + text::concat(more.drop_last()),
            parts + more.drop_last(),
            more.last(),
        );
        assert((parts + more.drop_last()).push(more.last()) =~= parts + more);
        assert(s + text::concat(more.drop_last()) + more.last() =~= s + text::concat(more));
    }
}

/// The same where the texts begin on a line of their own.
proof fn lemma_stand_added(s: Seq<char>, parts: Seq<Seq<char>>, more: Seq<Seq<char>>)
    requires
        stand_in_order(s, parts),
        forall|i: int| 0 <= i < more.len() ==> (#[trigger] more[i]).len() > 0,
    ensures
        stand_in_order(adding(s, text::concat(more)), parts + more),
{
    if more.len() == 0 {
        assert(parts + more =~= parts);
    } else {
        assert(more[more.len() - 1].len() > 0);
        if s.len() == 0 || is_ended(s) {
            lemma_stand_all_behind(s, parts, more);
        } else {
            assert(s.push('\n') =~= s + seq!['\n']);
            lemma_stand_longer(s, seq!['\n'], parts);
            lemma_stand_all_behind(s.push('\n'), parts, more);
        }
    }
}

/// No line to add is lost on the way.
proof fn lemma_additions_stand(
    out: Seq<char>,
    rest: Seq<Seq<char>>,
    told: Seq<Seq<char>>,
    found: bool,
    waits: Seq<Seq<char>>,
    done: Seq<Seq<char>>,
)
    requires
        stand_in_order(out, done),
        found ==> waits.len() == 0,
        forall|i: int| 0 <= i < waits.len() ==> (#[trigger] waits[i]).len() > 0,
    ensures
        stand_in_order(
            located(out, rest, told, found, text::concat(waits)),
            done + waits + lines_to_add(told),
        ),
    decreases told.len(),
{
    reveal_strlit("+");
    reveal_strlit("-");
    reveal_strlit(" ");
    let none = Seq::<Seq<char>>::empty();
    assert(text::concat(none) =~= seq![]);
    if told.len() == 0 {
        lemma_stand_longer(out, text::concat(rest), done);
        lemma_stand_added(out + text::concat(rest), done, waits);
        assert(done + waits + lines_to_add(told) =~= done + waits);
    } else {
        let line = told.first();
        let more = told.drop_first();
        if is_deletion(line) || is_context(line) {
            assert(!is_addition(line)) by {
                if is_addition(line) {
                    assert(line.subrange(0, 1)[0] == '+');
                }
            }
            let k = place(rest, line.skip(1));
            if 0 <= k < rest.len() {
                let head = out + text::concat(rest.take(k));
                lemma_stand_longer(out, text::concat(rest.take(k)), done);
                lemma_stand_added(head, done, waits);
                let before = adding(head, text::concat(waits));
                lemma_stand_longer(before, rest[k], done + waits);
                let next = if is_deletion(line) {
                    before
                } else {
                    before + rest[k]
                };
                lemma_additions_stand(next, rest.skip(k + 1), more, true, none, done + waits);
                assert(done + waits + none + lines_to_add(more) =~= done + waits + lines_to_add(
                    told,
                ));
            } else {
                lemma_additions_stand(out, rest, more, found, waits, done);
            }
        } else if is_addition(line) {
            let x = line.skip(1).push('\n');
            let one = seq![x];
            reveal_with_fuel(text::concat, 2);
            assert(one.drop_last() =~= none);
            assert(text::concat(one) =~= x);
            assert(lines_to_add(told) =~= one + lines_to_add(more));
            if found {
                assert(waits =~= none);
                lemma_stand_added(out, done, one);
                lemma_additions_stand(adding(out, x), rest, more, found, none, done + one);
                assert(done + one + none + lines_to_add(more) =~= done + waits + lines_to_add(
                    told,
                ));
            } else {
                let w = waits + one;
                assert(w.drop_last() =~= waits);
                assert(text::concat(w) =~= text::concat(waits) + x);
                assert forall|i: int| 0 <= i < w.len() implies (#[trigger] w[i]).len() > 0 by {
                    if i < waits.len() {
                        assert(waits[i].len() > 0);
                    }
                }
                lemma_additions_stand(out, rest, more, found, w, done);
                assert(done + w + lines_to_add(more) =~= done + waits + lines_to_add(told));
            }
        } else {
            lemma_additions_stand(
                out,
                rest,
                more,
                found && !text::starts_with(line, "@@"@),
                waits,
                done,
            );
        }
    }
}

/// No line that a diff adds is lost: each stands in the patched text, whole and
/// in the order of the diff, wherever the rest of the diff is found.
pub proof fn law_no_added_line_is_lost(original: Seq<char>, diff: Seq<char>)
    requires
        retold(original, diff) is None,
    ensures
        stand_in_order(patched(original, diff), lines_to_add(bare_lines(diff))),
{
    reveal(stand_in_order);
    let none = Seq::<Seq<char>>::empty();
    assert(text::concat(none) =~= seq![]);
    lemma_additions_stand(seq![], whole_lines(original), bare_lines(diff), false, none, none);
    assert(none + none + lines_to_add(bare_lines(diff)) =~= lines_to_add(bare_lines(diff)));
}

/// No line of a text is lost on the way where none is taken away.
proof fn lemma_lines_stand(
    out: Seq<char>,
    rest: Seq<Seq<char>>,
    told: Seq<Seq<char>>,
    found: bool,
    waiting: Seq<char>,
    done: Seq<Seq<char>>,
)
    requires
        stand_in_order(out, done),
        forall|i: int| 0 <= i < told.len() ==> !is_deletion(#[trigger] told[i]),
    ensures
        stand_in_order(located(out, rest, told, found, waiting), done + rest),
    decreases told.len(),
{
    if told.len() == 0 {
        lemma_stand_all_behind(out, done, rest);
        lemma_adding_goes_behind(out + text::concat(rest), waiting, done + rest);
    } else {
        let line = told.first();
        let more = told.drop_first();
        assert(!is_deletion(told[0]));
        assert forall|i: int| 0 <= i < more.len() implies !is_deletion(#[trigger] more[i]) by {
            assert(!is_deletion(told[i + 1]));
        }
        if is_context(line) {
            let k = place(rest, line.skip(1));
            if 0 <= k < rest.len() {
                let head = rest.take(k);
                lemma_stand_all_behind(out, done, head);
                lemma_adding_goes_behind(out + text::concat(head), waiting, done + head);
                let before = adding(out + text::concat(head), waiting);
                lemma_stand_behind(before, done + head, rest[k]);
                lemma_lines_stand(
                    before + rest[k],
                    rest.skip(k + 1),
                    more,
                    true,
                    seq![],
                    (done + head).push(rest[k]),
                );
                assert((done + head).push(rest[k]) + rest.skip(k + 1) =~= done + rest);
            } else {
                lemma_lines_stand(out, rest, more, found, waiting, done);
            }
        } else if is_addition(line) {
            let x = line.skip(1).push('\n');
            if found {
                lemma_adding_goes_behind(out, x, done);
                lemma_lines_stand(adding(out, x), rest, more, found, waiting, done);
            } else {
                lemma_lines_stand(out, rest, more, found, waiting + x, done);
            }
        } else {
            lemma_lines_stand(
                out,
                rest,
                more,
                found && !text::starts_with(line, "@@"@),
                waiting,
                done,
            );
        }
    }
}

/// What stands in a text still does when lines are put behind it.
proof fn lemma_adding_goes_behind(s: Seq<char>, more: Seq<char>, parts: Seq<Seq<char>>)
    requires
        stand_in_order(s, parts),
    ensures
        stand_in_order(adding(s, more), parts),
{
    lemma_stand_longer(s, more, parts);
    lemma_stand_longer(s, seq!['\n'] + more, parts);
    assert(s + (seq!['\n'] + more) =~= s.push('\n') + more);
}

/// A diff that takes no line away keeps every line of the text, whole and in
/// order.
pub proof fn law_no_kept_line_is_lost(original: Seq<char>, diff: Seq<char>)
    requires
        retold(original, diff) is None,
        forall|i: int|
            0 <= i < bare_lines(diff).len() ==> !is_deletion(#[trigger] bare_lines(diff)[i]),
    ensures
        stand_in_order(patched(original, diff), whole_lines(original)),
{
    reveal(stand_in_order);
    let none = Seq::<Seq<char>>::empty();
    lemma_lines_stand(seq![], whole_lines(original), bare_lines(diff), false, seq![], none);
    assert(none + whole_lines(original) =~= whole_lines(original));
}

/// Whether a text is one line that ends with a line feed and holds no other line
/// end.
pub open spec fn is_lf_line(s: Seq<char>) -> bool {
    &&& s.len() > 0
    &&& s.last() == '\n'
    &&& forall|i: int| 0 <= i < s.len() - 1 ==> #[trigger] s[i] != '\n' && s[i] != '\r'
}

/// A line at the beginning of a text is the first of its lines.
proof fn lemma_whole_lines_first(line: Seq<char>, s: Seq<char>)
    requires
        is_lf_line(line),
    ensures
        whole_lines(line + s) == seq![line] + whole_lines(s),
        bare_lines(line + s) == seq![line.drop_last()] + bare_lines(s),
{
    let all = line + s;
    let n = line.len() as int;
    assert forall|j: int| 0 <= j < n - 1 implies !#[trigger] ends_line(all, j) by {
        assert(all[j] == line[j]);
    }
    assert(all[n - 1] == '\n');
    lemma_line_len_is(all, n);
    assert(all.take(n) =~= line);
    assert(all.skip(n) =~= s);
    let b = line.drop_last();
    assert(bare(line) =~= b) by {
        if b.len() > 0 {
            assert(b.last() == line[n - 2]);
        }
    }
    assert(bare_lines(all) =~= seq![b] + bare_lines(s));
}

/// Lines at the beginning of a text are the first of its lines.
proof fn lemma_whole_lines_begin(lines: Seq<Seq<char>>, s: Seq<char>)
    requires
        forall|i: int| 0 <= i < lines.len() ==> is_lf_line(#[trigger] lines[i]),
    ensures
        whole_lines(text::concat(lines) + s) == lines + whole_lines(s),
        text::concat(lines).len() == 0 || is_ended(text::concat(lines)),
    decreases lines.len(),
{
    if lines.len() == 0 {
        assert(text::concat(lines) + s =~= s);
        assert(lines + whole_lines(s) =~= whole_lines(s));
    } else {
        let rest = lines.drop_last();
        let last = lines.last();
        assert(is_lf_line(lines[lines.len() - 1]));
        assert forall|i: int| 0 <= i < rest.len() implies is_lf_line(#[trigger] rest[i]) by {
            assert(is_lf_line(lines[i]));
        }
        lemma_whole_lines_begin(rest, last + s);
        lemma_whole_lines_first(last, s);
        assert(text::concat(lines) + s =~= text::concat(rest) + (last + s));
        assert(rest + (seq![last] + whole_lines(s)) =~= lines + whole_lines(s));
        assert(text::concat(lines).last() == '\n');
    }
}

/// Whether changes are lines that a hunk can tell: each ends with a line feed,
/// and none reads like the name of a file behind its mark.
pub open spec fn can_tell(changes: Seq<(DiffTag, Seq<char>)>) -> bool {
    forall|i: int|
        0 <= i < changes.len() ==> is_lf_line((#[trigger] changes[i]).1) && (changes[i].0
            == DiffTag::Delete ==> !text::starts_with(changes[i].1, "--"@)) && (changes[i].0
            == DiffTag::Insert ==> !text::starts_with(changes[i].1, "++"@))
}

/// The line of a diff that tells a change.
proof fn lemma_told_line(tag: DiffTag, line: Seq<char>)
    requires
        is_lf_line(line),
        tag == DiffTag::Delete ==> !text::starts_with(line, "--"@),
        tag == DiffTag::Insert ==> !text::starts_with(line, "++"@),
    ensures
        ({
            let told = tag_text(tag) + line.drop_last();
            &&& told.len() > 0
            &&& told.skip(1) == line.drop_last()
            &&& is_deletion(told) <==> tag == DiffTag::Delete
            &&& is_context(told) <==> tag == DiffTag::Equal
            &&& is_addition(told) <==> tag == DiffTag::Insert
        }),
{
    reveal_strlit("+");
    reveal_strlit("-");
    reveal_strlit(" ");
    reveal_strlit("+++");
    reveal_strlit("---");
    reveal_strlit("++");
    reveal_strlit("--");
    let told = tag_text(tag) + line.drop_last();
    assert(told.skip(1) =~= line.drop_last());
    assert(told.subrange(0, 1) =~= tag_text(tag));
    assert("+"@[0] == '+' && "-"@[0] == '-' && " "@[0] == ' ');
    if text::starts_with(told, "---"@) {
        assert(told.subrange(0, 3)[1] == '-' && told.subrange(0, 3)[2] == '-');
        assert(told[1] == '-' && told[2] == '-');
        assert(line[0] == '-' && line[1] == '-');
        assert(line.subrange(0, 2) =~= "--"@);
        assert(told.subrange(0, 3)[0] == '-');
    }
    if text::starts_with(told, "+++"@) {
        assert(told.subrange(0, 3)[1] == '+' && told.subrange(0, 3)[2] == '+');
        assert(told[1] == '+' && told[2] == '+');
        assert(line[0] == '+' && line[1] == '+');
        assert(line.subrange(0, 2) =~= "++"@);
        assert(told.subrange(0, 3)[0] == '+');
    }
}

/// The lines of a diff that tells changes.
proof fn lemma_told_first(changes: Seq<(DiffTag, Seq<char>)>)
    requires
        changes.len() > 0,
        can_tell(changes),
    ensures
        bare_lines(diff_text(changes)) == seq![
            tag_text(changes[0].0) + changes[0].1.drop_last(),
        ] + bare_lines(diff_text(changes.drop_first())),
        can_tell(changes.drop_first()),
{
    let (tag, line) = changes[0];
    let more = changes.drop_first();
    lemma_sides_first(changes);
    reveal_strlit("+");
    reveal_strlit("-");
    reveal_strlit(" ");
    let told = tag_text(tag) + line;
    assert(is_lf_line(changes[0].1));
    assert forall|i: int| 0 <= i < told.len() - 1 implies #[trigger] told[i] != '\n' && told[i]
        != '\r' by {
        if i > 0 {
            assert(told[i] == line[i - 1]);
        }
    }
    assert(told.last() == line.last());
    lemma_whole_lines_first(told, diff_text(more));
    assert(told.drop_last() =~= tag_text(tag) + line.drop_last());
    assert forall|i: int| 0 <= i < more.len() implies is_lf_line((#[trigger] more[i]).1) && (
    more[i].0 == DiffTag::Delete ==> !text::starts_with(more[i].1, "--"@)) && (more[i].0
        == DiffTag::Insert ==> !text::starts_with(more[i].1, "++"@)) by {
        assert(more[i] == changes[i + 1]);
    }
}

/// Changes that tell the lines right behind those found are made there.
#[verifier::rlimit(40)]
proof fn lemma_hunk_goes_on(
    out: Seq<char>,
    changes: Seq<(DiffTag, Seq<char>)>,
    after: Seq<char>,
)
    requires
        out.len() == 0 || is_ended(out),
        can_tell(changes),
    ensures
        located(
            out,
            whole_lines(first_side(changes) + after),
            bare_lines(diff_text(changes)),
            true,
            seq![],
        ) == out + second_side(changes) + after,
    decreases changes.len(),
{
    let empty = Seq::<char>::empty();
    if changes.len() == 0 {
        assert(first_side(changes) + after =~= after);
        lemma_whole_lines(after);
        assert(bare_lines(diff_text(changes)) =~= seq![]);
        assert(out + second_side(changes) + after =~= out + after);
    } else {
        let (tag, line) = changes[0];
        let more = changes.drop_first();
        lemma_sides_first(changes);
        lemma_told_first(changes);
        assert(is_lf_line(changes[0].1));
        lemma_told_line(tag, line);
        let told = tag_text(tag) + line.drop_last();
        let every = bare_lines(diff_text(changes));
        assert(every.first() == told);
        assert(every.drop_first() =~= bare_lines(diff_text(more)));
        let rest = whole_lines(first_side(changes) + after);
        assert(line.drop_last().push('\n') =~= line);
        if tag == DiffTag::Insert {
            lemma_hunk_goes_on(out + line, more, after);
            assert(adding(out, line) == out + line);
            assert(out + line + second_side(more) + after =~= out + second_side(changes) + after);
        } else {
            assert(first_side(changes) + after =~= line + (first_side(more) + after));
            lemma_whole_lines_first(line, first_side(more) + after);
            assert(rest[0] == line);
            lemma_bare_lf(line);
            assert(place(rest, line.drop_last()) == 0);
            assert(rest.skip(1) =~= whole_lines(first_side(more) + after));
            assert(rest.take(0) =~= seq![]);
            assert(out + text::concat(rest.take(0)) =~= out);
            if tag == DiffTag::Delete {
                lemma_hunk_goes_on(out, more, after);
            } else {
                lemma_hunk_goes_on(out + line, more, after);
                assert(out + line + second_side(more) + after =~= out + second_side(changes)
                    + after);
            }
        }
    }
}

/// A line that ends with a line feed, without its end.
proof fn lemma_bare_lf(line: Seq<char>)
    requires
        is_lf_line(line),
    ensures
        bare(line) == line.drop_last(),
{
    let b = line.drop_last();
    if b.len() > 0 {
        assert(b.last() == line[line.len() - 2]);
    }
}

/// Where a line stands behind others that read otherwise.
proof fn lemma_place_behind(before: Seq<Seq<char>>, line: Seq<char>, more: Seq<Seq<char>>)
    requires
        is_lf_line(line),
        forall|i: int| 0 <= i < before.len() ==> is_lf_line(#[trigger] before[i]) && before[i] != line,
    ensures
        place(before + (seq![line] + more), line.drop_last()) == before.len(),
    decreases before.len(),
{
    let all = before + (seq![line] + more);
    if before.len() == 0 {
        assert(all.first() == line);
        lemma_bare_lf(line);
    } else {
        let b = before[0];
        assert(all.first() == b);
        lemma_bare_lf(b);
        assert(bare(b) != line.drop_last()) by {
            if b.drop_last() == line.drop_last() {
                assert(b =~= b.drop_last().push('\n'));
                assert(line =~= line.drop_last().push('\n'));
            }
        }
        let rest = before.drop_first();
        assert forall|i: int| 0 <= i < rest.len() implies is_lf_line(#[trigger] rest[i]) && rest[i]
            != line by {
            assert(rest[i] == before[i + 1]);
        }
        lemma_place_behind(rest, line, more);
        assert(all.drop_first() =~= rest + (seq![line] + more));
    }
}

/// A hunk replaces the lines that it tells of: where they stand together, and
/// the first of them stands nowhere before, the lines that stay or come take the
/// place of those that stay or go. All that is before and behind is left alone.
pub proof fn law_hunk_is_applied(
    before: Seq<Seq<char>>,
    changes: Seq<(DiffTag, Seq<char>)>,
    after: Seq<char>,
    header: Seq<char>,
)
    requires
        text::starts_with(header, "@@"@),
        is_lf_line(header),
        can_tell(changes),
        changes.len() > 0,
        changes[0].0 != DiffTag::Insert,
        forall|i: int|
            0 <= i < before.len() ==> is_lf_line(#[trigger] before[i]) && before[i] != changes[0].1,
    ensures
        patched(
            text::concat(before) + first_side(changes) + after,
            header + diff_text(changes),
        ) == text::concat(before) + second_side(changes) + after,
{
    let original = text::concat(before) + first_side(changes) + after;
    let diff = header + diff_text(changes);
    let (tag, line) = changes[0];
    let more = changes.drop_first();
    let rest = first_side(more) + after;
    let start = text::concat(before);
    let empty = Seq::<char>::empty();
    reveal_strlit("@@");
    reveal_strlit("+");
    reveal_strlit("-");
    reveal_strlit(" ");
    assert(header.subrange(0, 2)[0] == '@' && header.subrange(0, 2)[1] == '@');
    assert(header[0] == '@' && header[1] == '@');
    assert(diff[0] == '@');
    assert(retold(original, diff) is None);
    let h = header.drop_last();
    lemma_whole_lines_first(header, diff_text(changes));
    lemma_sides_first(changes);
    lemma_told_first(changes);
    assert(is_lf_line(changes[0].1));
    lemma_told_line(tag, line);
    assert(original =~= start + (line + rest));
    lemma_whole_lines_begin(before, line + rest);
    lemma_whole_lines_first(line, rest);
    let lines = whole_lines(original);
    assert(lines =~= before + (seq![line] + whole_lines(rest)));
    lemma_place_behind(before, line, whole_lines(rest));
    let told = bare_lines(diff);
    assert(told.first() == h);
    assert(!is_deletion(h) && !is_context(h) && !is_addition(h)) by {
        assert(h[0] == '@');
        if text::starts_with(h, "-"@) {
            assert(h.subrange(0, 1)[0] == '-');
        }
        if text::starts_with(h, " "@) {
            assert(h.subrange(0, 1)[0] == ' ');
        }
        if text::starts_with(h, "+"@) {
            assert(h.subrange(0, 1)[0] == '+');
        }
    }
    let next = told.drop_first();
    assert(next =~= bare_lines(diff_text(changes)));
    assert(next.first() == tag_text(tag) + line.drop_last());
    assert(next.drop_first() =~= bare_lines(diff_text(more)));
    let k = before.len() as int;
    assert(lines.take(k) =~= before);
    assert(lines[k] == line);
    assert(lines.skip(k + 1) =~= whole_lines(rest));
    assert(empty + start =~= start);
    let out = if tag == DiffTag::Delete {
        start
    } else {
        start + line
    };
    lemma_hunk_goes_on(out, more, after);
    assert(located(empty, lines, told, false, empty) == located(empty, lines, next, false, empty));
    assert(located(empty, lines, next, false, empty) == located(
        out,
        whole_lines(rest),
        bare_lines(diff_text(more)),
        true,
        empty,
    ));
    assert(out + second_side(more) + after =~= start + second_side(changes) + after);
}

/// A text that is made piece by piece holds its pieces.
pub proof fn lemma_stand_next(s: Seq<char>, parts: Seq<Seq<char>>, between: Seq<char>, x: Seq<char>)
    requires
        stand_in_order(s, parts),
    ensures
        stand_in_order(s + between + x, parts.push(x)),
{
    lemma_stand_longer(s, between, parts);
    lemma_stand_behind(s + between, parts, x);
}

/// Nothing stands anywhere.
pub proof fn lemma_nothing_stands(s: Seq<char>)
    ensures
        stand_in_order(s, Seq::empty()),
{
    reveal(stand_in_order);
}

/// A diff tells its changes one after the other, each behind its mark: a minus,
/// a plus or a blank.
pub proof fn law_diff_tells_each_change(
    a: Seq<(DiffTag, Seq<char>)>,
    b: Seq<(DiffTag, Seq<char>)>,
    line: Seq<char>,
)
    ensures
        diff_text(a + b) == diff_text(a) + diff_text(b),
        diff_text(seq![(DiffTag::Delete, line)]) == seq!['-'] + line,
        diff_text(seq![(DiffTag::Insert, line)]) == seq!['+'] + line,
        diff_text(seq![(DiffTag::Equal, line)]) == seq![' '] + line,
        diff_text(seq![]).len() == 0,
    decreases b.len(),
{
    reveal_strlit("+");
    reveal_strlit("-");
    reveal_strlit(" ");
    reveal_with_fuel(diff_text, 2);
    let none = Seq::<(DiffTag, Seq<char>)>::empty();
    assert(seq![(DiffTag::Delete, line)].drop_last() =~= none);
    assert(seq![(DiffTag::Insert, line)].drop_last() =~= none);
    assert(seq![(DiffTag::Equal, line)].drop_last() =~= none);
    assert(diff_text(seq![(DiffTag::Delete, line)]) =~= seq!['-'] + line);
    assert(diff_text(seq![(DiffTag::Insert, line)]) =~= seq!['+'] + line);
    assert(diff_text(seq![(DiffTag::Equal, line)]) =~= seq![' '] + line);
    if b.len() == 0 {
        assert(a + b =~= a);
        assert(diff_text(a) + diff_text(b) =~= diff_text(a));
    } else {
        law_diff_tells_each_change(a, b.drop_last(), line);
        assert((a + b).drop_last() =~= a + b.drop_last());
        assert(diff_text(a + b) =~= diff_text(a) + diff_text(b));
    }
}

/// The sides of a diff are those of its changes one after the other: a line that
/// goes stands on the first, one that comes on the second, and one that stays on
/// both.
pub proof fn law_sides_of_a_diff(
    a: Seq<(DiffTag, Seq<char>)>,
    b: Seq<(DiffTag, Seq<char>)>,
    line: Seq<char>,
)
    ensures
        first_side(a + b) == first_side(a) + first_side(b),
        second_side(a + b) == second_side(a) + second_side(b),
        first_side(seq![(DiffTag::Delete, line)]) == line,
        first_side(seq![(DiffTag::Insert, line)]).len() == 0,
        first_side(seq![(DiffTag::Equal, line)]) == line,
        second_side(seq![(DiffTag::Delete, line)]).len() == 0,
        second_side(seq![(DiffTag::Insert, line)]) == line,
        second_side(seq![(DiffTag::Equal, line)]) == line,
    decreases b.len(),
{
    reveal_with_fuel(first_side, 2);
    reveal_with_fuel(second_side, 2);
    let none = Seq::<(DiffTag, Seq<char>)>::empty();
    assert(seq![(DiffTag::Delete, line)].drop_last() =~= none);
    assert(seq![(DiffTag::Insert, line)].drop_last() =~= none);
    assert(seq![(DiffTag::Equal, line)].drop_last() =~= none);
    assert(Seq::<char>::empty() + line =~= line);
    if b.len() == 0 {
        assert(a + b =~= a);
        assert(first_side(a) + first_side(b) =~= first_side(a));
        assert(second_side(a) + second_side(b) =~= second_side(a));
    } else {
        law_sides_of_a_diff(a, b.drop_last(), line);
        assert((a + b).drop_last() =~= a + b.drop_last());
        assert(first_side(a + b) =~= first_side(a) + first_side(b));
        assert(second_side(a + b) =~= second_side(a) + second_side(b));
    }
}

/// The lines of a text make up the text, and none of them holds a line end but
/// at its own end.
pub proof fn law_lines_make_up_the_text(s: Seq<char>, i: int)
    ensures
        text::concat(whole_lines(s)) == s,
        0 <= i < whole_lines(s).len() ==> is_line(whole_lines(s)[i]),
        0 <= i < whole_lines(s).len() - 1 ==> is_ended(whole_lines(s)[i]),
    decreases s.len(),
{
    lemma_whole_lines(s);
    if s.len() > 0 {
        let n = line_len(s) as int;
        let line = s.take(n);
        let more = whole_lines(s.skip(n));
        lemma_line_len(s);
        lemma_first_line_is_one(s);
        law_lines_make_up_the_text(s.skip(n), i - 1);
        if 0 < i < whole_lines(s).len() {
            assert(whole_lines(s)[i] == more[i - 1]);
        }
        if i == 0 && more.len() > 0 {
            assert(n < s.len()) by {
                if n == s.len() {
                    assert(s.skip(n).len() == 0);
                }
            }
        }
    }
}

/// The first line of a text is one line, ended where more follows.
proof fn lemma_first_line_is_one(s: Seq<char>)
    requires
        s.len() > 0,
    ensures
        is_line(s.take(line_len(s) as int)),
        line_len(s) < s.len() ==> is_ended(s.take(line_len(s) as int)),
    decreases s.len(),
{
    lemma_line_len(s);
    let n = line_len(s) as int;
    let line = s.take(n);
    if ends_line(s, 0) {
    } else {
        let t = s.skip(1);
        if t.len() > 0 {
            lemma_first_line_is_one(t);
            lemma_line_len(t);
            let u = t.take(n - 1);
            assert(line.skip(1) =~= u);
            assert forall|j: int| 0 <= j < line.len() - 1 implies !#[trigger] ends_line(line, j) by {
                if j == 0 {
                    assert(!ends_line(s, 0));
                    assert(line[0] == s[0] && line[1] == s[1]);
                } else {
                    assert(!ends_line(u, j - 1));
                    assert(u[j - 1] == line[j] && u[j] == line[j + 1]);
                }
            }
            assert(n - 1 > 0);
            assert(line.last() == u.last());
        }
    }
}

/// The line ends of two texts add up, and texts of fewer than 2147483647 characters can
/// always be compared.
pub proof fn law_line_ends_are_counted(a: Seq<char>, b: Seq<char>, c: char)
    ensures
        line_ends(a + b) == line_ends(a) + line_ends(b),
        line_ends(seq![c]) == if c == '\n' || c == '\r' {
            1nat
        } else {
            0
        },
        line_ends(seq![]) == 0,
        line_ends(b) <= b.len(),
        a.len() < 2147483647 && b.len() < 2147483647 && line_ends(a) <= a.len()
            ==> can_number_lines(a, b),
        can_number_lines(a, b) <==> line_ends(a) + line_ends(b) <= 4294967293,
    decreases b.len(),
{
    reveal_with_fuel(line_ends, 2);
    if b.len() == 0 {
        assert(a + b =~= a);
    } else {
        law_line_ends_are_counted(a, b.drop_last(), c);
        assert((a + b).drop_last() =~= a + b.drop_last());
        assert((a + b).last() == b.last());
    }
}

// Several hunks.

/// A hunk and the lines before it that it does not tell of: its header, the lines that
/// it begins with and adds, and its changes from the first line on that stays or goes.
pub struct Hunk {
    pub skipped: Seq<Seq<char>>,
    pub header: Seq<char>,
    pub added: Seq<(DiffTag, Seq<char>)>,
    pub changes: Seq<(DiffTag, Seq<char>)>,
}

/// The text that some hunks are made for.
pub open spec fn text_before(hunks: Seq<Hunk>) -> Seq<char>
    decreases hunks.len(),
{
    if hunks.len() == 0 {
        seq![]
    } else {
        let h = hunks.first();
        text::concat(h.skipped) + first_side(h.changes) + text_before(hunks.drop_first())
    }
}

/// The text that some hunks tell.
pub open spec fn text_after(hunks: Seq<Hunk>) -> Seq<char>
    decreases hunks.len(),
{
    if hunks.len() == 0 {
        seq![]
    } else {
        let h = hunks.first();
        text::concat(h.skipped) + second_side(h.added) + second_side(h.changes) + text_after(
            hunks.drop_first(),
        )
    }
}

/// Hunks as a diff.
pub open spec fn hunks_text(hunks: Seq<Hunk>) -> Seq<char>
    decreases hunks.len(),
{
    if hunks.len() == 0 {
        seq![]
    } else {
        let h = hunks.first();
        h.header + (diff_text(h.added) + (diff_text(h.changes) + hunks_text(hunks.drop_first())))
    }
}

/// Whether a hunk can be found: its lines can be told, and the first of them that stays
/// or goes stands nowhere among the lines before the hunk.
pub open spec fn can_find(h: Hunk) -> bool {
    &&& text::starts_with(h.header, "@@"@)
    &&& is_lf_line(h.header)
    &&& can_tell(h.added)
    &&& forall|i: int| 0 <= i < h.added.len() ==> (#[trigger] h.added[i]).0 == DiffTag::Insert
    &&& can_tell(h.changes)
    &&& h.changes.len() > 0
    &&& h.changes[0].0 != DiffTag::Insert
    &&& forall|i: int|
        0 <= i < h.skipped.len() ==> is_lf_line(#[trigger] h.skipped[i]) && h.skipped[i]
            != h.changes[0].1
}

/// The first line of a diff that goes on behind its changes.
proof fn lemma_told_first_of(changes: Seq<(DiffTag, Seq<char>)>, tail: Seq<char>)
    requires
        changes.len() > 0,
        can_tell(changes),
    ensures
        bare_lines(diff_text(changes) + tail) == seq![
            tag_text(changes[0].0) + changes[0].1.drop_last(),
        ] + bare_lines(diff_text(changes.drop_first()) + tail),
        can_tell(changes.drop_first()),
{
    let (tag, line) = changes[0];
    let more = changes.drop_first();
    lemma_sides_first(changes);
    lemma_told_first(changes);
    reveal_strlit("+");
    reveal_strlit("-");
    reveal_strlit(" ");
    let told = tag_text(tag) + line;
    assert(is_lf_line(changes[0].1));
    assert forall|i: int| 0 <= i < told.len() - 1 implies #[trigger] told[i] != '\n' && told[i]
        != '\r' by {
        if i > 0 {
            assert(told[i] == line[i - 1]);
        }
    }
    assert(told.last() == line.last());
    lemma_whole_lines_first(told, diff_text(more) + tail);
    assert(diff_text(changes) + tail =~= told + (diff_text(more) + tail));
    assert(told.drop_last() =~= tag_text(tag) + line.drop_last());
}

/// Changes that tell the lines right behind those found are made there, and the diff
/// goes on behind them.
#[verifier::rlimit(40)]
proof fn lemma_hunk_passes(
    out: Seq<char>,
    changes: Seq<(DiffTag, Seq<char>)>,
    after: Seq<char>,
    tail: Seq<char>,
)
    requires
        out.len() == 0 || is_ended(out),
        can_tell(changes),
    ensures
        located(
            out,
            whole_lines(first_side(changes) + after),
            bare_lines(diff_text(changes) + tail),
            true,
            seq![],
        ) == located(
            out + second_side(changes),
            whole_lines(after),
            bare_lines(tail),
            true,
            seq![],
        ),
        (out + second_side(changes)).len() == 0 || is_ended(out + second_side(changes)),
    decreases changes.len(),
{
    if changes.len() == 0 {
        assert(first_side(changes) + after =~= after);
        assert(diff_text(changes) + tail =~= tail);
        assert(out + second_side(changes) =~= out);
    } else {
        let (tag, line) = changes[0];
        let more = changes.drop_first();
        lemma_sides_first(changes);
        lemma_told_first_of(changes, tail);
        assert(is_lf_line(changes[0].1));
        lemma_told_line(tag, line);
        let told = tag_text(tag) + line.drop_last();
        let every = bare_lines(diff_text(changes) + tail);
        assert(every.first() == told);
        assert(every.drop_first() =~= bare_lines(diff_text(more) + tail));
        let rest = whole_lines(first_side(changes) + after);
        assert(line.drop_last().push('\n') =~= line);
        assert((out + line).last() == '\n');
        if tag == DiffTag::Insert {
            lemma_hunk_passes(out + line, more, after, tail);
            assert(adding(out, line) == out + line);
            assert(out + line + second_side(more) =~= out + second_side(changes));
        } else {
            assert(first_side(changes) + after =~= line + (first_side(more) + after));
            lemma_whole_lines_first(line, first_side(more) + after);
            assert(rest[0] == line);
            lemma_bare_lf(line);
            assert(place(rest, line.drop_last()) == 0);
            assert(rest.skip(1) =~= whole_lines(first_side(more) + after));
            assert(rest.take(0) =~= seq![]);
            assert(out + text::concat(rest.take(0)) =~= out);
            if tag == DiffTag::Delete {
                lemma_hunk_passes(out, more, after, tail);
                assert(out + second_side(more) =~= out + second_side(changes));
            } else {
                lemma_hunk_passes(out + line, more, after, tail);
                assert(out + line + second_side(more) =~= out + second_side(changes));
            }
        }
    }
}

/// Lines to add at the beginning of a hunk wait for the first line that is found.
proof fn lemma_first_additions_wait(
    out: Seq<char>,
    rest: Seq<Seq<char>>,
    added: Seq<(DiffTag, Seq<char>)>,
    tail: Seq<char>,
    waiting: Seq<char>,
)
    requires
        can_tell(added),
        forall|i: int| 0 <= i < added.len() ==> (#[trigger] added[i]).0 == DiffTag::Insert,
    ensures
        located(out, rest, bare_lines(diff_text(added) + tail), false, waiting) == located(
            out,
            rest,
            bare_lines(tail),
            false,
            waiting + second_side(added),
        ),
    decreases added.len(),
{
    if added.len() == 0 {
        assert(diff_text(added) + tail =~= tail);
        assert(waiting + second_side(added) =~= waiting);
    } else {
        let (tag, line) = added[0];
        let more = added.drop_first();
        assert(tag == DiffTag::Insert);
        lemma_sides_first(added);
        lemma_told_first_of(added, tail);
        assert(is_lf_line(added[0].1));
        lemma_told_line(tag, line);
        let every = bare_lines(diff_text(added) + tail);
        assert(every.first() == tag_text(tag) + line.drop_last());
        assert(every.drop_first() =~= bare_lines(diff_text(more) + tail));
        assert(line.drop_last().push('\n') =~= line);
        assert forall|i: int| 0 <= i < more.len() implies (#[trigger] more[i]).0
            == DiffTag::Insert by {
            assert(more[i] == added[i + 1]);
        }
        lemma_first_additions_wait(out, rest, more, tail, waiting + line);
        assert(waiting + line + second_side(more) =~= waiting + second_side(added));
    }
}

/// The header of a hunk begins a new place.
proof fn lemma_header_begins(
    out: Seq<char>,
    rest: Seq<Seq<char>>,
    header: Seq<char>,
    tail: Seq<char>,
    found: bool,
)
    requires
        text::starts_with(header, "@@"@),
        is_lf_line(header),
    ensures
        located(out, rest, bare_lines(header + tail), found, seq![]) == located(
            out,
            rest,
            bare_lines(tail),
            false,
            seq![],
        ),
{
    reveal_strlit("@@");
    reveal_strlit("+");
    reveal_strlit("-");
    reveal_strlit(" ");
    let h = header.drop_last();
    assert(header.subrange(0, 2)[0] == '@' && header.subrange(0, 2)[1] == '@');
    assert(header[0] == '@' && header[1] == '@');
    lemma_whole_lines_first(header, tail);
    assert(h[0] == '@' && h[1] == '@');
    assert(h.subrange(0, 2) =~= "@@"@);
    if text::starts_with(h, "-"@) {
        assert(h.subrange(0, 1)[0] == '-');
    }
    if text::starts_with(h, " "@) {
        assert(h.subrange(0, 1)[0] == ' ');
    }
    if text::starts_with(h, "+"@) {
        assert(h.subrange(0, 1)[0] == '+');
    }
    let told = bare_lines(header + tail);
    assert(told.first() == h);
    assert(told.drop_first() =~= bare_lines(tail));
}

/// One hunk is made, and the diff goes on behind it.
#[verifier::rlimit(40)]
proof fn lemma_hunk_is_made(
    out: Seq<char>,
    h: Hunk,
    after: Seq<char>,
    tail: Seq<char>,
    found: bool,
)
    requires
        out.len() == 0 || is_ended(out),
        can_find(h),
    ensures
        ({
            let made = out + text::concat(h.skipped) + second_side(h.added) + second_side(
                h.changes,
            );
            &&& made.len() == 0 || is_ended(made)
            &&& located(
                out,
                whole_lines(text::concat(h.skipped) + first_side(h.changes) + after),
                bare_lines(h.header + (diff_text(h.added) + (diff_text(h.changes) + tail))),
                found,
                seq![],
            ) == located(made, whole_lines(after), bare_lines(tail), true, seq![])
        }),
{
    let empty = Seq::<char>::empty();
    let original = text::concat(h.skipped) + first_side(h.changes) + after;
    let lines = whole_lines(original);
    let told = diff_text(h.changes) + tail;
    lemma_header_begins(out, lines, h.header, diff_text(h.added) + told, found);
    lemma_first_additions_wait(out, lines, h.added, told, empty);
    let waiting = second_side(h.added);
    assert(empty + waiting =~= waiting);
    let (tag, line) = h.changes[0];
    let more = h.changes.drop_first();
    let rest = first_side(more) + after;
    let start = text::concat(h.skipped);
    lemma_sides_first(h.changes);
    lemma_told_first_of(h.changes, tail);
    assert(is_lf_line(h.changes[0].1));
    lemma_told_line(tag, line);
    assert(original =~= start + (line + rest));
    lemma_whole_lines_begin(h.skipped, line + rest);
    lemma_whole_lines_first(line, rest);
    assert(lines =~= h.skipped + (seq![line] + whole_lines(rest)));
    lemma_place_behind(h.skipped, line, whole_lines(rest));
    let k = h.skipped.len() as int;
    assert(lines.take(k) =~= h.skipped);
    assert(lines[k] == line);
    assert(lines.skip(k + 1) =~= whole_lines(rest));
    let every = bare_lines(told);
    assert(every.first() == tag_text(tag) + line.drop_last());
    assert(every.drop_first() =~= bare_lines(diff_text(more) + tail));
    lemma_added_lines_end(h.added);
    let before = out + start;
    assert(before.len() == 0 || is_ended(before)) by {
        if start.len() > 0 {
            assert(before.last() == start.last());
        } else {
            assert(before =~= out);
        }
    }
    let put = before + waiting;
    assert(put.len() == 0 || is_ended(put)) by {
        if waiting.len() > 0 {
            assert(put.last() == waiting.last());
        } else {
            assert(put =~= before);
        }
    }
    assert(adding(before, waiting) =~= put);
    let next = if tag == DiffTag::Delete {
        put
    } else {
        put + line
    };
    assert(next.len() == 0 || is_ended(next)) by {
        if tag != DiffTag::Delete {
            assert(next.last() == line.last());
        }
    }
    lemma_hunk_passes(next, more, after, tail);
    assert(next + second_side(more) =~= out + start + waiting + second_side(h.changes));
}

/// Lines to add end where they should.
proof fn lemma_added_lines_end(added: Seq<(DiffTag, Seq<char>)>)
    requires
        can_tell(added),
        forall|i: int| 0 <= i < added.len() ==> (#[trigger] added[i]).0 == DiffTag::Insert,
    ensures
        second_side(added).len() == 0 || is_ended(second_side(added)),
{
    if added.len() > 0 {
        let last = added[added.len() - 1];
        assert(is_lf_line(last.1));
        assert(last.0 == DiffTag::Insert);
        assert(second_side(added).last() == last.1.last());
    }
}

/// Hunks are made one after the other.
proof fn lemma_hunks_are_made(out: Seq<char>, hunks: Seq<Hunk>, after: Seq<char>, found: bool)
    requires
        out.len() == 0 || is_ended(out),
        forall|i: int| 0 <= i < hunks.len() ==> can_find(#[trigger] hunks[i]),
    ensures
        located(
            out,
            whole_lines(text_before(hunks) + after),
            bare_lines(hunks_text(hunks)),
            found,
            seq![],
        ) == out + text_after(hunks) + after,
    decreases hunks.len(),
{
    if hunks.len() == 0 {
        assert(text_before(hunks) + after =~= after);
        lemma_whole_lines(after);
        assert(bare_lines(hunks_text(hunks)) =~= seq![]);
        assert(out + text_after(hunks) + after =~= out + after);
    } else {
        let h = hunks[0];
        let more = hunks.drop_first();
        assert(can_find(hunks[0]));
        assert forall|i: int| 0 <= i < more.len() implies can_find(#[trigger] more[i]) by {
            assert(more[i] == hunks[i + 1]);
        }
        let rest = text_before(more) + after;
        lemma_hunk_is_made(out, h, rest, hunks_text(more), found);
        assert(text_before(hunks) + after =~= text::concat(h.skipped) + first_side(h.changes)
            + rest);
        let made = out + text::concat(h.skipped) + second_side(h.added) + second_side(h.changes);
        lemma_hunks_are_made(made, more, after, true);
        assert(made + text_after(more) + after =~= out + text_after(hunks) + after);
    }
}

/// Each hunk of a diff is made where its lines stand, behind the hunk before it: lines
/// that it adds before any other stand right before the first line that it tells of, and
/// what no hunk tells of is left alone.
pub proof fn law_hunks_are_applied_in_turn(hunks: Seq<Hunk>, after: Seq<char>)
    requires
        hunks.len() > 0,
        forall|i: int| 0 <= i < hunks.len() ==> can_find(#[trigger] hunks[i]),
    ensures
        patched(text_before(hunks) + after, hunks_text(hunks)) == text_after(hunks) + after,
{
    let original = text_before(hunks) + after;
    let diff = hunks_text(hunks);
    let header = hunks[0].header;
    assert(can_find(hunks[0]));
    reveal_strlit("@@");
    assert(header.subrange(0, 2)[0] == '@');
    assert(diff[0] == '@');
    assert(retold(original, diff) is None);
    lemma_hunks_are_made(seq![], hunks, after, false);
    assert(Seq::<char>::empty() + text_after(hunks) + after =~= text_after(hunks) + after);
}

/// What stands before the first hunk, such as the names of the files, makes no
/// difference.
pub proof fn law_names_of_files_are_passed_over(
    original: Seq<char>,
    name: Seq<char>,
    diff: Seq<char>,
)
    requires
        is_lf_line(name),
        text::starts_with(name, "---"@) || text::starts_with(name, "+++"@) || (name[0] != '+'
            && name[0] != '-' && name[0] != ' '),
        name.len() > 3,
        retold(original, name + diff) is None,
        retold(original, diff) is None,
    ensures
        patched(original, name + diff) == patched(original, diff),
{
    reveal_strlit("+");
    reveal_strlit("-");
    reveal_strlit(" ");
    reveal_strlit("+++");
    reveal_strlit("---");
    let n = name.drop_last();
    lemma_whole_lines_first(name, diff);
    assert(n[0] == name[0] && n[1] == name[1] && n[2] == name[2]);
    if text::starts_with(name, "---"@) {
        assert(name.subrange(0, 3) =~= n.subrange(0, 3));
        assert(name.subrange(0, 3)[0] == '-');
    }
    if text::starts_with(name, "+++"@) {
        assert(name.subrange(0, 3) =~= n.subrange(0, 3));
        assert(name.subrange(0, 3)[0] == '+');
    }
    if text::starts_with(n, "-"@) {
        assert(n.subrange(0, 1)[0] == '-');
    }
    if text::starts_with(n, " "@) {
        assert(n.subrange(0, 1)[0] == ' ');
    }
    if text::starts_with(n, "+"@) {
        assert(n.subrange(0, 1)[0] == '+');
    }
    let told = bare_lines(name + diff);
    assert(told.first() == n);
    assert(told.drop_first() =~= bare_lines(diff));
}

/// A hunk whose lines stand nowhere in a text, and that adds none, changes nothing.
pub proof fn law_what_is_not_found_changes_nothing(
    lines: Seq<Seq<char>>,
    changes: Seq<(DiffTag, Seq<char>)>,
    header: Seq<char>,
)
    requires
        text::starts_with(header, "@@"@),
        is_lf_line(header),
        can_tell(changes),
        forall|i: int| 0 <= i < lines.len() ==> is_lf_line(#[trigger] lines[i]),
        forall|i: int| 0 <= i < changes.len() ==> (#[trigger] changes[i]).0 != DiffTag::Insert,
        forall|i: int, j: int|
            0 <= i < changes.len() && 0 <= j < lines.len() ==> (#[trigger] changes[i]).1
                != #[trigger] lines[j],
    ensures
        patched(text::concat(lines), header + diff_text(changes)) == text::concat(lines),
{
    let original = text::concat(lines);
    let diff = header + diff_text(changes);
    let empty = Seq::<char>::empty();
    reveal_strlit("@@");
    assert(header.subrange(0, 2)[0] == '@');
    assert(diff[0] == '@');
    assert(retold(original, diff) is None);
    lemma_whole_lines_begin(lines, empty);
    assert(original + empty =~= original);
    assert(lines + whole_lines(empty) =~= lines);
    lemma_header_begins(empty, lines, header, diff_text(changes), false);
    lemma_not_found(lines, changes);
    assert(empty + original =~= original);
}

/// Lines that stand nowhere are passed over.
proof fn lemma_not_found(lines: Seq<Seq<char>>, changes: Seq<(DiffTag, Seq<char>)>)
    requires
        can_tell(changes),
        forall|i: int| 0 <= i < lines.len() ==> is_lf_line(#[trigger] lines[i]),
        forall|i: int| 0 <= i < changes.len() ==> (#[trigger] changes[i]).0 != DiffTag::Insert,
        forall|i: int, j: int|
            0 <= i < changes.len() && 0 <= j < lines.len() ==> (#[trigger] changes[i]).1
                != #[trigger] lines[j],
    ensures
        located(seq![], lines, bare_lines(diff_text(changes)), false, seq![]) == Seq::<
            char,
        >::empty() + text::concat(lines),
    decreases changes.len(),
{
    let empty = Seq::<char>::empty();
    if changes.len() == 0 {
        assert(bare_lines(diff_text(changes)) =~= seq![]);
    } else {
        let (tag, line) = changes[0];
        let more = changes.drop_first();
        lemma_told_first(changes);
        assert(is_lf_line(changes[0].1));
        lemma_told_line(tag, line);
        let every = bare_lines(diff_text(changes));
        assert(every.first() == tag_text(tag) + line.drop_last());
        assert(every.drop_first() =~= bare_lines(diff_text(more)));
        assert forall|j: int| 0 <= j < lines.len() implies is_lf_line(#[trigger] lines[j])
            && lines[j] != line by {
            assert(changes[0].1 != lines[j]);
        }
        lemma_place_nowhere(lines, line);
        assert forall|i: int| 0 <= i < more.len() implies (#[trigger] more[i]).0
            != DiffTag::Insert by {
            assert(more[i] == changes[i + 1]);
        }
        assert forall|i: int, j: int|
            0 <= i < more.len() && 0 <= j < lines.len() implies (#[trigger] more[i]).1
            != #[trigger] lines[j] by {
            assert(more[i] == changes[i + 1]);
            assert(changes[i + 1].1 != lines[j]);
        }
        lemma_not_found(lines, more);
    }
}

/// A line that stands nowhere has no place.
proof fn lemma_place_nowhere(lines: Seq<Seq<char>>, line: Seq<char>)
    requires
        is_lf_line(line),
        forall|i: int| 0 <= i < lines.len() ==> is_lf_line(#[trigger] lines[i]) && lines[i] != line,
    ensures
        place(lines, line.drop_last()) == lines.len(),
    decreases lines.len(),
{
    if lines.len() > 0 {
        let b = lines[0];
        lemma_bare_lf(b);
        assert(bare(b) != line.drop_last()) by {
            if b.drop_last() == line.drop_last() {
                assert(b =~= b.drop_last().push('\n'));
                assert(line =~= line.drop_last().push('\n'));
            }
        }
        let rest = lines.drop_first();
        assert forall|i: int| 0 <= i < rest.len() implies is_lf_line(#[trigger] rest[i]) && rest[i]
            != line by {
            assert(rest[i] == lines[i + 1]);
        }
        lemma_place_nowhere(rest, line);
    }
}

/// Lines that are put behind a text stand on lines of their own: the text comes first,
/// whole, then they do, and if the text does not end its last line, its end between them.
pub proof fn law_added_lines_stand_on_their_own(out: Seq<char>, more: Seq<char>)
    ensures
        adding(out, seq![]) == out,
        adding(seq![], more) == more,
        adding(out.push('\n'), more) == out.push('\n') + more,
        more.len() > 0 && out.len() > 0 && out.last() != '\n' && out.last() != '\r' ==> adding(
            out,
            more,
        ) == out + seq!['\n'] + more,
{
    assert(Seq::<char>::empty() + more =~= more);
    assert(out.push('\n') + Seq::<char>::empty() =~= out.push('\n'));
    assert(out.push('\n') + more =~= out + seq!['\n'] + more);
}

/// A diff that tells of a line that does not stand where it is told, or of one more line
/// than there is, tells no text; one that leaves a part of the text untold does not
/// either.
pub proof fn law_diff_tells_only_what_is_there(rest: Seq<char>, line: Seq<char>, more: Seq<char>)
    requires
        is_lf_line(line),
    ensures
        retold(seq![], seq![' '] + line + more) is None,
        retold(seq![], seq!['-'] + line + more) is None,
        rest.len() >= line.len() && rest.take(line.len() as int) != line && !rest.is_prefix_of(
            line + more,
        ) ==> retold(rest, seq![' '] + line + more) is None && retold(
            rest,
            seq!['-'] + line + more,
        ) is None,
        rest.len() > 0 ==> retold(rest, seq![]) is None,
        retold(seq![], seq![]) == Some(Seq::<char>::empty()),
{
    let told = line + more;
    let n = line.len() as int;
    assert forall|j: int| 0 <= j < n - 1 implies !#[trigger] ends_line(told, j) by {
        assert(told[j] == line[j]);
    }
    assert(told[n - 1] == '\n');
    lemma_line_len_is(told, n);
    assert(told.take(n) =~= line);
    let stays = seq![' '] + line + more;
    let goes = seq!['-'] + line + more;
    assert(stays.skip(1) =~= told && goes.skip(1) =~= told);
    assert(stays[0] == ' ' && goes[0] == '-');
    assert(!line.is_prefix_of(Seq::<char>::empty()));
    if rest.len() >= n && line.is_prefix_of(rest) {
        assert(rest.take(n) =~= rest.subrange(0, n));
    }
}

} // verus!
