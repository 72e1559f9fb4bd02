//! Text as a sequence of characters: searching, splitting, trimming and
//! replacing, with the conventions of the standard string methods.

use vstd::prelude::*;

verus! {

/// `String::push` appends one character.
pub assume_specification[ String::push ](s: &mut String, c: char)
    ensures
        final(s)@ == old(s)@.push(c),
;

/// The characters with the Unicode property White_Space.
pub open spec fn is_white(c: char) -> bool {
    let n = c as u32;
    ||| 0x9 <= n <= 0xD
    ||| n == 0x20
    ||| n == 0x85
    ||| n == 0xA0
    ||| n == 0x1680
    ||| 0x2000 <= n <= 0x200A
    ||| n == 0x2028
    ||| n == 0x2029
    ||| n == 0x202F
    ||| n == 0x205F
    ||| n == 0x3000
}

/// `s` without its leading white space.
pub open spec fn trim_start(s: Seq<char>) -> Seq<char>
    decreases s.len(),
{
    if s.len() > 0 && is_white(s.first()) {
        trim_start(s.drop_first())
    } else {
        s
    }
}

/// `s` without its trailing white space.
pub open spec fn trim_end(s: Seq<char>) -> Seq<char>
    decreases s.len(),
{
    if s.len() > 0 && is_white(s.last()) {
        trim_end(s.drop_last())
    } else {
        s
    }
}

/// `s` without white space at either end.
pub open spec fn trim(s: Seq<char>) -> Seq<char> {
    trim_end(trim_start(s))
}

/// Whether `pat` stands in `s` at position `i`.
pub open spec fn occurs_at(s: Seq<char>, pat: Seq<char>, i: int) -> bool {
    0 <= i && i + pat.len() <= s.len() && s.subrange(i, i + pat.len()) == pat
}

/// Whether `pat` stands anywhere in `s`.
pub open spec fn contains(s: Seq<char>, pat: Seq<char>) -> bool {
    exists|i: int| occurs_at(s, pat, i)
}

/// Whether `s` begins with `pat`.
pub open spec fn starts_with(s: Seq<char>, pat: Seq<char>) -> bool {
    occurs_at(s, pat, 0)
}

/// Whether `s` ends with `pat`.
pub open spec fn ends_with(s: Seq<char>, pat: Seq<char>) -> bool {
    occurs_at(s, pat, s.len() - pat.len())
}

/// The characters of `s`, one by one.
pub fn chars_of(s: &str) -> (r: Vec<char>)
    ensures
        r@ == s@,
{
    let mut v: Vec<char> = Vec::new();
    for c in it: s.chars()
        invariant
            v@ == s@.take(it.index() as int),
            it.seq() == s@,
    {
        v.push(c);
    }
    v
}

/// A string made of the characters of `v` from `from` up to `to`.
pub fn string_of(v: &Vec<char>, from: usize, to: usize) -> (r: String)
    requires
        from <= to <= v@.len(),
    ensures
        r@ == v@.subrange(from as int, to as int),
{
    let mut r: String = String::new();
    let mut i: usize = from;
    while i < to
        invariant
            from <= i <= to <= v@.len(),
            r@ == v@.subrange(from as int, i as int),
        decreases to - i,
    {
        r.push(v[i]);
        assert(v@.subrange(from as int, i as int).push(v@[i as int]) =~= v@.subrange(
            from as int,
            i + 1,
        ));
        i += 1;
    }
    r
}

/// The position of the first `c` in `s`, or the length of `s` if there is none.
pub open spec fn find_char(s: Seq<char>, c: char) -> int
    decreases s.len(),
{
    if s.len() == 0 || s.first() == c {
        0
    } else {
        1 + find_char(s.drop_first(), c)
    }
}

/// The position of the last `c` in `s`, or -1 if there is none.
pub open spec fn find_last_char(s: Seq<char>, c: char) -> int
    decreases s.len(),
{
    if s.len() == 0 {
        -1
    } else if s.last() == c {
        s.len() - 1
    } else {
        find_last_char(s.drop_last(), c)
    }
}

/// The position of the first occurrence of `pat` in `s`.
pub open spec fn find(s: Seq<char>, pat: Seq<char>) -> Option<int>
    decreases s.len(),
{
    if starts_with(s, pat) {
        Some(0)
    } else if s.len() == 0 {
        None
    } else {
        match find(s.drop_first(), pat) {
            Some(k) => Some(k + 1),
            None => None,
        }
    }
}

/// `s` without a final carriage return.
pub open spec fn strip_cr(s: Seq<char>) -> Seq<char> {
    if s.len() > 0 && s.last() == '\r' {
        s.drop_last()
    } else {
        s
    }
}

/// The lines of `s`. A line ends at a line feed, and a carriage return just
/// before that line feed belongs to the ending. The last line may lack one.
pub open spec fn lines(s: Seq<char>) -> Seq<Seq<char>>
    decreases s.len(),
{
    let k = find_char(s, '\n');
    if s.len() == 0 {
        seq![]
    } else if !(0 <= k < s.len()) {
        seq![s]
    } else {
        seq![strip_cr(s.take(k))] + lines(s.skip(k + 1))
    }
}

/// The pieces of `s` between the occurrences of the character `c`.
pub open spec fn split_char(s: Seq<char>, c: char) -> Seq<Seq<char>>
    decreases s.len(),
{
    let k = find_char(s, c);
    if !(0 <= k < s.len()) {
        seq![s]
    } else {
        seq![s.take(k)] + split_char(s.skip(k + 1), c)
    }
}

/// The pieces of `s` between the non-overlapping occurrences of `pat`, taken
/// from the left.
pub open spec fn split(s: Seq<char>, pat: Seq<char>) -> Seq<Seq<char>>
    decreases s.len(),
{
    match find(s, pat) {
        Some(k) => if pat.len() == 0 || !(0 <= k <= s.len() - pat.len()) {
            seq![s]
        } else {
            seq![s.take(k)] + split(s.skip(k + pat.len()), pat)
        },
        None => seq![s],
    }
}

/// `s` with each occurrence of `from`, taken from the left without overlap,
/// replaced by `to`. An empty `from` replaces nothing.
pub open spec fn replace(s: Seq<char>, from: Seq<char>, to: Seq<char>) -> Seq<char>
    decreases s.len(),
{
    if s.len() == 0 || from.len() == 0 {
        s
    } else if starts_with(s, from) {
        to + replace(s.skip(from.len() as int), from, to)
    } else {
        seq![s.first()] + replace(s.drop_first(), from, to)
    }
}

/// The texts that a sequence of strings holds.
pub open spec fn views(v: Seq<String>) -> Seq<Seq<char>> {
    v.map_values(|s: String| s@)
}

/// The texts one after another.
pub open spec fn concat(parts: Seq<Seq<char>>) -> Seq<char>
    decreases parts.len(),
{
    if parts.len() == 0 {
        seq![]
    } else {
        concat(parts.drop_last()) + parts.last()
    }
}

/// The decimal digit for `d`.
pub open spec fn digit(d: int) -> char {
    ((48 + d) as u8) as char
}

/// `n` in decimal notation, without leading zeros.
pub open spec fn decimal(n: nat) -> Seq<char>
    decreases n,
{
    if n < 10 {
        seq![digit(n as int)]
    } else {
        decimal(n / 10).push(digit((n % 10) as int))
    }
}

/// The number of bytes that `c` takes in UTF-8.
pub open spec fn utf8_width(c: char) -> nat {
    let n = c as u32;
    if n < 0x80 {
        1
    } else if n < 0x800 {
        2
    } else if n < 0x10000 {
        3
    } else {
        4
    }
}

/// The number of bytes that `s` takes in UTF-8.
pub open spec fn byte_len(s: Seq<char>) -> nat
    decreases s.len(),
{
    if s.len() == 0 {
        0
    } else {
        byte_len(s.drop_last()) + utf8_width(s.last())
    }
}

/// The one ASCII character that the lower-case form of `c` is made of, if
/// there is one; else `c`. Besides the capital letters only the Kelvin sign
/// has such a form.
pub open spec fn ascii_lower(c: char) -> char {
    if 'A' <= c <= 'Z' {
        ((c as u8) + 32) as u8 as char
    } else if c == '\u{212A}' {
        'k'
    } else {
        c
    }
}

/// `s` with `ascii_lower` applied to each character.
pub open spec fn ascii_lowered(s: Seq<char>) -> Seq<char> {
    s.map_values(|c: char| ascii_lower(c))
}

// Facts about these definitions.

/// What `find_char` finds is the first place where `c` stands.
pub proof fn lemma_find_char(s: Seq<char>, c: char)
    ensures
        0 <= find_char(s, c) <= s.len(),
        forall|j: int| 0 <= j < find_char(s, c) ==> s[j] != c,
        find_char(s, c) < s.len() ==> s[find_char(s, c)] == c,
        s.contains(c) <==> find_char(s, c) < s.len(),
    decreases s.len(),
{
    if s.len() > 0 && s.first() != c {
        let t = s.drop_first();
        lemma_find_char(t, c);
        assert forall|j: int| 0 <= j < find_char(s, c) implies s[j] != c by {
            if j > 0 {
                assert(s[j] == t[j - 1]);
            }
        }
        if find_char(t, c) < t.len() {
            assert(s[find_char(s, c)] == t[find_char(t, c)]);
        }
    }
}

/// The first place where `c` stands is what `find_char` finds.
pub proof fn lemma_find_char_is(s: Seq<char>, c: char, k: int)
    requires
        0 <= k <= s.len(),
        forall|j: int| 0 <= j < k ==> s[j] != c,
        k < s.len() ==> s[k] == c,
    ensures
        find_char(s, c) == k,
{
    lemma_find_char(s, c);
}

/// What `find_last_char` finds is the last place where `c` stands.
pub proof fn lemma_find_last_char(s: Seq<char>, c: char)
    ensures
        -1 <= find_last_char(s, c) < s.len(),
        forall|j: int| find_last_char(s, c) < j < s.len() ==> s[j] != c,
        find_last_char(s, c) >= 0 ==> s[find_last_char(s, c)] == c,
        s.contains(c) <==> find_last_char(s, c) >= 0,
    decreases s.len(),
{
    if s.len() > 0 && s.last() != c {
        let t = s.drop_last();
        lemma_find_last_char(t, c);
        assert forall|j: int| find_last_char(s, c) < j < s.len() implies s[j] != c by {
            if j < t.len() {
                assert(s[j] == t[j]);
            }
        }
        if find_last_char(t, c) >= 0 {
            assert(s[find_last_char(t, c)] == c);
        }
    }
}

/// `find` finds the first occurrence, and finds one if there is any.
pub proof fn lemma_find(s: Seq<char>, pat: Seq<char>)
    ensures
        match find(s, pat) {
            Some(k) => occurs_at(s, pat, k) && forall|j: int|
                0 <= j < k ==> !#[trigger] occurs_at(s, pat, j),
            None => forall|j: int| !#[trigger] occurs_at(s, pat, j),
        },
        contains(s, pat) <==> find(s, pat) is Some,
    decreases s.len(),
{
    if !starts_with(s, pat) && s.len() > 0 {
        let t = s.drop_first();
        lemma_find(t, pat);
        assert forall|j: int| 0 < j implies occurs_at(s, pat, j) == #[trigger] occurs_at(
            t,
            pat,
            j - 1,
        ) by {
            if j + pat.len() <= s.len() {
                assert(s.subrange(j, j + pat.len()) =~= t.subrange(j - 1, j - 1 + pat.len()));
            }
        }
        assert forall|j: int| 0 < j implies #[trigger] occurs_at(s, pat, j) == occurs_at(
            t,
            pat,
            j - 1,
        ) by {
            assert(occurs_at(s, pat, j) == occurs_at(t, pat, j - 1));
        }
    } else if s.len() == 0 {
        assert forall|j: int| #[trigger] occurs_at(s, pat, j) implies starts_with(s, pat) by {
        }
    }
    if let Some(k) = find(s, pat) {
        assert(occurs_at(s, pat, k));
    } else if contains(s, pat) {
        let j = choose|j: int| occurs_at(s, pat, j);
        assert(occurs_at(s, pat, j));
        assert(!starts_with(s, pat) && s.len() > 0 && j > 0);
        assert(occurs_at(s.drop_first(), pat, j - 1));
    }
}

// The executable forms.

/// Whether `c` is white space.
pub fn char_is_white(c: char) -> (r: bool)
    ensures
        r == is_white(c),
{
    let n: u32 = c as u32;
    (0x9 <= n && n <= 0xD) || n == 0x20 || n == 0x85 || n == 0xA0 || n == 0x1680 || (0x2000 <= n
        && n <= 0x200A) || n == 0x2028 || n == 0x2029 || n == 0x202F || n == 0x205F || n == 0x3000
}

/// Whether `pat` stands in `v` at position `i`.
pub fn matches_at(v: &Vec<char>, i: usize, pat: &Vec<char>) -> (r: bool)
    requires
        i <= v@.len(),
    ensures
        r == occurs_at(v@, pat@, i as int),
{
    let n: usize = v.len();
    if n - i < pat.len() {
        return false;
    }
    let mut k: usize = 0;
    while k < pat.len()
        invariant
            k <= pat@.len(),
            n == v@.len(),
            i + pat@.len() <= v@.len(),
            forall|j: int| 0 <= j < k ==> v@[i + j] == pat@[j],
        decreases pat@.len() - k,
    {
        if v[i + k] != pat[k] {
            assert(v@.subrange(i as int, i + pat@.len())[k as int] != pat@[k as int]);
            return false;
        }
        k += 1;
    }
    assert(v@.subrange(i as int, i + pat@.len()) =~= pat@);
    true
}

/// Where `pat` first occurs in `v` at or after `start`.
pub fn find_from(v: &Vec<char>, start: usize, pat: &Vec<char>) -> (r: Option<usize>)
    requires
        start <= v@.len(),
        pat@.len() > 0,
    ensures
        match (r, find(v@.skip(start as int), pat@)) {
            (Some(k), Some(j)) => k == start + j && start <= k <= v@.len() - pat@.len(),
            (None, None) => true,
            _ => false,
        },
{
    let mut i: usize = start;
    assert(v@.skip(start as int) =~= v@.skip(i as int));
    while i < v.len()
        invariant
            start <= i <= v@.len(),
            pat@.len() > 0,
            match (find(v@.skip(start as int), pat@), find(v@.skip(i as int), pat@)) {
                (Some(a), Some(b)) => a == b + (i - start),
                (None, None) => true,
                _ => false,
            },
        decreases v@.len() - i,
    {
        let ghost rest = v@.skip(i as int);
        if matches_at(v, i, pat) {
            assert(rest.subrange(0, pat@.len() as int) =~= v@.subrange(i as int, i + pat@.len()));
            return Some(i);
        }
        assert(!starts_with(rest, pat@)) by {
            if starts_with(rest, pat@) {
                assert(rest.subrange(0, pat@.len() as int) =~= v@.subrange(
                    i as int,
                    i + pat@.len(),
                ));
            }
        }
        assert(rest.drop_first() =~= v@.skip(i + 1));
        i += 1;
    }
    assert(v@.skip(i as int).len() == 0);
    None
}

/// Whether `pat` stands anywhere in `s`.
pub fn str_contains(s: &str, pat: &str) -> (r: bool)
    ensures
        r == contains(s@, pat@),
{
    let v = chars_of(s);
    let p = chars_of(pat);
    proof {
        lemma_find(s@, pat@);
        assert(v@.skip(0) =~= v@);
    }
    if p.len() == 0 {
        assert(s@.subrange(0, 0) =~= pat@);
        assert(occurs_at(s@, pat@, 0));
        return true;
    }
    find_from(&v, 0, &p).is_some()
}

/// Whether `s` begins with `pat`.
pub fn str_starts_with(s: &str, pat: &str) -> (r: bool)
    ensures
        r == starts_with(s@, pat@),
{
    matches_at(&chars_of(s), 0, &chars_of(pat))
}

/// Whether `s` ends with `pat`.
pub fn str_ends_with(s: &str, pat: &str) -> (r: bool)
    ensures
        r == ends_with(s@, pat@),
{
    let v = chars_of(s);
    let p = chars_of(pat);
    if v.len() < p.len() {
        return false;
    }
    matches_at(&v, v.len() - p.len(), &p)
}

/// Whether the two strings hold the same text.
pub fn same_text(a: &str, b: &str) -> (r: bool)
    ensures
        r == (a@ == b@),
{
    let v = chars_of(a);
    let w = chars_of(b);
    if v.len() != w.len() {
        return false;
    }
    let r = matches_at(&v, 0, &w);
    assert(a@.subrange(0, a@.len() as int) =~= a@);
    r
}

/// Where `c` first stands in `v` at or after `start`; the length of `v` if
/// it does not.
pub fn find_char_from(v: &Vec<char>, start: usize, c: char) -> (r: usize)
    requires
        start <= v@.len(),
    ensures
        start <= r <= v@.len(),
        r == start + find_char(v@.skip(start as int), c),
        forall|j: int| start <= j < r ==> v@[j] != c,
        r < v@.len() ==> v@[r as int] == c,
{
    let mut i: usize = start;
    while i < v.len() && v[i] != c
        invariant
            start <= i <= v@.len(),
            forall|j: int| start <= j < i ==> v@[j] != c,
        decreases v@.len() - i,
    {
        i += 1;
    }
    proof {
        lemma_find_char_is(v@.skip(start as int), c, i - start);
    }
    i
}

/// Where `c` last stands in `v`.
pub fn rfind_char(v: &Vec<char>, c: char) -> (r: Option<usize>)
    ensures
        match r {
            Some(k) => k == find_last_char(v@, c) && k < v@.len(),
            None => find_last_char(v@, c) == -1,
        },
{
    let mut i: usize = v.len();
    while i > 0
        invariant
            i <= v@.len(),
            forall|j: int| i <= j < v@.len() ==> v@[j] != c,
        decreases i,
    {
        i -= 1;
        if v[i] == c {
            proof {
                lemma_find_last_char(v@, c);
            }
            return Some(i);
        }
    }
    proof {
        lemma_find_last_char(v@, c);
    }
    None
}

/// `s` without white space at either end.
pub fn str_trim(s: &str) -> (r: String)
    ensures
        r@ == trim(s@),
{
    let v = chars_of(s);
    let mut i: usize = 0;
    assert(v@.skip(0) =~= v@);
    while i < v.len() && char_is_white(v[i])
        invariant
            i <= v@.len(),
            trim_start(v@) == trim_start(v@.skip(i as int)),
        decreases v@.len() - i,
    {
        assert(v@.skip(i as int).drop_first() =~= v@.skip(i + 1));
        i += 1;
    }
    let ghost t = v@.skip(i as int);
    assert(trim_start(v@) == t);
    let mut j: usize = v.len();
    assert(v@.subrange(i as int, j as int) =~= t);
    while j > i && char_is_white(v[j - 1])
        invariant
            i <= j <= v@.len(),
            trim_end(t) == trim_end(v@.subrange(i as int, j as int)),
        decreases j,
    {
        assert(v@.subrange(i as int, j as int).drop_last() =~= v@.subrange(i as int, j - 1));
        j -= 1;
    }
    string_of(&v, i, j)
}

/// The lines of `s`.
pub fn str_lines(s: &str) -> (r: Vec<String>)
    ensures
        views(r@) == lines(s@),
{
    let v = chars_of(s);
    let mut out: Vec<String> = Vec::new();
    let mut i: usize = 0;
    assert(v@.skip(0) =~= v@);
    assert(views(out@) + lines(v@) =~= lines(v@));
    while i < v.len()
        invariant
            i <= v@.len(),
            views(out@) + lines(v@.skip(i as int)) == lines(v@),
        decreases v@.len() - i,
    {
        let ghost rest = v@.skip(i as int);
        let ghost done = views(out@);
        let k = find_char_from(&v, i, '\n');
        if k == v.len() {
            out.push(string_of(&v, i, k));
            proof {
                assert(v@.subrange(i as int, k as int) =~= rest);
                assert(views(out@) =~= done.push(rest));
                assert(lines(rest) =~= seq![rest]);
                assert(v@.skip(k as int) =~= seq![]);
                assert(views(out@) + lines(v@.skip(k as int)) =~= done + lines(rest));
            }
            i = k;
        } else {
            let e: usize = if k > i && v[k - 1] == '\r' {
                k - 1
            } else {
                k
            };
            out.push(string_of(&v, i, e));
            proof {
                let head = rest.take(k - i);
                assert(v@.subrange(i as int, e as int) =~= strip_cr(head));
                assert(views(out@) =~= done.push(strip_cr(head)));
                assert(rest.skip(k - i + 1) =~= v@.skip(k + 1));
                assert(views(out@) + lines(v@.skip(k + 1)) =~= done + lines(rest));
            }
            i = k + 1;
        }
    }
    assert(v@.skip(i as int) =~= seq![]);
    assert(views(out@) + lines(v@.skip(i as int)) =~= views(out@));
    out
}

/// The pieces of `s` between the occurrences of `c`.
pub fn str_split_char(s: &str, c: char) -> (r: Vec<String>)
    ensures
        views(r@) == split_char(s@, c),
{
    let v = chars_of(s);
    let mut out: Vec<String> = Vec::new();
    let mut i: usize = 0;
    assert(v@.skip(0) =~= v@);
    assert(views(out@) + split_char(v@, c) =~= split_char(v@, c));
    loop
        invariant
            i <= v@.len(),
            v@ == s@,
            views(out@) + split_char(v@.skip(i as int), c) == split_char(v@, c),
        decreases v@.len() - i,
    {
        let ghost rest = v@.skip(i as int);
        let ghost done = views(out@);
        let k = find_char_from(&v, i, c);
        out.push(string_of(&v, i, k));
        if k == v.len() {
            proof {
                assert(v@.subrange(i as int, k as int) =~= rest);
                assert(views(out@) =~= done.push(rest));
                assert(views(out@) =~= done + split_char(rest, c));
            }
            return out;
        }
        proof {
            assert(v@.subrange(i as int, k as int) =~= rest.take(k - i));
            assert(views(out@) =~= done.push(rest.take(k - i)));
            assert(rest.skip(k - i + 1) =~= v@.skip(k + 1));
            assert(views(out@) + split_char(v@.skip(k + 1), c) =~= done + split_char(rest, c));
        }
        i = k + 1;
    }
}

/// The pieces of `s` between the occurrences of `pat`.
pub fn str_split(s: &str, pat: &str) -> (r: Vec<String>)
    requires
        pat@.len() > 0,
    ensures
        views(r@) == split(s@, pat@),
{
    let v = chars_of(s);
    let p = chars_of(pat);
    let n: usize = v.len();
    let mut out: Vec<String> = Vec::new();
    let mut i: usize = 0;
    assert(v@.skip(0) =~= v@);
    assert(views(out@) + split(v@, p@) =~= split(v@, p@));
    loop
        invariant
            i <= v@.len(),
            n == v@.len(),
            v@ == s@,
            p@ == pat@,
            p@.len() > 0,
            views(out@) + split(v@.skip(i as int), p@) == split(v@, p@),
        decreases v@.len() - i,
    {
        let ghost rest = v@.skip(i as int);
        let ghost done = views(out@);
        match find_from(&v, i, &p) {
            None => {
                out.push(string_of(&v, i, n));
                proof {
                    assert(v@.subrange(i as int, v@.len() as int) =~= rest);
                    assert(views(out@) =~= done.push(rest));
                    assert(views(out@) =~= done + split(rest, p@));
                }
                return out;
            },
            Some(k) => {
                out.push(string_of(&v, i, k));
                proof {
                    assert(v@.subrange(i as int, k as int) =~= rest.take(k - i));
                    assert(views(out@) =~= done.push(rest.take(k - i)));
                    assert(rest.skip(k - i + p@.len()) =~= v@.skip(k + p@.len()));
                    assert(views(out@) + split(v@.skip(k + p@.len()), p@) =~= done + split(
                        rest,
                        p@,
                    ));
                }
                i = k + p.len();
            },
        }
    }
}

/// `s` with each occurrence of `from` replaced by `to`.
pub fn str_replace(s: &str, from: &str, to: &str) -> (r: String)
    ensures
        r@ == replace(s@, from@, to@),
{
    let v = chars_of(s);
    let p = chars_of(from);
    let mut out: String = String::new();
    if p.len() == 0 {
        return s.to_owned();
    }
    let mut i: usize = 0;
    assert(v@.skip(0) =~= v@);
    assert(out@ + replace(v@, p@, to@) =~= replace(v@, p@, to@));
    while i < v.len()
        invariant
            i <= v@.len(),
            p@.len() > 0,
            out@ + replace(v@.skip(i as int), p@, to@) == replace(v@, p@, to@),
        decreases v@.len() - i,
    {
        let ghost rest = v@.skip(i as int);
        let ghost done = out@;
        if matches_at(&v, i, &p) {
            out.append(to);
            proof {
                assert(rest.subrange(0, p@.len() as int) =~= v@.subrange(i as int, i + p@.len()));
                assert(starts_with(rest, p@));
                assert(rest.skip(p@.len() as int) =~= v@.skip(i + p@.len()));
                assert(out@ + replace(v@.skip(i + p@.len()), p@, to@) =~= done + replace(
                    rest,
                    p@,
                    to@,
                ));
            }
            i += p.len();
        } else {
            out.push(v[i]);
            proof {
                if starts_with(rest, p@) {
                    assert(rest.subrange(0, p@.len() as int) =~= v@.subrange(
                        i as int,
                        i + p@.len(),
                    ));
                }
                assert(rest.drop_first() =~= v@.skip(i + 1));
                assert(out@ + replace(v@.skip(i + 1), p@, to@) =~= done + replace(rest, p@, to@));
            }
            i += 1;
        }
    }
    assert(v@.skip(i as int) =~= seq![]);
    assert(out@ + replace(v@.skip(i as int), p@, to@) =~= out@);
    out
}

/// Appends `n` in decimal notation.
pub fn push_decimal(out: &mut String, n: u64)
    ensures
        final(out)@ == old(out)@ + decimal(n as nat),
    decreases n,
{
    if n >= 10 {
        push_decimal(out, n / 10);
    }
    let d: u8 = (n % 10) as u8;
    out.push((48 + d) as char);
    assert(out@ =~= old(out)@ + decimal(n as nat));
}

/// `n` in decimal notation.
pub fn decimal_of(n: u64) -> (r: String)
    ensures
        r@ == decimal(n as nat),
{
    let mut out: String = String::new();
    push_decimal(&mut out, n);
    assert(out@ =~= decimal(n as nat));
    out
}

/// The number of bytes that `c` takes in UTF-8.
pub fn char_width(c: char) -> (r: usize)
    ensures
        r == utf8_width(c),
{
    let n: u32 = c as u32;
    if n < 0x80 {
        1
    } else if n < 0x800 {
        2
    } else if n < 0x10000 {
        3
    } else {
        4
    }
}

/// The number of bytes that the characters of `v` take in UTF-8.
pub fn bytes_of_chars(v: &Vec<char>) -> (r: u128)
    ensures
        r == byte_len(v@),
{
    let mut n: u128 = 0;
    let mut i: usize = 0;
    while i < v.len()
        invariant
            i <= v@.len(),
            n == byte_len(v@.take(i as int)),
            n <= 4 * i,
        decreases v@.len() - i,
    {
        assert(v@.take(i + 1).drop_last() =~= v@.take(i as int));
        n += char_width(v[i]) as u128;
        i += 1;
    }
    assert(v@.take(i as int) =~= v@);
    n
}

/// Whether the lower-case form of `s` is `word`, a word of ASCII letters.
pub fn lowers_to(s: &str, word: &str) -> (r: bool)
    ensures
        r == (ascii_lowered(s@) == word@),
{
    let v = chars_of(s);
    let w = chars_of(word);
    if v.len() != w.len() {
        return false;
    }
    let mut i: usize = 0;
    while i < v.len()
        invariant
            i <= v@.len() == w@.len(),
            v@ == s@,
            w@ == word@,
            forall|j: int| 0 <= j < i ==> ascii_lower(v@[j]) == w@[j],
        decreases v@.len() - i,
    {
        let c: char = v[i];
        let l: char = if 'A' <= c && c <= 'Z' {
            (c as u8 + 32) as char
        } else if c == '\u{212A}' {
            'k'
        } else {
            c
        };
        if l != w[i] {
            assert(ascii_lowered(s@)[i as int] != word@[i as int]);
            return false;
        }
        i += 1;
    }
    assert(ascii_lowered(s@) =~= word@);
    true
}

/// Decimal notation has only digits.
pub proof fn lemma_decimal_digits(n: nat)
    ensures
        decimal(n).len() > 0,
        forall|i: int| 0 <= i < decimal(n).len() ==> '0' <= #[trigger] decimal(n)[i] <= '9',
    decreases n,
{
    let d: int = (n % 10) as int;
    assert(0 <= d < 10);
    assert(digit(d) as int == 48 + d);
    if n >= 10 {
        lemma_decimal_digits(n / 10);
        let s = decimal(n);
        assert forall|i: int| 0 <= i < s.len() implies '0' <= #[trigger] s[i] <= '9' by {
            if i < s.len() - 1 {
                assert(s[i] == decimal(n / 10)[i]);
            }
        }
    }
}

/// The number that a run of digits stands for.
pub open spec fn number_of(s: Seq<char>) -> int
    decreases s.len(),
{
    if s.len() == 0 {
        0
    } else {
        10 * number_of(s.drop_last()) + (s.last() as u32 - 48)
    }
}

/// Decimal notation is read back as the same number, and no digit in front of it
/// is zero but that of zero itself.
pub proof fn law_decimal_reads_back(n: nat)
    ensures
        number_of(decimal(n)) == n,
        n > 0 ==> decimal(n)[0] != '0',
        n == 0 ==> decimal(n).len() == 1,
    decreases n,
{
    lemma_decimal_digits(n);
    reveal_with_fuel(number_of, 2);
    let d: int = (n % 10) as int;
    assert(digit(d) as u32 == 48 + d);
    if n >= 10 {
        law_decimal_reads_back(n / 10);
        assert(decimal(n).drop_last() =~= decimal(n / 10));
        assert(decimal(n)[0] == decimal(n / 10)[0]);
    } else {
        assert(decimal(n).drop_last() =~= seq![]);
    }
}

// Laws of text.

/// Trimming takes off white space at both ends and nothing else: what is left
/// stands between two runs of white space, and neither begins nor ends with any.
pub proof fn law_trim_takes_the_white_ends(s: Seq<char>) -> (r: (int, int))
    ensures
        0 <= r.0 <= r.1 <= s.len(),
        trim(s) == s.subrange(r.0, r.1),
        forall|i: int| 0 <= i < r.0 ==> is_white(#[trigger] s[i]),
        forall|i: int| r.1 <= i < s.len() ==> is_white(#[trigger] s[i]),
        trim(s).len() > 0 ==> !is_white(trim(s)[0]) && !is_white(trim(s).last()),
        trim(trim(s)) == trim(s),
{
    let a = lemma_trim_start(s);
    let t = s.skip(a);
    let b = lemma_trim_end(t);
    assert(t.take(b) =~= s.subrange(a, a + b));
    assert forall|i: int| a + b <= i < s.len() implies is_white(#[trigger] s[i]) by {
        assert(t[i - a] == s[i]);
    }
    let u = trim(s);
    if u.len() > 0 {
        assert(u[0] == t[0]);
        let c = lemma_trim_start(u);
        let d = lemma_trim_end(u);
        assert(c == 0);
        assert(u.skip(0) =~= u);
        assert(d == u.len()) by {
            if d < u.len() {
                assert(is_white(u[u.len() - 1]));
            }
        }
        assert(u.take(d) =~= u);
    }
    (a, a + b)
}

/// How much white space a text begins with.
proof fn lemma_trim_start(s: Seq<char>) -> (a: int)
    ensures
        0 <= a <= s.len(),
        trim_start(s) == s.skip(a),
        forall|i: int| 0 <= i < a ==> is_white(#[trigger] s[i]),
        a < s.len() ==> !is_white(s[a]),
    decreases s.len(),
{
    if s.len() > 0 && is_white(s.first()) {
        let t = s.drop_first();
        let a = lemma_trim_start(t);
        assert(t.skip(a) =~= s.skip(a + 1));
        assert forall|i: int| 0 <= i < a + 1 implies is_white(#[trigger] s[i]) by {
            if i > 0 {
                assert(t[i - 1] == s[i]);
            }
        }
        assert(a < t.len() ==> t[a] == s[a + 1]);
        a + 1
    } else {
        assert(s.skip(0) =~= s);
        0
    }
}

/// How much of a text stands before the white space at its end.
proof fn lemma_trim_end(s: Seq<char>) -> (b: int)
    ensures
        0 <= b <= s.len(),
        trim_end(s) == s.take(b),
        forall|i: int| b <= i < s.len() ==> is_white(#[trigger] s[i]),
        b > 0 ==> !is_white(s[b - 1]),
    decreases s.len(),
{
    if s.len() > 0 && is_white(s.last()) {
        let t = s.drop_last();
        let b = lemma_trim_end(t);
        assert(t.take(b) =~= s.take(b));
        assert forall|i: int| b <= i < s.len() implies is_white(#[trigger] s[i]) by {
            if i < t.len() {
                assert(t[i] == s[i]);
            }
        }
        b
    } else {
        assert(s.take(s.len() as int) =~= s);
        s.len() as int
    }
}

/// Among the characters of ASCII, white space is the blank and the five from the
/// tab to the carriage return.
pub proof fn law_white_space_of_ascii(c: char)
    ensures
        (c as u32) < 128 ==> (is_white(c) <==> c == ' ' || c == '\t' || c == '\n' || c as u32 == 11
            || c as u32 == 12 || c == '\r'),
        is_white('\u{a0}') && is_white('\u{85}') && is_white('\u{1680}') && is_white('\u{2028}'),
        is_white('\u{2029}') && is_white('\u{202f}') && is_white('\u{205f}') && is_white('\u{3000}'),
        0x2000 <= c as u32 <= 0x200a ==> is_white(c),
{
}

/// A text is split into lines at its line feeds, and a carriage return just
/// before one goes with it. What follows the last line feed is a line too, as it
/// stands, unless it is empty.
pub proof fn law_lines_end_at_line_feeds(line: Seq<char>, more: Seq<char>)
    requires
        !line.contains('\n'),
    ensures
        lines(line.push('\n') + more) == seq![strip_cr(line)] + lines(more),
        line.len() > 0 ==> lines(line) == seq![line],
        lines(seq![]) == Seq::<Seq<char>>::empty(),
        strip_cr(line.push('\r')) == line,
        line.len() > 0 && line.last() != '\r' ==> strip_cr(line) == line,
{
    let s = line.push('\n') + more;
    let k = line.len() as int;
    assert forall|j: int| 0 <= j < k implies s[j] != '\n' by {
        assert(s[j] == line[j]);
        assert(line.contains(line[j]));
    }
    assert(s[k] == '\n');
    lemma_find_char_is(s, '\n', k);
    assert(s.take(k) =~= line);
    assert(s.skip(k + 1) =~= more);
    lemma_find_char(line, '\n');
    assert(line.push('\r').drop_last() =~= line);
}

/// A text is split at each separator, and where there is none it is one piece.
pub proof fn law_split_at_each_separator(a: Seq<char>, b: Seq<char>, c: char)
    requires
        !a.contains(c),
    ensures
        split_char(a, c) == seq![a],
        split_char(a.push(c) + b, c) == seq![a] + split_char(b, c),
{
    lemma_find_char(a, c);
    let s = a.push(c) + b;
    let k = a.len() as int;
    assert forall|j: int| 0 <= j < k implies s[j] != c by {
        assert(s[j] == a[j]);
        assert(a.contains(a[j]));
    }
    lemma_find_char_is(s, c, k);
    assert(s.take(k) =~= a);
    assert(s.skip(k + 1) =~= b);
}

/// A text is split at the first place where the separator stands, and what
/// follows is split in turn; where it stands nowhere the text is one piece.
pub proof fn law_split_at_each_text(a: Seq<char>, b: Seq<char>, pat: Seq<char>)
    requires
        pat.len() > 0,
        forall|j: int| 0 <= j < a.len() ==> !#[trigger] occurs_at(a + pat + b, pat, j),
    ensures
        split(a + pat + b, pat) == seq![a] + split(b, pat),
        !contains(b, pat) ==> split(b, pat) == seq![b],
{
    let s = a + pat + b;
    lemma_find(s, pat);
    assert(s.subrange(a.len() as int, (a.len() + pat.len()) as int) =~= pat);
    assert(occurs_at(s, pat, a.len() as int));
    assert(find(s, pat) == Some(a.len() as int));
    assert(s.take(a.len() as int) =~= a);
    assert(s.skip((a.len() + pat.len()) as int) =~= b);
    lemma_find(b, pat);
}

/// Replacing puts the new text where the old one first stands and goes on behind
/// it; where the old one stands nowhere nothing changes.
pub proof fn law_replace_at_each_place(a: Seq<char>, b: Seq<char>, from: Seq<char>, to: Seq<char>)
    requires
        from.len() > 0,
        forall|j: int| 0 <= j < a.len() ==> !#[trigger] occurs_at(a + (from + b), from, j),
    ensures
        replace(a + (from + b), from, to) == a + to + replace(b, from, to),
        !contains(b, from) ==> replace(b, from, to) == b,
{
    lemma_replace_steps(a, from + b, from, to);
    let t = from + b;
    assert(t.subrange(0, from.len() as int) =~= from);
    assert(t.skip(from.len() as int) =~= b);
    assert(a + (to + replace(b, from, to)) =~= a + to + replace(b, from, to));
    if !contains(b, from) {
        assert(b + Seq::<char>::empty() =~= b);
        assert forall|j: int| 0 <= j < b.len() implies !#[trigger] occurs_at(
            b + Seq::<char>::empty(),
            from,
            j,
        ) by {
            assert(!occurs_at(b, from, j));
        }
        lemma_replace_steps(b, Seq::empty(), from, to);
    }
}

/// Replacing steps over what begins no occurrence.
pub proof fn lemma_replace_steps(a: Seq<char>, b: Seq<char>, from: Seq<char>, to: Seq<char>)
    requires
        from.len() > 0,
        forall|j: int| 0 <= j < a.len() ==> !#[trigger] occurs_at(a + b, from, j),
    ensures
        replace(a + b, from, to) == a + replace(b, from, to),
    decreases a.len(),
{
    let s = a + b;
    if a.len() == 0 {
        assert(s =~= b);
        assert(a + replace(b, from, to) =~= replace(b, from, to));
    } else {
        let rest = a.drop_first();
        assert(!occurs_at(s, from, 0));
        assert(s.drop_first() =~= rest + b);
        assert forall|j: int| 0 <= j < rest.len() implies !#[trigger] occurs_at(rest + b, from, j) by {
            if occurs_at(rest + b, from, j) {
                assert(s.subrange(j + 1, j + 1 + from.len()) =~= (rest + b).subrange(
                    j,
                    j + from.len(),
                ));
                assert(occurs_at(s, from, j + 1));
            }
        }
        lemma_replace_steps(rest, b, from, to);
        assert(seq![s.first()] + (rest + replace(b, from, to)) =~= a + replace(b, from, to));
    }
}

/// A text begins with what it is made to begin with, ends with what it is made to
/// end with, and holds what is put into it; and it is made so.
pub proof fn law_texts_hold_their_parts(
    a: Seq<char>,
    p: Seq<char>,
    b: Seq<char>,
    s: Seq<char>,
) -> (i: int)
    ensures
        starts_with(p + b, p),
        ends_with(a + p, p),
        contains(a + p + b, p),
        starts_with(s, p) ==> s == p + s.skip(p.len() as int),
        ends_with(s, p) ==> s == s.take(s.len() - p.len()) + p,
        contains(s, p) ==> 0 <= i <= s.len() - p.len() && s == s.take(i) + p + s.skip(i + p.len()),
{
    assert((p + b).subrange(0, p.len() as int) =~= p);
    assert((a + p).subrange(a.len() as int, (a.len() + p.len()) as int) =~= p);
    assert((a + p + b).subrange(a.len() as int, (a.len() + p.len()) as int) =~= p);
    assert(occurs_at(a + p + b, p, a.len() as int));
    if starts_with(s, p) {
        assert(s =~= s.subrange(0, p.len() as int) + s.skip(p.len() as int));
    }
    if ends_with(s, p) {
        let k = s.len() - p.len();
        assert(s =~= s.take(k) + s.subrange(k, k + p.len()));
    }
    let i = choose|i: int| occurs_at(s, p, i);
    if contains(s, p) {
        assert(s =~= s.take(i) + s.subrange(i, i + p.len()) + s.skip(i + p.len()));
    }
    i
}

/// The bytes of two texts add up, and a character takes one to four by its
/// number.
pub proof fn law_bytes_add_up(a: Seq<char>, b: Seq<char>, c: char)
    ensures
        byte_len(a + b) == byte_len(a) + byte_len(b),
        byte_len(seq![]) == 0,
        (c as u32) < 0x80 ==> byte_len(seq![c]) == 1,
        0x80 <= c as u32 <= 0x7ff ==> byte_len(seq![c]) == 2,
        0x800 <= c as u32 <= 0xffff ==> byte_len(seq![c]) == 3,
        c as u32 >= 0x10000 ==> byte_len(seq![c]) == 4,
    decreases b.len(),
{
    reveal_with_fuel(byte_len, 2);
    assert(seq![c].drop_last() =~= seq![]);
    if b.len() == 0 {
        assert(a + b =~= a);
    } else {
        law_bytes_add_up(a, b.drop_last(), c);
        assert((a + b).drop_last() =~= a + b.drop_last());
    }
}

/// Texts one after another are those of the first list and then those of the
/// second.
pub proof fn law_texts_follow_each_other(a: Seq<Seq<char>>, b: Seq<Seq<char>>, s: Seq<char>)
    ensures
        concat(a + b) == concat(a) + concat(b),
        concat(seq![s]) == s,
        concat(seq![]).len() == 0,
    decreases b.len(),
{
    reveal_with_fuel(concat, 2);
    assert(seq![s].drop_last() =~= seq![]);
    assert(concat(seq![s]) =~= s);
    if b.len() == 0 {
        assert(a + b =~= a);
        assert(concat(a) + concat(b) =~= concat(a));
    } else {
        law_texts_follow_each_other(a, b.drop_last(), s);
        assert((a + b).drop_last() =~= a + b.drop_last());
        assert(concat(a + b) =~= concat(a) + concat(b));
    }
}

/// Lower case changes the capital letters of ASCII to the letters 32 places
/// further on, and the Kelvin sign to `k`; it keeps every other character, and
/// changes nothing when it is done again.
pub proof fn law_lower_case(s: Seq<char>, c: char)
    ensures
        'A' <= c <= 'Z' ==> ascii_lower(c) as u32 == c as u32 + 32,
        !('A' <= c <= 'Z') && c != '\u{212a}' ==> ascii_lower(c) == c,
        ascii_lowered(s).len() == s.len(),
        forall|i: int| 0 <= i < s.len() ==> #[trigger] ascii_lowered(s)[i] == ascii_lower(s[i]),
        ascii_lowered(ascii_lowered(s)) == ascii_lowered(s),
{
    assert(ascii_lowered(ascii_lowered(s)) =~= ascii_lowered(s)) by {
        assert forall|i: int| 0 <= i < s.len() implies ascii_lower(ascii_lower(s[i]))
            == ascii_lower(s[i]) by {
            let d = s[i];
            if 'A' <= d <= 'Z' {
                assert(ascii_lower(d) as u32 == d as u32 + 32);
            }
        }
    }
}

/// A text without white space at its ends is left as it is, also where a space is
/// put in front of it.
pub proof fn lemma_nothing_to_trim(s: Seq<char>)
    requires
        s.len() > 0,
        !is_white(s.first()),
        !is_white(s.last()),
    ensures
        trim(s) == s,
        trim(seq![' '] + s) == s,
{
    reveal_with_fuel(trim_start, 2);
    let t = seq![' '] + s;
    assert(t.first() == ' ');
    assert(t.drop_first() =~= s);
}

} // verus!
