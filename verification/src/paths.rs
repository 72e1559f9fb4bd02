//! Paths as text, with the rules that the standard library has for paths on
//! Unix: `/` separates, repeated separators and `.` count for nothing, except
//! for a `.` at the very beginning.

use vstd::prelude::*;
use crate::text;

verus! {

/// Whether a path starts at the root.
pub open spec fn is_absolute(p: Seq<char>) -> bool {
    p.len() > 0 && p.first() == '/'
}

/// Whether a piece between separators counts as a component.
pub open spec fn is_kept(piece: Seq<char>) -> bool {
    piece.len() > 0 && piece != seq!['.']
}

/// The pieces that count.
pub open spec fn kept(pieces: Seq<Seq<char>>) -> Seq<Seq<char>> {
    pieces.filter(|p: Seq<char>| is_kept(p))
}

/// What comes before the ordinary components: the root, or a leading `.`.
pub open spec fn head(p: Seq<char>) -> Seq<Seq<char>> {
    if is_absolute(p) {
        seq![seq!['/']]
    } else if text::split_char(p, '/').first() == seq!['.'] {
        seq![seq!['.']]
    } else {
        seq![]
    }
}

/// The components of a path. The root is the component `/`.
pub open spec fn components(p: Seq<char>) -> Seq<Seq<char>> {
    head(p) + kept(text::split_char(p, '/'))
}

/// Whether the components of `p` begin with those of `base`.
pub open spec fn starts_with(p: Seq<char>, base: Seq<char>) -> bool {
    components(base).is_prefix_of(components(p))
}

/// Whether a component leads to the directory above.
pub open spec fn is_up(part: Seq<char>) -> bool {
    part == seq!['.', '.']
}

/// Components with each `..` taking back the one before it. Above the root is
/// the root itself; where nothing is left to take back, the `..` stays.
pub open spec fn settled(parts: Seq<Seq<char>>) -> Seq<Seq<char>>
    decreases parts.len(),
{
    if parts.len() == 0 {
        seq![]
    } else {
        let before = settled(parts.drop_last());
        if !is_up(parts.last()) || before.len() == 0 || is_up(before.last()) || before.last()
            == seq!['.'] {
            before.push(parts.last())
        } else if before.last() == seq!['/'] {
            before
        } else {
            before.drop_last()
        }
    }
}

/// Whether `p` leads to `base` or below it once each `..` has taken back the
/// component before it.
pub open spec fn within(p: Seq<char>, base: Seq<char>) -> bool {
    let a = settled(components(p));
    let b = settled(components(base));
    b.is_prefix_of(a) && (a.len() > b.len() ==> !is_up(a[b.len() as int]))
}

/// `p` without trailing separators and trailing pieces `.`.
pub open spec fn trim_tail(p: Seq<char>) -> Seq<char>
    decreases p.len(),
{
    if p.len() > 1 && (p.last() == '/' || (p.last() == '.' && p[p.len() - 2] == '/')) {
        trim_tail(p.drop_last())
    } else {
        p
    }
}

/// The path without its last component; none for the root and the empty path.
pub open spec fn parent(p: Seq<char>) -> Option<Seq<char>> {
    let q = trim_tail(p);
    if q.len() == 0 || q == seq!['/'] {
        None
    } else {
        Some(trim_tail(q.take(text::find_last_char(q, '/') + 1)))
    }
}

/// The last component, unless that is the root, `.` or `..`.
pub open spec fn file_name(p: Seq<char>) -> Option<Seq<char>> {
    let q = trim_tail(p);
    let last = q.skip(text::find_last_char(q, '/') + 1);
    if last.len() == 0 || last == seq!['.'] || last == seq!['.', '.'] {
        None
    } else {
        Some(last)
    }
}

/// What follows the last dot of the file name; none where there is no dot, or
/// only one at the very beginning.
pub open spec fn extension(p: Seq<char>) -> Option<Seq<char>> {
    match file_name(p) {
        Some(name) => if text::find_last_char(name, '.') <= 0 {
            None
        } else {
            Some(name.skip(text::find_last_char(name, '.') + 1))
        },
        None => None,
    }
}

/// `p` taken from `base`: `p` itself where it is absolute.
pub open spec fn join(base: Seq<char>, p: Seq<char>) -> Seq<char> {
    if is_absolute(p) {
        p
    } else if base.len() == 0 || base.last() == '/' {
        base + p
    } else {
        base.push('/') + p
    }
}

/// Whether a path starts at the root.
pub fn path_is_absolute(p: &str) -> (r: bool)
    ensures
        r == is_absolute(p@),
{
    let v = text::chars_of(p);
    v.len() > 0 && v[0] == '/'
}

/// Where the part of `v` without trailing separators and `.` ends.
fn tail_end(v: &Vec<char>, end: usize) -> (r: usize)
    requires
        end <= v@.len(),
    ensures
        r <= end,
        v@.take(r as int) == trim_tail(v@.take(end as int)),
{
    let mut n: usize = end;
    while n > 1 && (v[n - 1] == '/' || (v[n - 1] == '.' && v[n - 2] == '/'))
        invariant
            n <= end <= v@.len(),
            trim_tail(v@.take(n as int)) == trim_tail(v@.take(end as int)),
        decreases n,
    {
        assert(v@.take(n as int).drop_last() =~= v@.take(n - 1));
        n -= 1;
    }
    n
}

/// Where the last component of the first `end` characters of `v` begins.
fn last_piece(v: &Vec<char>, end: usize) -> (r: usize)
    requires
        end <= v@.len(),
    ensures
        r <= end,
        r == text::find_last_char(v@.take(end as int), '/') + 1,
{
    let mut i: usize = end;
    while i > 0 && v[i - 1] != '/'
        invariant
            i <= end <= v@.len(),
            forall|j: int| i <= j < end ==> v@[j] != '/',
        decreases i,
    {
        i -= 1;
    }
    proof {
        let t = v@.take(end as int);
        text::lemma_find_last_char(t, '/');
        if i > 0 {
            assert(t[i - 1] == '/');
        }
    }
    i
}

/// The path without its last component.
pub fn parent_of(p: &str) -> (r: Option<String>)
    ensures
        match (r, parent(p@)) {
            (Some(t), Some(q)) => t@ == q,
            (None, None) => true,
            _ => false,
        },
{
    let v = text::chars_of(p);
    let end = tail_end(&v, v.len());
    proof {
        assert(v@.take(v@.len() as int) =~= v@);
    }
    let ghost q = v@.take(end as int);
    assert(q == trim_tail(p@));
    if end == 0 {
        return None;
    }
    if end == 1 && v[0] == '/' {
        assert(q =~= seq!['/']);
        return None;
    }
    assert(q != seq!['/']) by {
        if q == seq!['/'] {
            assert(q.len() == 1 && q[0] == '/');
        }
    }
    let k = last_piece(&v, end);
    let e = tail_end(&v, k);
    proof {
        assert(q.take(k as int) =~= v@.take(k as int));
        assert(v@.subrange(0, e as int) =~= v@.take(e as int));
    }
    Some(text::string_of(&v, 0, e))
}

/// The last component, unless that is the root, `.` or `..`.
pub fn file_name_of(p: &str) -> (r: Option<String>)
    ensures
        match (r, file_name(p@)) {
            (Some(t), Some(q)) => t@ == q,
            (None, None) => true,
            _ => false,
        },
{
    let v = text::chars_of(p);
    let end = tail_end(&v, v.len());
    proof {
        assert(v@.take(v@.len() as int) =~= v@);
    }
    let ghost q = v@.take(end as int);
    let k = last_piece(&v, end);
    let ghost last = q.skip(k as int);
    if k == end {
        assert(last.len() == 0);
        return None;
    }
    if end - k == 1 && v[k] == '.' {
        assert(last =~= seq!['.']);
        return None;
    }
    if end - k == 2 && v[k] == '.' && v[k + 1] == '.' {
        assert(last =~= seq!['.', '.']);
        return None;
    }
    proof {
        assert(v@.subrange(k as int, end as int) =~= last);
        assert(last[0] == v@[k as int]);
        if last == seq!['.'] {
            assert(last.len() == 1 && last[0] == '.');
        }
        if last == seq!['.', '.'] {
            assert(last.len() == 2 && last[0] == '.' && last[1] == '.');
        }
    }
    Some(text::string_of(&v, k, end))
}

/// What follows the last dot of the file name.
pub fn extension_of(p: &str) -> (r: Option<String>)
    ensures
        match (r, extension(p@)) {
            (Some(t), Some(q)) => t@ == q,
            (None, None) => true,
            _ => false,
        },
{
    match file_name_of(p) {
        None => None,
        Some(name) => {
            let v = text::chars_of(name.as_str());
            match text::rfind_char(&v, '.') {
                None => None,
                Some(k) => if k == 0 {
                    None
                } else {
                    assert(v@.subrange(k + 1, v@.len() as int) =~= v@.skip(k + 1));
                    Some(text::string_of(&v, k + 1, v.len()))
                },
            }
        },
    }
}

/// `p` taken from `base`.
pub fn join_paths(base: &str, p: &str) -> (r: String)
    ensures
        r@ == join(base@, p@),
{
    if path_is_absolute(p) {
        return p.to_owned();
    }
    let v = text::chars_of(base);
    let mut out = base.to_owned();
    if v.len() > 0 && v[v.len() - 1] != '/' {
        out.push('/');
    }
    out.append(p);
    out
}

/// The components of a path.
pub fn components_of(p: &str) -> (r: Vec<String>)
    ensures
        text::views(r@) == components(p@),
{
    let pieces = text::str_split_char(p, '/');
    let ghost all = text::views(pieces@);
    proof {
        lemma_split_char_nonempty(p@, '/');
        assert(pieces@.len() == all.len());
        assert(pieces@[0]@ == all[0]);
    }
    let mut out: Vec<String> = Vec::new();
    if path_is_absolute(p) {
        out.push(root());
        assert(text::views(out@) =~= seq![seq!['/']]);
    } else if is_dot(pieces[0].as_str()) {
        out.push(pieces[0].clone());
        assert(text::views(out@) =~= seq![seq!['.']]);
    } else {
        assert(text::views(out@) =~= seq![]);
    }
    let ghost start = text::views(out@);
    assert(start == head(p@));
    let mut i: usize = 0;
    assert(kept(all.take(0)) =~= seq![]) by {
        reveal(Seq::filter);
    }
    assert(text::views(out@) =~= start + kept(all.take(0)));
    while i < pieces.len()
        invariant
            i <= pieces@.len(),
            all == text::views(pieces@),
            text::views(out@) == start + kept(all.take(i as int)),
        decreases pieces@.len() - i,
    {
        let ghost before = text::views(out@);
        proof {
            reveal(Seq::filter);
            assert(all.take(i + 1).drop_last() =~= all.take(i as int));
            assert(all.take(i + 1).last() == pieces@[i as int]@);
        }
        if !pieces[i].as_str().is_empty() && !is_dot(pieces[i].as_str()) {
            out.push(pieces[i].clone());
            assert(text::views(out@) =~= before.push(pieces@[i as int]@));
            assert(text::views(out@) =~= start + kept(all.take(i + 1)));
        }
        i += 1;
    }
    assert(all.take(i as int) =~= all);
    out
}

/// The root.
fn root() -> (r: String)
    ensures
        r@ == seq!['/'],
{
    let mut r: String = String::new();
    r.push('/');
    assert(r@ =~= seq!['/']);
    r
}

/// Whether a piece is `.`.
fn is_dot(piece: &str) -> (r: bool)
    ensures
        r == (piece@ == seq!['.']),
{
    let v = text::chars_of(piece);
    if v.len() == 1 && v[0] == '.' {
        assert(v@ =~= seq!['.']);
        true
    } else {
        assert(v@ != seq!['.']) by {
            if v@ == seq!['.'] {
                assert(v@.len() == 1 && v@[0] == '.');
            }
        }
        false
    }
}

/// Whether a list of texts begins with another one.
fn begins_with(a: &Vec<String>, b: &Vec<String>) -> (r: bool)
    ensures
        r == text::views(b@).is_prefix_of(text::views(a@)),
{
    let ghost ca = text::views(a@);
    let ghost cb = text::views(b@);
    if b.len() > a.len() {
        return false;
    }
    let mut i: usize = 0;
    while i < b.len()
        invariant
            i <= b@.len() <= a@.len(),
            text::views(a@) == ca,
            text::views(b@) == cb,
            forall|j: int| 0 <= j < i ==> ca[j] == cb[j],
        decreases b@.len() - i,
    {
        proof {
            assert(ca[i as int] == a@[i as int]@);
            assert(cb[i as int] == b@[i as int]@);
        }
        if !text::same_text(a[i].as_str(), b[i].as_str()) {
            assert(ca.subrange(0, cb.len() as int)[i as int] != cb[i as int]);
            return false;
        }
        i += 1;
    }
    assert(cb =~= ca.subrange(0, cb.len() as int));
    true
}

/// Whether the components of `p` begin with those of `base`.
pub fn path_starts_with(p: &str, base: &str) -> (r: bool)
    ensures
        r == starts_with(p@, base@),
{
    begins_with(&components_of(p), &components_of(base))
}

/// Whether a text is `..`.
fn leads_up(part: &str) -> (r: bool)
    ensures
        r == is_up(part@),
{
    let v = text::chars_of(part);
    if v.len() == 2 && v[0] == '.' && v[1] == '.' {
        assert(v@ =~= seq!['.', '.']);
        true
    } else {
        proof {
            if v@ == seq!['.', '.'] {
                assert(v@.len() == 2 && v@[0] == '.' && v@[1] == '.');
            }
        }
        false
    }
}

/// Whether a piece is the root.
fn is_root(piece: &str) -> (r: bool)
    ensures
        r == (piece@ == seq!['/']),
{
    let v = text::chars_of(piece);
    if v.len() == 1 && v[0] == '/' {
        assert(v@ =~= seq!['/']);
        true
    } else {
        proof {
            if v@ == seq!['/'] {
                assert(v@.len() == 1 && v@[0] == '/');
            }
        }
        false
    }
}

/// Components with each `..` taking back the one before it.
fn settle(parts: &Vec<String>) -> (r: Vec<String>)
    ensures
        text::views(r@) == settled(text::views(parts@)),
{
    let ghost all = text::views(parts@);
    let mut out: Vec<String> = Vec::new();
    let mut i: usize = 0;
    assert(all.take(0) =~= seq![]);
    assert(text::views(out@) =~= settled(all.take(0)));
    while i < parts.len()
        invariant
            i <= parts@.len(),
            all == text::views(parts@),
            text::views(out@) == settled(all.take(i as int)),
        decreases parts@.len() - i,
    {
        let ghost before = text::views(out@);
        let ghost part = parts@[i as int]@;
        proof {
            assert(all.take(i + 1).drop_last() =~= all.take(i as int));
            assert(all.take(i + 1).last() == part);
            assert(before.len() == out@.len());
            assert(out@.len() > 0 ==> before.last() == out@.last()@);
        }
        if !leads_up(parts[i].as_str()) || out.len() == 0 || leads_up(out[out.len() - 1].as_str())
            || is_dot(out[out.len() - 1].as_str()) {
            out.push(parts[i].clone());
            assert(text::views(out@) =~= before.push(part));
        } else if !is_root(out[out.len() - 1].as_str()) {
            out.pop();
            assert(text::views(out@) =~= before.drop_last());
        }
        i += 1;
    }
    assert(all.take(i as int) =~= all);
    out
}

/// Whether `p` leads to `base` or below it.
pub fn path_within(p: &str, base: &str) -> (r: bool)
    ensures
        r == within(p@, base@),
{
    let a = settle(&components_of(p));
    let b = settle(&components_of(base));
    let ghost ca = settled(components(p@));
    let ghost cb = settled(components(base@));
    if !begins_with(&a, &b) {
        return false;
    }
    assert(ca.len() == a@.len() && cb.len() == b@.len());
    if a.len() > b.len() {
        assert(ca[cb.len() as int] == a@[cb.len() as int]@);
        !leads_up(a[b.len()].as_str())
    } else {
        true
    }
}

/// A text has at least one piece.
pub proof fn lemma_split_char_nonempty(s: Seq<char>, c: char)
    ensures
        text::split_char(s, c).len() >= 1,
    decreases s.len(),
{
}

/// The pieces of two texts with a separator between them are those of the
/// first and then those of the second.
pub proof fn lemma_split_char_join(a: Seq<char>, b: Seq<char>, c: char)
    ensures
        text::split_char(a.push(c) + b, c) == text::split_char(a, c) + text::split_char(b, c),
    decreases a.len(),
{
    let s = a.push(c) + b;
    let k = text::find_char(a, c);
    text::lemma_find_char(a, c);
    assert(k < a.len() ==> s[k] == c);
    assert(s[a.len() as int] == c);
    assert forall|j: int| 0 <= j < k implies s[j] != c by {
        assert(s[j] == a[j]);
    }
    text::lemma_find_char_is(s, c, k);
    if k < a.len() {
        lemma_split_char_join(a.skip(k + 1), b, c);
        assert(s.take(k) =~= a.take(k));
        assert(s.skip(k + 1) =~= a.skip(k + 1).push(c) + b);
        assert(text::split_char(s, c) =~= text::split_char(a, c) + text::split_char(b, c));
    } else {
        assert(s.take(k) =~= a);
        assert(s.skip(k + 1) =~= b);
        assert(text::split_char(s, c) =~= text::split_char(a, c) + text::split_char(b, c));
    }
}

/// The components of a relative path taken from a directory are those of the
/// directory and then some of its own.
proof fn lemma_joined_components(base: Seq<char>, p: Seq<char>) -> (tail: Seq<Seq<char>>)
    requires
        !is_absolute(p),
    ensures
        components(join(base, p)) == components(base) + tail,
        forall|i: int| 0 <= i < tail.len() ==> components(p).contains(#[trigger] tail[i]),
{
    let full = join(base, p);
    let pieces = text::split_char(p, '/');
    if base.len() == 0 {
        assert(text::split_char(base, '/') =~= seq![base]);
        lemma_none_kept(seq![base]);
        assert(head(base) =~= seq![]) by {
            assert(seq![base].first() == base);
            assert(seq!['.'].len() == 1);
        }
        assert(components(base) =~= seq![]);
        assert(full =~= p);
        assert(components(full) =~= components(base) + components(p));
        components(p)
    } else {
        if base.last() == '/' {
            let b = base.drop_last();
            assert(base =~= b.push('/') + Seq::<char>::empty());
            assert(full =~= b.push('/') + p);
            lemma_split_char_join(b, Seq::empty(), '/');
            lemma_split_char_join(b, p, '/');
            assert(text::split_char(Seq::<char>::empty(), '/') =~= seq![Seq::<char>::empty()]);
            lemma_common_pieces(
                base,
                full,
                text::split_char(b, '/'),
                seq![Seq::<char>::empty()],
                pieces,
            );
        } else {
            assert(full =~= base.push('/') + p);
            lemma_split_char_join(base, p, '/');
            assert(text::split_char(base, '/') + Seq::<Seq<char>>::empty() =~= text::split_char(
                base,
                '/',
            ));
            lemma_common_pieces(base, full, text::split_char(base, '/'), seq![], pieces);
        }
        let tail = kept(pieces);
        assert forall|i: int| 0 <= i < tail.len() implies components(p).contains(
            #[trigger] tail[i],
        ) by {
            assert(components(p)[head(p).len() + i] == tail[i]);
        }
        tail
    }
}

/// Two non-empty paths that begin alike, up to pieces that do not count.
proof fn lemma_common_pieces(
    base: Seq<char>,
    full: Seq<char>,
    common: Seq<Seq<char>>,
    base_rest: Seq<Seq<char>>,
    full_rest: Seq<Seq<char>>,
)
    requires
        base.len() > 0,
        full.len() > 0,
        base[0] == full[0],
        common.len() > 0,
        text::split_char(base, '/') == common + base_rest,
        text::split_char(full, '/') == common + full_rest,
        forall|i: int| 0 <= i < base_rest.len() ==> !is_kept(#[trigger] base_rest[i]),
    ensures
        components(full) == components(base) + kept(full_rest),
{
    let keep = |x: Seq<char>| is_kept(x);
    Seq::filter_distributes_over_add(common, base_rest, keep);
    Seq::filter_distributes_over_add(common, full_rest, keep);
    lemma_none_kept(base_rest);
    assert((common + base_rest)[0] == common[0]);
    assert((common + full_rest)[0] == common[0]);
    assert(head(full) == head(base));
    assert(components(full) =~= components(base) + kept(full_rest));
}

/// Components without `..` stay as they are.
proof fn lemma_settled_plain(parts: Seq<Seq<char>>, more: Seq<Seq<char>>)
    requires
        forall|i: int| 0 <= i < more.len() ==> !is_up(#[trigger] more[i]),
    ensures
        settled(parts + more) == settled(parts) + more,
    decreases more.len(),
{
    if more.len() == 0 {
        assert(parts + more =~= parts);
        assert(settled(parts) + more =~= settled(parts));
    } else {
        let rest = more.drop_last();
        assert forall|i: int| 0 <= i < rest.len() implies !is_up(#[trigger] rest[i]) by {
            assert(!is_up(more[i]));
        }
        lemma_settled_plain(parts, rest);
        assert((parts + more).drop_last() =~= parts + rest);
        assert(!is_up(more[more.len() - 1]));
        assert(settled(parts + more) =~= settled(parts) + more);
    }
}

/// A path taken from a directory begins with that directory, unless it is
/// absolute; and it leads into the directory, unless it has a `..`.
pub proof fn law_joined_path_is_under_base(base: Seq<char>, p: Seq<char>)
    requires
        !is_absolute(p),
    ensures
        starts_with(join(base, p), base),
        (forall|i: int| 0 <= i < components(p).len() ==> !is_up(#[trigger] components(p)[i]))
            ==> within(join(base, p), base),
{
    let tail = lemma_joined_components(base, p);
    let a = components(base);
    let all = components(join(base, p));
    assert(a =~= all.subrange(0, a.len() as int));
    if forall|i: int| 0 <= i < components(p).len() ==> !is_up(#[trigger] components(p)[i]) {
        assert forall|i: int| 0 <= i < tail.len() implies !is_up(#[trigger] tail[i]) by {
            assert(components(p).contains(tail[i]));
            let j = choose|j: int| 0 <= j < components(p).len() && components(p)[j] == tail[i];
            assert(!is_up(components(p)[j]));
        }
        lemma_settled_plain(a, tail);
        let b = settled(a);
        assert(b =~= settled(all).subrange(0, b.len() as int));
        if tail.len() > 0 {
            assert(settled(all)[b.len() as int] == tail[0]);
        }
    }
}

/// Pieces that do not count leave no component.
proof fn lemma_none_kept(pieces: Seq<Seq<char>>)
    requires
        forall|i: int| 0 <= i < pieces.len() ==> !is_kept(#[trigger] pieces[i]),
    ensures
        kept(pieces) == Seq::<Seq<char>>::empty(),
    decreases pieces.len(),
{
    reveal(Seq::filter);
    if pieces.len() > 0 {
        assert forall|i: int| 0 <= i < pieces.drop_last().len() implies !is_kept(
            #[trigger] pieces.drop_last()[i],
        ) by {
            assert(!is_kept(pieces[i]));
        }
        lemma_none_kept(pieces.drop_last());
        assert(!is_kept(pieces[pieces.len() - 1]));
    }
}

/// A name that ends in a dot and an ending, with something before the dot, has
/// that ending for its extension.
pub proof fn lemma_extension_at_end(before: Seq<char>, c: char, ending: Seq<char>)
    requires
        c != '/',
        ending.len() > 0,
        forall|i: int| 0 <= i < ending.len() ==> #[trigger] ending[i] != '/' && ending[i] != '.',
    ensures
        extension(before.push(c).push('.') + ending) == Some(ending),
{
    let p = before.push(c).push('.') + ending;
    let n = before.len() as int;
    assert(p.last() == ending[ending.len() - 1]);
    assert(trim_tail(p) == p);
    assert(p[n] == c && p[n + 1] == '.');
    assert forall|j: int| n + 2 <= j < p.len() implies p[j] != '/' && p[j] != '.' by {
        assert(p[j] == ending[j - n - 2]);
    }
    text::lemma_find_last_char(p, '/');
    let k = text::find_last_char(p, '/');
    assert(k < n);
    let name = p.skip(k + 1);
    assert(name.len() >= 3);
    assert(seq!['.'].len() == 1 && seq!['.', '.'].len() == 2);
    let dot = n + 1 - (k + 1);
    assert(name[dot] == '.');
    assert forall|j: int| dot < j < name.len() implies name[j] != '.' by {
        assert(name[j] == p[j + k + 1]);
    }
    text::lemma_find_last_char(name, '.');
    assert(text::find_last_char(name, '.') == dot);
    assert(name.skip(dot + 1) =~= ending);
}

/// A path that ends in a dot and an ending keeps its extension wherever it is
/// taken from.
pub proof fn lemma_extension_of_joined(
    base: Seq<char>,
    before: Seq<char>,
    c: char,
    ending: Seq<char>,
)
    requires
        c != '/',
        ending.len() > 0,
        forall|i: int| 0 <= i < ending.len() ==> #[trigger] ending[i] != '/' && ending[i] != '.',
    ensures
        extension(join(base, before.push(c).push('.') + ending)) == Some(ending),
{
    let p = before.push(c).push('.') + ending;
    let lead = if is_absolute(p) {
        seq![]
    } else if base.len() == 0 || base.last() == '/' {
        base
    } else {
        base.push('/')
    };
    assert(join(base, p) =~= lead + p);
    assert(lead + p =~= (lead + before).push(c).push('.') + ending);
    lemma_extension_at_end(lead + before, c, ending);
}

/// Whether a text is the name of a file or a directory: no separator is in it, and
/// it is neither `.` nor `..`.
pub open spec fn is_name(n: Seq<char>) -> bool {
    n.len() > 0 && !n.contains('/') && n != seq!['.'] && n != seq!['.', '.']
}

/// A path taken from a directory is put behind it, with one separator in between;
/// an absolute path is taken as it is.
pub proof fn law_joining_puts_one_separator(base: Seq<char>, p: Seq<char>)
    ensures
        p.len() > 0 && p[0] == '/' ==> join(base, p) == p,
        p.len() == 0 || p[0] != '/' ==> {
            &&& join(seq![], p) == p
            &&& join(base.push('/'), p) == base.push('/') + p
            &&& base.len() > 0 && base.last() != '/' ==> join(base, p) == base.push('/') + p
        },
{
    assert(Seq::<char>::empty() + p =~= p);
}

/// A name is one component; behind a path and a separator it comes last. Repeated
/// separators and a `.` between them count for nothing, and the root is a component
/// of its own.
pub proof fn law_components_are_names(base: Seq<char>, name: Seq<char>)
    requires
        is_name(name),
        base.len() > 0,
    ensures
        components(name) == seq![name],
        components(base.push('/') + name) == components(base).push(name),
        components(base.push('/')) == components(base),
        components(base.push('/').push('/') + name) == components(base).push(name),
        components(base.push('/').push('.').push('/') + name) == components(base).push(name),
        components(base.push('/').push('.')) == components(base),
        components(seq!['/']) == seq![seq!['/']],
        components(seq!['/'] + name) == seq![seq!['/'], name],
        components(seq!['.', '/'] + name) == seq![seq!['.'], name],
        components(seq![]).len() == 0,
{
    let none = Seq::<char>::empty();
    let dot = seq!['.'];
    lemma_whole(name);
    lemma_whole(none);
    lemma_whole(dot);
    lemma_kept_one(name);
    lemma_kept_one(none);
    lemma_kept_one(dot);
    assert(dot.len() == 1);
    assert(seq![name].first() == name && seq![none].first() == none && seq![dot].first() == dot);
    assert(!is_absolute(name)) by {
        if name[0] == '/' {
            assert(name.contains('/'));
        }
    }
    assert(components(name) =~= seq![name]);
    assert(components(none) =~= seq![]);
    lemma_pieces_behind(base, name);
    lemma_pieces_behind(base, none);
    assert(base.push('/') + none =~= base.push('/'));
    assert(components(base.push('/')) =~= components(base));
    assert(components(base.push('/') + name) =~= components(base).push(name));
    let again = base.push('/');
    lemma_pieces_behind(again, name);
    assert(components(again.push('/') + name) =~= components(base).push(name));
    lemma_pieces_behind(base, dot);
    assert(base.push('/') + dot =~= base.push('/').push('.'));
    let here = base.push('/').push('.');
    assert(components(here) =~= components(base));
    lemma_pieces_behind(here, name);
    assert(components(here.push('/') + name) =~= components(base).push(name));
    lemma_root_alone();
    let root = seq!['/'];
    assert(none.push('/') =~= root);
    lemma_split_char_join(none, name, '/');
    assert(none.push('/') + name =~= root + name);
    let keep = |x: Seq<char>| is_kept(x);
    Seq::filter_distributes_over_add(seq![none], seq![name], keep);
    assert(components(root + name) =~= seq![root, name]);
    lemma_pieces_behind(dot, name);
    assert(dot.push('/') + name =~= seq!['.', '/'] + name);
    assert(components(dot) =~= seq![dot]);
    assert(components(seq!['.', '/'] + name) =~= seq![dot, name]);
}

/// The root is the one component of itself.
proof fn lemma_root_alone()
    ensures
        components(seq!['/']) == seq![seq!['/']],
{
    let none = Seq::<char>::empty();
    let root = seq!['/'];
    lemma_split_char_join(none, none, '/');
    assert(none.push('/') + none =~= root);
    lemma_whole(none);
    lemma_none_kept(seq![none] + seq![none]);
    assert(components(root) =~= seq![root]);
}

/// A text without a separator is one piece.
proof fn lemma_whole(s: Seq<char>)
    requires
        !s.contains('/'),
    ensures
        text::split_char(s, '/') == seq![s],
{
    text::lemma_find_char(s, '/');
}

/// One piece counts or does not.
proof fn lemma_kept_one(piece: Seq<char>)
    ensures
        kept(seq![piece]) == if is_kept(piece) {
            seq![piece]
        } else {
            seq![]
        },
{
    reveal_with_fuel(Seq::filter, 2);
    assert(seq![piece].drop_last() =~= seq![]);
    assert(seq![piece].last() == piece);
    if is_kept(piece) {
        assert(kept(seq![piece]) =~= seq![piece]);
    } else {
        assert(kept(seq![piece]) =~= seq![]);
    }
}

/// What stands behind a path and a separator adds its pieces that count.
proof fn lemma_pieces_behind(base: Seq<char>, p: Seq<char>)
    requires
        base.len() > 0,
    ensures
        components(base.push('/') + p) == components(base) + kept(text::split_char(p, '/')),
{
    lemma_split_char_join(base, p, '/');
    lemma_split_char_nonempty(base, '/');
    let common = text::split_char(base, '/');
    assert(common + Seq::<Seq<char>>::empty() =~= common);
    lemma_common_pieces(
        base,
        base.push('/') + p,
        common,
        seq![],
        text::split_char(p, '/'),
    );
}

/// A path begins with itself and with every directory that it was taken from, and
/// with no directory of another name beside them.
pub proof fn law_paths_begin_by_component(base: Seq<char>, a: Seq<char>, b: Seq<char>, p: Seq<char>)
    requires
        is_name(a),
        is_name(b),
        base.len() > 0,
    ensures
        starts_with(base, base),
        starts_with(base.push('/') + a, base),
        starts_with(base.push('/') + a, base.push('/') + b) <==> a == b,
        !starts_with(base, base.push('/') + a),
        starts_with(p, base.push('/') + a) ==> starts_with(p, base),
{
    law_components_are_names(base, a);
    law_components_are_names(base, b);
    let c = components(base);
    assert(c =~= c.subrange(0, c.len() as int));
    assert(c =~= c.push(a).subrange(0, c.len() as int));
    let ca = c.push(a);
    let cb = c.push(b);
    assert(ca.subrange(0, cb.len() as int) =~= ca);
    assert(ca[c.len() as int] == a && cb[c.len() as int] == b);
    if starts_with(p, base.push('/') + a) {
        let cp = components(p);
        assert forall|i: int| 0 <= i < c.len() implies c[i] == cp[i] by {
            assert(ca[i] == cp.subrange(0, ca.len() as int)[i]);
        }
        assert(c =~= cp.subrange(0, c.len() as int));
    }
}

/// A `..` takes back the name before it, and leaves the root; behind nothing, behind
/// `.` and behind another `..` it stays. Names are kept as they come.
pub proof fn law_up_takes_back_a_name(parts: Seq<Seq<char>>, name: Seq<char>)
    requires
        is_name(name),
    ensures
        settled(parts.push(name)) == settled(parts).push(name),
        settled(parts.push(name).push(seq!['.', '.'])) == settled(parts),
        settled(seq![]).len() == 0,
        settled(seq![seq!['/']]) == seq![seq!['/']],
        settled(seq![seq!['/'], seq!['.', '.']]) == seq![seq!['/']],
        settled(seq![seq!['.', '.']]) == seq![seq!['.', '.']],
        settled(seq![seq!['.'], seq!['.', '.']]) == seq![seq!['.'], seq!['.', '.']],
        settled(seq![seq!['.', '.'], seq!['.', '.']]) == seq![seq!['.', '.'], seq!['.', '.']],
{
    let up = seq!['.', '.'];
    let root = seq!['/'];
    let dot = seq!['.'];
    let none = Seq::<Seq<char>>::empty();
    reveal_with_fuel(settled, 3);
    assert(up.len() == 2 && root.len() == 1 && dot.len() == 1 && root[0] == '/' && dot[0] == '.');
    assert(name != root) by {
        if name == root {
            assert(name[0] == '/');
        }
    }
    assert(parts.push(name).drop_last() =~= parts);
    let back = parts.push(name).push(up);
    assert(back.drop_last() =~= parts.push(name));
    assert(settled(back) =~= settled(parts));
    assert(seq![root].drop_last() =~= none && seq![up].drop_last() =~= none);
    assert(seq![dot].drop_last() =~= none);
    assert(seq![root, up].drop_last() =~= seq![root]);
    assert(seq![dot, up].drop_last() =~= seq![dot]);
    assert(seq![up, up].drop_last() =~= seq![up]);
    assert(settled(seq![root]) =~= seq![root]);
    assert(settled(seq![up]) =~= seq![up]);
    assert(settled(seq![dot]) =~= seq![dot]);
    assert(settled(seq![root, up]) =~= seq![root]);
    assert(settled(seq![dot, up]) =~= seq![dot, up]);
    assert(settled(seq![up, up]) =~= seq![up, up]);
}

/// A path leads into a directory where it goes down from it, also where it comes
/// back by the way; it does not where it goes up out of it, or to another name
/// beside it.
pub proof fn law_paths_lead_in_or_out(base: Seq<char>, dir: Seq<char>, a: Seq<char>, b: Seq<char>)
    requires
        is_name(dir),
        is_name(a),
        is_name(b),
        base.len() > 0,
        dir != b,
    ensures
        within(base.push('/') + dir, base.push('/') + dir),
        within((base.push('/') + dir).push('/') + a, base.push('/') + dir),
        within(
            ((base.push('/') + dir).push('/') + a).push('/') + seq!['.', '.'],
            base.push('/') + dir,
        ),
        !within(base, base.push('/') + dir),
        !within((base.push('/') + dir).push('/') + seq!['.', '.'], base.push('/') + dir),
        !within(base.push('/') + b, base.push('/') + dir),
        !within(
            ((base.push('/') + dir).push('/') + seq!['.', '.']).push('/') + b,
            base.push('/') + dir,
        ),
{
    let up = seq!['.', '.'];
    let d = base.push('/') + dir;
    let c = components(base);
    law_components_are_names(base, dir);
    law_components_are_names(base, b);
    law_components_are_names(d, a);
    lemma_up_behind(d);
    let da = d.push('/') + a;
    lemma_up_behind(da);
    let du = d.push('/') + up;
    law_components_are_names(du, b);
    law_up_takes_back_a_name(c, dir);
    law_up_takes_back_a_name(c, b);
    law_up_takes_back_a_name(c.push(dir), a);
    law_up_takes_back_a_name(c.push(dir).push(up), b);
    let s = settled(c);
    let sd = s.push(dir);
    assert(sd =~= sd.subrange(0, sd.len() as int));
    assert(sd =~= sd.push(a).subrange(0, sd.len() as int));
    assert(sd.push(a)[sd.len() as int] == a);
    let sb = s.push(b);
    assert(sb[s.len() as int] == b && sd[s.len() as int] == dir);
    assert(sb.subrange(0, sd.len() as int) =~= sb);
}

/// A `..` behind a path and a separator is its last component.
proof fn lemma_up_behind(base: Seq<char>)
    requires
        base.len() > 0,
    ensures
        components(base.push('/') + seq!['.', '.']) == components(base).push(seq!['.', '.']),
{
    let up = seq!['.', '.'];
    lemma_pieces_behind(base, up);
    assert(!up.contains('/'));
    lemma_whole(up);
    lemma_kept_one(up);
    assert(up.len() == 2 && seq!['.'].len() == 1);
    assert(components(base) + seq![up] =~= components(base).push(up));
}

/// The parent of a path behind a directory is the directory, and its file name is
/// what stands behind; a name alone has the empty path for its parent. Neither the
/// root nor the empty path has a parent, and `..` is no file name.
pub proof fn law_parent_and_file_name(dir: Seq<char>, name: Seq<char>)
    requires
        is_name(name),
        dir.len() > 0,
        dir.last() != '/',
        dir.last() != '.',
    ensures
        parent(dir.push('/') + name) == Some(dir),
        file_name(dir.push('/') + name) == Some(name),
        parent(dir.push('/').push('/') + name) == Some(dir),
        parent((dir.push('/') + name).push('/')) == Some(dir),
        file_name((dir.push('/') + name).push('/')) == Some(name),
        parent(name) == Some(Seq::<char>::empty()),
        file_name(name) == Some(name),
        parent(seq!['/'] + name) == Some(seq!['/']),
        file_name(seq!['/'] + name) == Some(name),
        parent(seq!['/']) is None,
        parent(seq![]) is None,
        file_name(seq!['/']) is None,
        file_name(dir.push('/') + seq!['.', '.']) is None,
{
    let none = Seq::<char>::empty();
    let root = seq!['/'];
    reveal_with_fuel(trim_tail, 3);
    lemma_name_behind(dir.push('/'), name);
    assert(dir.push('/').drop_last() =~= dir);
    assert(trim_tail(dir) == dir);
    assert(trim_tail(dir.push('/')) == dir);
    let twice = dir.push('/').push('/');
    lemma_name_behind(twice, name);
    assert(twice.drop_last() =~= dir.push('/'));
    assert(trim_tail(twice) == dir);
    let whole = dir.push('/') + name;
    assert(whole.push('/').drop_last() =~= whole);
    assert(trim_tail(whole.push('/')) == trim_tail(whole));
    assert(none + name =~= name);
    lemma_name_behind(none, name);
    lemma_name_behind(root, name);
    assert(trim_tail(root) == root);
    assert(trim_tail(none) == none);
    text::lemma_find_last_char(root, '/');
    assert(root[0] == '/');
    assert(root.skip(1).len() == 0);
    let up = seq!['.', '.'];
    let high = dir.push('/') + up;
    assert(high.last() == '.' && high[high.len() - 2] == '.');
    assert(trim_tail(high) == high);
    text::lemma_find_last_char(high, '/');
    let n = dir.len() as int;
    assert(high[n] == '/');
    assert(high[n + 1] == '.' && high[n + 2] == '.');
    assert(text::find_last_char(high, '/') == n);
    assert(high.skip(n + 1) =~= up);
}

/// A name behind nothing or behind a separator is the last piece of a path, and is
/// not trimmed.
proof fn lemma_name_behind(lead: Seq<char>, name: Seq<char>)
    requires
        is_name(name),
        lead.len() == 0 || lead.last() == '/',
    ensures
        trim_tail(lead + name) == lead + name,
        parent(lead + name) == Some(trim_tail(lead)),
        file_name(lead + name) == Some(name),
{
    let p = lead + name;
    assert(p.last() == name.last());
    assert(name.last() != '/') by {
        assert(name.contains(name[name.len() - 1]));
    }
    if p.last() == '.' && p.len() > 1 && p[p.len() - 2] == '/' {
        if name.len() == 1 {
            assert(name =~= seq!['.']);
        } else {
            assert(p[p.len() - 2] == name[name.len() - 2]);
            assert(name.contains('/'));
        }
    }
    assert(trim_tail(p) == p);
    text::lemma_find_last_char(p, '/');
    let k = text::find_last_char(p, '/');
    if k >= lead.len() {
        assert(p[k] == name[k - lead.len()]);
        assert(name.contains('/'));
    }
    if lead.len() > 0 {
        assert(p[lead.len() - 1] == '/');
    }
    assert(k + 1 == lead.len());
    assert(p.take(lead.len() as int) =~= lead);
    assert(p.skip(lead.len() as int) =~= name);
    assert(p != seq!['/']) by {
        if p == seq!['/'] {
            assert(p.last() == '/');
        }
    }
}

/// The extension is what follows the last dot of a name; a name without a dot, or
/// with none but the one that it begins with, has no extension.
pub proof fn law_extension_follows_the_last_dot(stem: Seq<char>, ending: Seq<char>)
    requires
        !stem.contains('/'),
        !ending.contains('/'),
        !ending.contains('.'),
        ending.len() > 0,
    ensures
        stem.len() > 0 ==> extension(stem.push('.') + ending) == Some(ending),
        extension(seq!['.'] + ending) is None,
        extension(ending) is None,
{
    assert forall|i: int| 0 <= i < ending.len() implies #[trigger] ending[i] != '/' && ending[i]
        != '.' by {
        assert(ending.contains(ending[i]));
    }
    if stem.len() > 0 {
        let before = stem.drop_last();
        assert(stem =~= before.push(stem.last()));
        assert(stem.contains(stem[stem.len() - 1]));
        lemma_extension_at_end(before, stem.last(), ending);
        assert(stem.push('.') + ending =~= before.push(stem.last()).push('.') + ending);
    }
    let none = Seq::<char>::empty();
    let hidden = seq!['.'] + ending;
    assert(ending[0] != '.');
    assert(hidden[1] == ending[0]);
    assert(is_name(hidden)) by {
        assert(seq!['.'].len() == 1);
        assert(seq!['.', '.'][1] == '.');
        if hidden.contains('/') {
            let i = choose|i: int| 0 <= i < hidden.len() && hidden[i] == '/';
            assert(hidden[i] == ending[i - 1]);
        }
    }
    assert(none + hidden =~= hidden);
    lemma_name_behind(none, hidden);
    text::lemma_find_last_char(hidden, '.');
    let k = text::find_last_char(hidden, '.');
    if k > 0 {
        assert(hidden[k] == ending[k - 1]);
    }
    assert(is_name(ending)) by {
        assert(seq!['.'][0] == '.' && seq!['.', '.'][0] == '.');
    }
    assert(none + ending =~= ending);
    lemma_name_behind(none, ending);
    text::lemma_find_last_char(ending, '.');
}

} // verus!
