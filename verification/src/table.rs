//! Small tables of text: a list of names and values in which each name stands
//! at most once.

use vstd::prelude::*;
use crate::text;

verus! {

/// The names and values that a list of pairs of strings holds.
pub open spec fn entries(t: Seq<(String, String)>) -> Seq<(Seq<char>, Seq<char>)> {
    t.map_values(|e: (String, String)| (e.0@, e.1@))
}

/// The value that stands under `name`.
pub open spec fn lookup(t: Seq<(Seq<char>, Seq<char>)>, name: Seq<char>) -> Option<Seq<char>>
    decreases t.len(),
{
    if t.len() == 0 {
        None
    } else if t.first().0 == name {
        Some(t.first().1)
    } else {
        lookup(t.drop_first(), name)
    }
}

/// Whether no name stands twice.
pub open spec fn distinct(t: Seq<(Seq<char>, Seq<char>)>) -> bool {
    forall|i: int, j: int| 0 <= i < j < t.len() ==> #[trigger] t[i].0 != #[trigger] t[j].0
}

/// Finds the value that stands under `name`.
pub fn find<'a>(t: &'a Vec<(String, String)>, name: &str) -> (r: Option<&'a String>)
    ensures
        match (r, lookup(entries(t@), name@)) {
            (Some(v), Some(w)) => v@ == w,
            (None, None) => true,
            _ => false,
        },
{
    let ghost all = entries(t@);
    let mut i: usize = 0;
    assert(all.skip(0) =~= all);
    while i < t.len()
        invariant
            i <= t@.len(),
            all == entries(t@),
            lookup(all.skip(i as int), name@) == lookup(all, name@),
        decreases t@.len() - i,
    {
        assert(all.skip(i as int).first() == (t@[i as int].0@, t@[i as int].1@));
        if text::same_text(t[i].0.as_str(), name) {
            return Some(&t[i].1);
        }
        assert(all.skip(i as int).drop_first() =~= all.skip(i + 1));
        i += 1;
    }
    assert(all.skip(i as int).len() == 0);
    None
}

/// A copy of a table.
pub fn copy(t: &Vec<(String, String)>) -> (r: Vec<(String, String)>)
    ensures
        entries(r@) == entries(t@),
{
    let mut out: Vec<(String, String)> = Vec::new();
    let mut i: usize = 0;
    while i < t.len()
        invariant
            i <= t@.len(),
            entries(out@) == entries(t@.take(i as int)),
        decreases t@.len() - i,
    {
        let ghost before = entries(out@);
        out.push((t[i].0.clone(), t[i].1.clone()));
        proof {
            let e = (t@[i as int].0@, t@[i as int].1@);
            assert(entries(out@) =~= before.push(e));
            assert(entries(t@.take(i + 1)) =~= entries(t@.take(i as int)).push(e));
        }
        i += 1;
    }
    assert(t@.take(i as int) =~= t@);
    out
}

/// A copy of a list of strings.
pub fn copy_strings(v: &Vec<String>) -> (r: Vec<String>)
    ensures
        text::views(r@) == text::views(v@),
{
    let mut out: Vec<String> = Vec::new();
    let mut i: usize = 0;
    while i < v.len()
        invariant
            i <= v@.len(),
            text::views(out@) == text::views(v@.take(i as int)),
        decreases v@.len() - i,
    {
        let ghost before = text::views(out@);
        out.push(v[i].clone());
        proof {
            assert(text::views(out@) =~= before.push(v@[i as int]@));
            assert(text::views(v@.take(i + 1)) =~= text::views(v@.take(i as int)).push(
                v@[i as int]@,
            ));
        }
        i += 1;
    }
    assert(v@.take(i as int) =~= v@);
    out
}

/// A name finds the value that stands under it first: a pair that was put in
/// front is found before the others, and one with another name is passed over.
pub proof fn law_first_pair_is_found(
    t: Seq<(Seq<char>, Seq<char>)>,
    name: Seq<char>,
    other: Seq<char>,
    value: Seq<char>,
)
    requires
        name != other,
    ensures
        lookup(seq![(name, value)] + t, name) == Some(value),
        lookup(seq![(other, value)] + t, name) == lookup(t, name),
        lookup(seq![], name) is None,
{
    assert((seq![(name, value)] + t).first() == (name, value));
    assert((seq![(other, value)] + t).first() == (other, value));
    assert((seq![(other, value)] + t).drop_first() =~= t);
}

} // verus!
