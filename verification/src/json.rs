//! JSON documents as a type of their own.

use vstd::prelude::*;
use crate::text;

verus! {

/// A JSON value.
#[derive(Debug)]
pub enum Json {
    Null,
    Bool(bool),
    /// A number, as it is written.
    Number(String),
    Text(String),
    Array(Vec<Json>),
    /// Names and values; no name stands twice.
    Object(Vec<(String, Json)>),
}

/// What a `Json` holds.
pub enum JsonView {
    Null,
    Bool(bool),
    Number(Seq<char>),
    Text(Seq<char>),
    Array(Seq<JsonView>),
    Object(Seq<(Seq<char>, JsonView)>),
}

impl View for Json {
    type V = JsonView;

    open spec fn view(&self) -> JsonView {
        json_view(*self)
    }
}

/// What a JSON value holds.
pub open spec fn json_view(j: Json) -> JsonView
    decreases j,
{
    match j {
        Json::Null => JsonView::Null,
        Json::Bool(b) => JsonView::Bool(b),
        Json::Number(n) => JsonView::Number(n@),
        Json::Text(t) => JsonView::Text(t@),
        Json::Array(v) => JsonView::Array(
            Seq::new(
                v@.len(),
                |i: int|
                    if 0 <= i < v@.len() {
                        json_view(v@[i])
                    } else {
                        JsonView::Null
                    },
            ),
        ),
        Json::Object(v) => JsonView::Object(
            Seq::new(
                v@.len(),
                |i: int|
                    if 0 <= i < v@.len() {
                        (v@[i].0@, json_view(v@[i].1))
                    } else {
                        (seq![], JsonView::Null)
                    },
            ),
        ),
    }
}

/// The value under a name, among names and values.
pub open spec fn named(members: Seq<(Seq<char>, JsonView)>, name: Seq<char>) -> Option<JsonView>
    decreases members.len(),
{
    if members.len() == 0 {
        None
    } else if members.first().0 == name {
        Some(members.first().1)
    } else {
        named(members.drop_first(), name)
    }
}

/// The value under a name; none where the value is not an object.
pub open spec fn member(j: JsonView, name: Seq<char>) -> Option<JsonView> {
    match j {
        JsonView::Object(members) => named(members, name),
        _ => None,
    }
}

/// The text of a value; none where it is not a text.
pub open spec fn text_of(j: Option<JsonView>) -> Option<Seq<char>> {
    match j {
        Some(JsonView::Text(t)) => Some(t),
        _ => None,
    }
}

/// The items of a value; none where it is not an array.
pub open spec fn items_of(j: Option<JsonView>) -> Option<Seq<JsonView>> {
    match j {
        Some(JsonView::Array(v)) => Some(v),
        _ => None,
    }
}

/// What an optional value holds.
pub open spec fn opt_json(j: Option<&Json>) -> Option<JsonView> {
    match j {
        Some(v) => Some(v@),
        None => None,
    }
}

/// What a list of values holds.
pub open spec fn json_views(v: Seq<Json>) -> Seq<JsonView> {
    v.map_values(|j: Json| j@)
}

impl Json {
    /// The value under a name.
    pub fn get(&self, name: &str) -> (r: Option<&Json>)
        ensures
            opt_json(r) == member(self@, name@),
    {
        match self {
            Json::Object(members) => {
                let ghost all = match self@ {
                    JsonView::Object(m) => m,
                    _ => seq![],
                };
                let mut i: usize = 0;
                assert(all.skip(0) =~= all);
                while i < members.len()
                    invariant
                        i <= members@.len() == all.len(),
                        forall|k: int|
                            0 <= k < all.len() ==> #[trigger] all[k] == (
                                members@[k].0@,
                                members@[k].1@,
                            ),
                        member(self@, name@) == named(all, name@),
                        named(all.skip(i as int), name@) == named(all, name@),
                    decreases members@.len() - i,
                {
                    assert(all.skip(i as int).first() == (
                        members@[i as int].0@,
                        members@[i as int].1@,
                    ));
                    if text::same_text(members[i].0.as_str(), name) {
                        return Some(&members[i].1);
                    }
                    assert(all.skip(i as int).drop_first() =~= all.skip(i + 1));
                    i += 1;
                }
                assert(all.skip(i as int).len() == 0);
                None
            },
            _ => None,
        }
    }

    /// The text of the value.
    pub fn as_text(&self) -> (r: Option<&String>)
        ensures
            match r {
                Some(t) => text_of(Some(self@)) == Some(t@),
                None => text_of(Some(self@)) is None,
            },
    {
        match self {
            Json::Text(t) => Some(t),
            _ => None,
        }
    }

    /// The items of the value.
    pub fn as_array(&self) -> (r: Option<&Vec<Json>>)
        ensures
            match r {
                Some(v) => items_of(Some(self@)) == Some(json_views(v@)),
                None => items_of(Some(self@)) is None,
            },
    {
        match self {
            Json::Array(v) => {
                proof {
                    if let JsonView::Array(all) = self@ {
                        assert(all =~= json_views(v@));
                    }
                }
                Some(v)
            },
            _ => None,
        }
    }

    /// The text under a name.
    pub fn text_under(&self, name: &str) -> (r: Option<String>)
        ensures
            match r {
                Some(t) => text_of(member(self@, name@)) == Some(t@),
                None => text_of(member(self@, name@)) is None,
            },
    {
        match self.get(name) {
            Some(v) => match v.as_text() {
                Some(t) => Some(t.clone()),
                None => None,
            },
            None => None,
        }
    }
}

/// `serde_json::Value`, a document as it is read.
#[verifier::external_type_specification]
#[verifier::external_body]
pub struct ExValue(serde_json::Value);

/// What a document as it is read holds.
pub uninterp spec fn value_contents(v: serde_json::Value) -> JsonView;

/// The document that a text is; none where the text is not a JSON document.
pub uninterp spec fn json_document(s: Seq<char>) -> Option<JsonView>;

/// `serde_json::from_str` into a `serde_json::Value`: what comes out depends on
/// the text alone and goes by the name `json_document`.
#[verifier::external_body]
fn read_value(s: &str) -> (r: Option<serde_json::Value>)
    ensures
        match r {
            Some(v) => json_document(s@) == Some(value_contents(v)),
            None => json_document(s@) is None,
        },
{
    serde_json::from_str(s).ok()
}

/// A `serde_json::Value` as a `Json`, one for one: an array item by item, an
/// object member by member, a number in the notation of its `Display`.
#[verifier::external_body]
fn value_to_json(v: serde_json::Value) -> (r: Json)
    ensures
        r@ == value_contents(v),
{
    match v {
        serde_json::Value::Null => Json::Null,
        serde_json::Value::Bool(b) => Json::Bool(b),
        serde_json::Value::Number(n) => Json::Number(n.to_string()),
        serde_json::Value::String(s) => Json::Text(s),
        serde_json::Value::Array(a) => Json::Array(a.into_iter().map(value_to_json).collect()),
        serde_json::Value::Object(o) => {
            Json::Object(o.into_iter().map(|(k, v)| (k, value_to_json(v))).collect())
        },
    }
}

/// The document that a text is.
pub fn parse_json(s: &str) -> (r: Option<Json>)
    ensures
        match r {
            Some(j) => json_document(s@) == Some(j@),
            None => json_document(s@) is None,
        },
{
    match read_value(s) {
        Some(v) => Some(value_to_json(v)),
        None => None,
    }
}

// Texts as JSON strings.

/// A hexadecimal digit.
pub open spec fn hex_digit(n: int) -> char {
    if n < 10 {
        text::digit(n)
    } else {
        ((87 + n) as u8) as char
    }
}

/// A character within a JSON string.
pub open spec fn escaped_char(c: char) -> Seq<char> {
    let n = c as u32 as int;
    if c == '"' || c == '\\' {
        seq!['\\', c]
    } else if n == 8 {
        seq!['\\', 'b']
    } else if c == '\t' {
        seq!['\\', 't']
    } else if c == '\n' {
        seq!['\\', 'n']
    } else if n == 12 {
        seq!['\\', 'f']
    } else if c == '\r' {
        seq!['\\', 'r']
    } else if n < 32 {
        seq!['\\', 'u', '0', '0', hex_digit(n / 16), hex_digit(n % 16)]
    } else {
        seq![c]
    }
}

/// Characters within a JSON string.
pub open spec fn escaped(s: Seq<char>) -> Seq<char>
    decreases s.len(),
{
    if s.len() == 0 {
        seq![]
    } else {
        escaped(s.drop_last()) + escaped_char(s.last())
    }
}

/// A text as a JSON string.
pub open spec fn json_string(s: Seq<char>) -> Seq<char> {
    seq!['"'] + escaped(s) + seq!['"']
}

/// `serde_json::to_string` on a text: the text in quotes, with quotes,
/// backslashes and the control characters below the blank escaped, the last by
/// a letter where JSON has one and else by four hexadecimal digits.
#[verifier::external_body]
pub(crate) fn string_to_json(s: &str) -> (r: String)
    ensures
        r@ == json_string(s@),
{
    serde_json::to_string(s).unwrap()
}

/// A JSON string is one line.
pub proof fn law_json_string_is_one_line(s: Seq<char>)
    ensures
        !json_string(s).contains('\n'),
        !json_string(s).contains('\r'),
    decreases s.len(),
{
    if s.len() > 0 {
        let rest = s.drop_last();
        law_json_string_is_one_line(rest);
        let tail = escaped_char(s.last());
        let all = json_string(s);
        let c = s.last() as u32 as int;
        if c < 32 {
            assert(0 <= c / 16 < 2 && 0 <= c % 16 < 16);
            assert(hex_digit(c / 16) as int >= 48);
            assert(hex_digit(c % 16) as int >= 48);
        }
        assert forall|i: int| 0 <= i < tail.len() implies tail[i] != '\n' && tail[i] != '\r' by {}
        assert forall|i: int| 0 <= i < all.len() implies all[i] != '\n' && all[i] != '\r' by {
            let n = escaped(rest).len();
            if 1 <= i < 1 + n {
                assert(json_string(rest)[i] == all[i]);
                assert(json_string(rest).contains(all[i]));
            } else if 1 + n <= i < all.len() - 1 {
                assert(all[i] == tail[i - 1 - n]);
            }
        }
    } else {
        assert(json_string(s) =~= seq!['"', '"']);
    }
}

/// Escaping goes character by character: a quote and a backslash stand behind a
/// backslash, control characters become a letter or four hexadecimal digits of
/// their number, and every other character stays.
pub proof fn law_json_escaping_goes_by_character(a: Seq<char>, b: Seq<char>, c: char)
    ensures
        escaped(a + b) == escaped(a) + escaped(b),
        json_string(a) == seq!['"'] + escaped(a) + seq!['"'],
        escaped(seq!['"']) == seq!['\\', '"'],
        escaped(seq!['\\']) == seq!['\\', '\\'],
        escaped(seq!['\n']) == seq!['\\', 'n'],
        escaped(seq!['\r']) == seq!['\\', 'r'],
        escaped(seq!['\t']) == seq!['\\', 't'],
        c as u32 == 8 ==> escaped(seq![c]) == seq!['\\', 'b'],
        c as u32 == 12 ==> escaped(seq![c]) == seq!['\\', 'f'],
        c as u32 >= 32 && c != '"' && c != '\\' ==> escaped(seq![c]) == seq![c],
        (c as u32) < 32 && !(8 <= c as u32 <= 10) && c as u32 != 12 && c as u32 != 13 ==> {
            let e = escaped(seq![c]);
            &&& e.len() == 6
            &&& e.take(4) == seq!['\\', 'u', '0', '0']
            &&& (c as u32) < 16 ==> e[4] == '0'
            &&& (c as u32) >= 16 ==> e[4] == '1'
            &&& (c as u32) % 16 < 10 ==> e[5] as u32 == 48 + (c as u32) % 16
            &&& (c as u32) % 16 >= 10 ==> e[5] as u32 == 87 + (c as u32) % 16
        },
    decreases b.len(),
{
    reveal_with_fuel(escaped, 2);
    let none = Seq::<char>::empty();
    assert forall|x: char| escaped(#[trigger] seq![x]) == escaped_char(x) by {
        assert(seq![x].drop_last() =~= none);
        assert(escaped(seq![x]) =~= escaped_char(x));
    }
    if (c as u32) < 32 {
        let n = c as u32 as int;
        assert(0 <= n / 16 < 2 && 0 <= n % 16 < 16);
        assert(text::digit(n / 16) as int == 48 + n / 16);
        assert(hex_digit(n / 16) as u32 == 48 + n / 16);
        assert(n % 16 < 10 ==> text::digit(n % 16) as u32 == 48 + n % 16);
        assert(escaped(seq![c]) == escaped_char(c));
        if !(8 <= n <= 10) && n != 12 && n != 13 {
            assert(escaped(seq![c]).take(4) =~= seq!['\\', 'u', '0', '0']);
        }
    }
    if b.len() == 0 {
        assert(a + b =~= a);
        assert(escaped(a) + escaped(b) =~= escaped(a));
    } else {
        law_json_escaping_goes_by_character(a, b.drop_last(), c);
        assert((a + b).drop_last() =~= a + b.drop_last());
        assert(escaped(a + b) =~= escaped(a) + escaped(b));
    }
}

/// What stands under a name in an object is the first value with that name, and
/// nothing stands under a name that none has. Only an object has names.
pub proof fn law_first_name_counts(
    before: Seq<(Seq<char>, JsonView)>,
    name: Seq<char>,
    value: JsonView,
    more: Seq<(Seq<char>, JsonView)>,
)
    requires
        forall|i: int| 0 <= i < before.len() ==> (#[trigger] before[i]).0 != name,
    ensures
        member(JsonView::Object(before + seq![(name, value)] + more), name) == Some(value),
        member(JsonView::Object(before), name) is None,
        forall|v: JsonView| !(v is Object) ==> #[trigger] member(v, name) is None,
    decreases before.len(),
{
    let all = before + seq![(name, value)] + more;
    if before.len() == 0 {
        assert(all.first() == (name, value));
    } else {
        let rest = before.drop_first();
        assert forall|i: int| 0 <= i < rest.len() implies (#[trigger] rest[i]).0 != name by {
            assert(rest[i] == before[i + 1]);
        }
        law_first_name_counts(rest, name, value, more);
        assert(before[0].0 != name);
        assert(all.first() == before[0]);
        assert(all.drop_first() =~= rest + seq![(name, value)] + more);
    }
}

/// A text is a text and a list is a list; nothing else is either of them.
pub proof fn law_values_are_what_they_are(t: Seq<char>, items: Seq<JsonView>, v: JsonView)
    ensures
        text_of(Some(JsonView::Text(t))) == Some(t),
        items_of(Some(JsonView::Array(items))) == Some(items),
        !(v is Text) ==> text_of(Some(v)) is None,
        !(v is Array) ==> items_of(Some(v)) is None,
        text_of(None) is None,
        items_of(None) is None,
{
}

} // verus!
