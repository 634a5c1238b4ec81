//! JSON documents, as `serde_json` reads and writes them.
//!
//! A document is modelled by [`Json`]. What the text of a document means is
//! `serde_json`'s to say and has the name [`json_in`]; a parsed value is opaque
//! and [`json_of`] names the document that it holds.
//!
//! A document whose fields are known is read field by field: its outermost members are
//! walked, each string and each value as `serde_json` reads it, so that a field given
//! twice is told from one given once and other members are passed over unread.

use crate::str_map::StrMap;
use crate::text;
use vstd::prelude::*;

verus! {

/// A JSON document. Numbers carry no content here: nothing in this crate reads
/// one.
pub enum Json {
    Null,
    Bool(bool),
    Number,
    Text(Seq<char>),
    Array(Seq<Json>),
    Object(Map<Seq<char>, Json>),
}

#[verifier::external_type_specification]
#[verifier::external_body]
pub struct ExValue(serde_json::Value);

#[verifier::external_type_specification]
#[verifier::external_body]
pub struct ExError(serde_json::Error);

/// The document that a parsed value holds.
pub uninterp spec fn json_of(value: serde_json::Value) -> Json;

/// The document that a text spells, if it spells one.
pub uninterp spec fn json_in(content: Seq<char>) -> Option<Json>;

/// `serde_json::from_str`, read as a `Value`: succeeds exactly on the texts that
/// spell a document, and gives that document.
#[verifier::external_body]
pub(crate) fn parse(content: &str) -> (r: Result<serde_json::Value, serde_json::Error>)
    ensures
        match r {
            Ok(value) => json_in(content@) == Some(json_of(value)),
            Err(_) => json_in(content@) is None,
        },
{
    serde_json::from_str(content)
}

/// `Value::get` with a text index: the member of an object under that name, and
/// nothing where the value is no object or has no such member.
#[verifier::external_body]
pub(crate) fn member<'a>(value: &'a serde_json::Value, name: &str) -> (r: Option<&'a serde_json::Value>)
    ensures
        match r {
            Some(inner) => json_of(*value) is Object
                && json_of(*value)->Object_0.contains_key(name@)
                && json_of(*value)->Object_0[name@] == json_of(*inner),
            None => json_of(*value) is Object ==> !json_of(*value)->Object_0.contains_key(name@),
        },
{
    value.get(name)
}

/// `Value::as_str`: the content of a JSON string, and nothing of any other value.
#[verifier::external_body]
pub(crate) fn as_text(value: &serde_json::Value) -> (r: Option<&str>)
    ensures
        match r {
            Some(content) => json_of(*value) == Json::Text(content@),
            None => !(json_of(*value) is Text),
        },
{
    value.as_str()
}

/// `Value::as_array`: the elements of a JSON array in order, and nothing of any
/// other value.
#[verifier::external_body]
pub(crate) fn as_array(value: &serde_json::Value) -> (r: Option<&Vec<serde_json::Value>>)
    ensures
        match r {
            Some(elements) => json_of(*value) == Json::Array(
                elements@.map_values(|element: serde_json::Value| json_of(element)),
            ),
            None => !(json_of(*value) is Array),
        },
{
    value.as_array()
}

/// `Value::as_object` and the `keys` of the map that it gives: the member names of
/// a JSON object, each once, and nothing of any other value. The order is left open.
#[verifier::external_body]
pub(crate) fn member_names(value: &serde_json::Value) -> (r: Option<Vec<String>>)
    ensures
        match r {
            Some(names) => json_of(*value) is Object
                && text::views(names@).no_duplicates()
                && text::views(names@).to_set() == json_of(*value)->Object_0.dom(),
            None => !(json_of(*value) is Object),
        },
{
    value.as_object().map(|members| members.keys().cloned().collect())
}

/// `Value::String`: the JSON string with that content.
#[verifier::external_body]
pub(crate) fn text_value(content: String) -> (r: serde_json::Value)
    ensures
        json_of(r) == Json::Text(content@),
{
    serde_json::Value::String(content)
}

/// The members that a list of name and value gives, where the later of two equal
/// names counts.
pub open spec fn members_of(entries: Seq<(String, serde_json::Value)>) -> Map<Seq<char>, Json>
    decreases entries.len(),
{
    if entries.len() == 0 {
        Map::empty()
    } else {
        members_of(entries.drop_last()).insert(entries.last().0@, json_of(entries.last().1))
    }
}

/// `Value::Object` of a `serde_json::Map` collected from a list: inserts the
/// entries one after the other.
#[verifier::external_body]
pub(crate) fn object_value(entries: Vec<(String, serde_json::Value)>) -> (r: serde_json::Value)
    ensures
        json_of(r) == Json::Object(members_of(entries@)),
{
    serde_json::Value::Object(entries.into_iter().collect())
}

/// An object whose members are strings, or objects of strings: two levels, far
/// from the depth at which `serde_json` stops reading.
pub open spec fn is_shallow(document: Json) -> bool {
    document is Object && forall|name: Seq<char>| #[trigger]
        document->Object_0.contains_key(name) ==> {
            ||| document->Object_0[name] is Text
            ||| strings_of(document->Object_0[name]) is Some
        }
}

/// `serde_json::to_string` on a `Value`: succeeds, and a shallow document is read
/// back from the text unchanged, as a whole or member by member. Which of the
/// spellings of a document it chooses is left open.
#[verifier::external_body]
pub(crate) fn render(value: &serde_json::Value) -> (r: Result<String, serde_json::Error>)
    ensures
        r is Ok,
        is_shallow(json_of(*value)) ==> json_in(r->Ok_0@) == Some(json_of(*value)),
        is_shallow(json_of(*value)) ==> spells_members(r->Ok_0@, json_of(*value)->Object_0),
        strings_of(json_of(*value)) is Some ==> strings_in(r->Ok_0@) == strings_of(json_of(*value)),
{
    serde_json::to_string(value)
}

// ---------------------------------------------------------------------------
// Texts of a known shape
// ---------------------------------------------------------------------------

/// The object of strings that a text spells, if it spells one.
pub uninterp spec fn strings_in(content: Seq<char>) -> Option<Map<Seq<char>, Seq<char>>>;

/// The entries of a list by name, where the later of two equal names counts.
pub open spec fn entry_map(entries: Seq<(String, String)>) -> Map<Seq<char>, Seq<char>>
    decreases entries.len(),
{
    if entries.len() == 0 {
        Map::empty()
    } else {
        entry_map(entries.drop_last()).insert(entries.last().0@, entries.last().1@)
    }
}

/// `serde_json::from_str`, read as a `BTreeMap<String, String>`: succeeds exactly on the
/// texts that spell an object of strings, and gives its members.
#[verifier::external_body]
fn parse_strings(content: &str) -> (r: Result<Vec<(String, String)>, serde_json::Error>)
    ensures
        match r {
            Ok(entries) => strings_in(content@) == Some(entry_map(entries@)),
            Err(_) => strings_in(content@) is None,
        },
{
    serde_json::from_str::<std::collections::BTreeMap<String, String>>(content).map(
        |members| members.into_iter().collect(),
    )
}

/// Reads the text of an object of strings.
pub(crate) fn read_string_map(content: &str) -> (r: Result<StrMap<String>, serde_json::Error>)
    ensures
        match r {
            Ok(strings) => strings_in(content@) == Some(strings@),
            Err(_) => strings_in(content@) is None,
        },
{
    match parse_strings(content) {
        Ok(entries) => Ok(string_map(&entries)),
        Err(error) => Err(error),
    }
}

/// The entries of a list by name.
fn string_map(entries: &[(String, String)]) -> (r: StrMap<String>)
    ensures
        r@ == entry_map(entries@),
{
    let mut r: StrMap<String> = StrMap::new();
    assert(entries@.take(0) =~= Seq::empty());
    assert(r@ =~= entry_map(entries@.take(0)));
    for i in 0..entries.len()
        invariant
            r@ == entry_map(entries@.take(i as int)),
    {
        assert(entries@.take(i + 1).drop_last() =~= entries@.take(i as int));
        r.insert(entries[i].0.clone(), entries[i].1.clone());
    }
    assert(entries@.take(entries@.len() as int) =~= entries@);
    r
}

/// The object of arrays that a text spells as the one element of an array, if it does.
pub uninterp spec fn lists_in(content: Seq<char>) -> Option<Map<Seq<char>, Seq<Json>>>;

/// The arrays of a list by name, where the later of two equal names counts.
pub open spec fn list_map(entries: Seq<(String, Vec<serde_json::Value>)>) -> Map<
    Seq<char>,
    Seq<Json>,
>
    decreases entries.len(),
{
    if entries.len() == 0 {
        Map::empty()
    } else {
        list_map(entries.drop_last()).insert(
            entries.last().0@,
            entries.last().1@.map_values(|element: serde_json::Value| json_of(element)),
        )
    }
}

/// `serde_json::from_str`, read as a tuple of one `BTreeMap<String, Vec<Value>>`:
/// succeeds exactly on the texts that spell an object of arrays as the one element of an
/// array, and gives the members of that object.
#[verifier::external_body]
pub(crate) fn parse_lists(content: &str) -> (r: Option<Vec<(String, Vec<serde_json::Value>)>>)
    ensures
        match r {
            Some(entries) => lists_in(content@) == Some(list_map(entries@)),
            None => lists_in(content@) is None,
        },
{
    serde_json::from_str::<(std::collections::BTreeMap<String, Vec<serde_json::Value>>,)>(
        content,
    ).ok().map(|(members,)| members.into_iter().collect())
}

/// The string and the object of strings that a text spells as the two elements of an
/// array, if it does.
pub uninterp spec fn pair_in(content: Seq<char>) -> Option<
    (Seq<char>, Map<Seq<char>, Seq<char>>),
>;

/// `serde_json::from_str`, read as a tuple of a `String` and a
/// `BTreeMap<String, String>`: succeeds exactly on the texts that spell the two as an
/// array, and gives the string and the members of the object.
#[verifier::external_body]
fn parse_pair(content: &str) -> (r: Option<(String, Vec<(String, String)>)>)
    ensures
        match r {
            Some(pair) => pair_in(content@) == Some((pair.0@, entry_map(pair.1@))),
            None => pair_in(content@) is None,
        },
{
    serde_json::from_str::<(String, std::collections::BTreeMap<String, String>)>(content).ok().map(
        |(first, members)| (first, members.into_iter().collect()),
    )
}

// ---------------------------------------------------------------------------
// Member by member
// ---------------------------------------------------------------------------

/// The string that a text begins with, behind blanks, and what follows it.
pub uninterp spec fn text_first(content: Seq<char>) -> Option<(Seq<char>, Seq<char>)>;

/// `serde_json::StreamDeserializer` over `String`, its first item and where that ends:
/// the string that a text begins with, and what follows it, which is shorter than the
/// text. There is none exactly where the text begins with no string.
#[verifier::external_body]
fn first_text(content: &str) -> (r: Option<(String, String)>)
    ensures
        match r {
            Some(found) => text_first(content@) == Some((found.0@, found.1@))
                && found.1@.is_suffix_of(content@) && found.1@.len() < content@.len(),
            None => text_first(content@) is None,
        },
{
    let mut stream = serde_json::Deserializer::from_str(content).into_iter::<String>();
    match stream.next() {
        Some(Ok(first)) => Some((first, content[stream.byte_offset()..].to_owned())),
        _ => None,
    }
}

/// What follows the value that a text begins with, behind blanks.
pub uninterp spec fn value_rest(content: Seq<char>) -> Option<Seq<char>>;

/// `serde_json::StreamDeserializer` over `IgnoredAny`, where its first item ends: what
/// follows the value that a text begins with, which is shorter than the text. There is
/// none exactly where the text begins with no value.
#[verifier::external_body]
fn after_value(content: &str) -> (r: Option<String>)
    ensures
        match r {
            Some(rest) => value_rest(content@) == Some(rest@) && rest@.is_suffix_of(content@)
                && rest@.len() < content@.len(),
            None => value_rest(content@) is None,
        },
{
    let mut stream = serde_json::Deserializer::from_str(content).into_iter::<
        serde::de::IgnoredAny,
    >();
    match stream.next() {
        Some(Ok(_)) => Some(content[stream.byte_offset()..].to_owned()),
        _ => None,
    }
}

/// A character that may stand between the parts of a document.
pub open spec fn is_blank(c: char) -> bool {
    c == ' ' || c == '\n' || c == '\t' || c == '\r'
}

/// What follows the blanks that a text begins with.
pub open spec fn after_blanks(s: Seq<char>) -> Seq<char>
    decreases s.len(),
{
    if s.len() > 0 && is_blank(s[0]) {
        after_blanks(s.drop_first())
    } else {
        s
    }
}

/// The text is blank.
pub open spec fn is_all_blank(s: Seq<char>) -> bool {
    after_blanks(s).len() == 0
}

/// The text goes on, behind blanks, with that character.
pub open spec fn goes_on_with(s: Seq<char>, c: char) -> bool {
    after_blanks(s).len() > 0 && after_blanks(s)[0] == c
}

/// What follows the character that the text goes on with behind blanks.
pub open spec fn behind(s: Seq<char>) -> Seq<char> {
    after_blanks(s).drop_first()
}

/// The member of an object that a text begins with: its name, the text of its value, and
/// what follows.
pub open spec fn first_member(s: Seq<char>) -> Option<(Seq<char>, Seq<char>, Seq<char>)> {
    match text_first(s) {
        Some((name, rest)) => if goes_on_with(rest, ':') {
            let value = behind(rest);
            match value_rest(value) {
                Some(rest) => Some((name, value.take(value.len() - rest.len()), rest)),
                None => None,
            }
        } else {
            None
        },
        None => None,
    }
}

/// The members that a text lists up to the brace that closes an object, with nothing
/// behind it. What follows a member is never longer than what it stands in.
pub open spec fn members_from(s: Seq<char>) -> Option<Seq<(Seq<char>, Seq<char>)>>
    decreases s.len(),
{
    match first_member(s) {
        Some((name, value, rest)) => if after_blanks(rest).len() > s.len() {
            None
        } else if goes_on_with(rest, '}') && is_all_blank(behind(rest)) {
            Some(seq![(name, value)])
        } else if goes_on_with(rest, ',') {
            match members_from(behind(rest)) {
                Some(more) => Some(seq![(name, value)] + more),
                None => None,
            }
        } else {
            None
        },
        None => None,
    }
}

/// The members of the object that a text spells, in order, each with the text of its
/// value. A name that occurs twice is listed twice, and what a value holds is not looked
/// into.
pub open spec fn outer_members(content: Seq<char>) -> Option<Seq<(Seq<char>, Seq<char>)>> {
    if !goes_on_with(content, '{') {
        None
    } else if goes_on_with(behind(content), '}') && is_all_blank(behind(behind(content))) {
        Some(Seq::empty())
    } else {
        members_from(behind(content))
    }
}

/// A member as it was read: its name and the text of its value.
pub struct Member {
    pub name: String,
    pub value: String,
}

/// What a list of members says.
pub open spec fn member_views(members: Seq<Member>) -> Seq<(Seq<char>, Seq<char>)> {
    members.map_values(|member: Member| (member.name@, member.value@))
}

/// How many blanks a text begins with.
fn blanks_at_start(s: &[char]) -> (r: usize)
    ensures
        r <= s@.len(),
        s@.skip(r as int) == after_blanks(s@),
{
    let mut n: usize = 0;
    assert(s@.skip(0) =~= s@);
    while n < s.len() && (s[n] == ' ' || s[n] == '\n' || s[n] == '\t' || s[n] == '\r')
        invariant
            n <= s@.len(),
            after_blanks(s@) == after_blanks(s@.skip(n as int)),
        decreases s@.len() - n,
    {
        assert(s@.skip(n as int).drop_first() =~= s@.skip(n + 1));
        n += 1;
    }
    n
}

/// What follows a character, where the text goes on with it behind blanks.
fn behind_char(content: &str, c: char) -> (r: Option<String>)
    ensures
        match r {
            Some(rest) => goes_on_with(content@, c) && rest@ == behind(content@) && rest@.len()
                < content@.len(),
            None => !goes_on_with(content@, c),
        },
{
    let chars = text::chars_of(content);
    let total: usize = chars.len();
    let n = blanks_at_start(&chars);
    if n < total && chars[n] == c {
        let rest = text::slice_of(&chars, n + 1, total);
        assert(rest@ =~= behind(content@));
        Some(text::string_of(&rest))
    } else {
        None
    }
}

/// Whether a text is blank.
fn has_blanks_only(content: &str) -> (r: bool)
    ensures
        r == is_all_blank(content@),
{
    let chars = text::chars_of(content);
    let n = blanks_at_start(&chars);
    n == chars.len()
}

/// What follows the blanks of a text is no longer than the text.
proof fn lemma_after_blanks(s: Seq<char>)
    ensures
        after_blanks(s).len() <= s.len(),
    decreases s.len(),
{
    if s.len() > 0 && is_blank(s[0]) {
        lemma_after_blanks(s.drop_first());
    }
}

/// Reads the member that a text begins with, and what follows it.
fn read_member(content: &str) -> (r: Option<(Member, String)>)
    ensures
        match r {
            Some(found) => first_member(content@) == Some(
                (found.0.name@, found.0.value@, found.1@),
            ) && found.1@.len() < content@.len(),
            None => first_member(content@) is None,
        },
{
    let (name, rest) = match first_text(content) {
        Some(found) => found,
        None => {
            return None;
        },
    };
    let text = match behind_char(rest.as_str(), ':') {
        Some(text) => text,
        None => {
            return None;
        },
    };
    let rest = match after_value(text.as_str()) {
        Some(rest) => rest,
        None => {
            return None;
        },
    };
    let chars = text::chars_of(text.as_str());
    let left = text::chars_of(rest.as_str());
    let value = text::slice_of(&chars, 0, chars.len() - left.len());
    assert(value@ =~= text@.take(text@.len() - rest@.len()));
    Some((Member { name, value: text::string_of(&value) }, rest))
}

/// Reads the members of the object that a text spells.
pub(crate) fn read_members(content: &str) -> (r: Option<Vec<Member>>)
    ensures
        match r {
            Some(members) => outer_members(content@) == Some(member_views(members@)),
            None => outer_members(content@) is None,
        },
{
    let mut rest = match behind_char(content, '{') {
        Some(rest) => rest,
        None => {
            return None;
        },
    };
    let mut members: Vec<Member> = Vec::new();
    assert(member_views(members@) =~= Seq::empty());
    if let Some(end) = behind_char(rest.as_str(), '}') {
        if has_blanks_only(end.as_str()) {
            return Some(members);
        }
    }
    let ghost start = rest@;
    assert(outer_members(content@) == members_from(start));
    assert(members_from(start) is Some ==> members_from(start)->Some_0 =~= Seq::empty()
        + members_from(start)->Some_0);
    loop
        invariant
            outer_members(content@) == (match members_from(rest@) {
                Some(more) => Some(member_views(members@) + more),
                None => None,
            }),
        decreases rest@.len(),
    {
        let (member, after) = match read_member(rest.as_str()) {
            Some(found) => found,
            None => {
                return None;
            },
        };
        proof {
            lemma_after_blanks(after@);
        }
        let ghost was = member_views(members@);
        let ghost here = (member.name@, member.value@);
        if let Some(end) = behind_char(after.as_str(), '}') {
            if has_blanks_only(end.as_str()) {
                members.push(member);
                assert(member_views(members@) =~= was + seq![here]);
                return Some(members);
            }
        }
        match behind_char(after.as_str(), ',') {
            Some(next) => {
                members.push(member);
                assert(member_views(members@) =~= was.push(here));
                proof {
                    match members_from(next@) {
                        Some(more) => {
                            assert(was + (seq![here] + more) =~= was.push(here) + more);
                        },
                        None => {},
                    }
                }
                rest = next;
            },
            None => {
                return None;
            },
        }
    }
}

/// Where a name stands among members: nowhere, once, or more often.
pub enum Occurrence {
    Absent,
    Once(Seq<char>),
    Repeated,
}

/// Where a name stands among members, with the text of its value where it stands once.
pub open spec fn occurrence(members: Seq<(Seq<char>, Seq<char>)>, name: Seq<char>) -> Occurrence
    decreases members.len(),
{
    if members.len() == 0 {
        Occurrence::Absent
    } else {
        let before = occurrence(members.drop_last(), name);
        if members.last().0 != name {
            before
        } else if before is Absent {
            Occurrence::Once(members.last().1)
        } else {
            Occurrence::Repeated
        }
    }
}

/// Finds the value of a name that stands among members once at most. Where the name is
/// repeated there is an error, as there is for a field that is given twice.
pub(crate) fn find_member<'a>(members: &'a [Member], name: &str) -> (r: Result<Option<&'a str>, ()>)
    ensures
        match occurrence(member_views(members@), name@) {
            Occurrence::Absent => r is Ok && r->Ok_0 is None,
            Occurrence::Once(value) => r is Ok && r->Ok_0 is Some && r->Ok_0->Some_0@ == value,
            Occurrence::Repeated => r is Err,
        },
{
    let ghost all = member_views(members@);
    let mut found: Option<&'a str> = None;
    assert(all.take(0) =~= Seq::empty());
    for i in 0..members.len()
        invariant
            all == member_views(members@),
            match occurrence(all.take(i as int), name@) {
                Occurrence::Absent => found is None,
                Occurrence::Once(value) => found is Some && found->Some_0@ == value,
                Occurrence::Repeated => false,
            },
    {
        assert(all.take(i + 1).drop_last() =~= all.take(i as int));
        assert(all[i as int] == (members@[i as int].name@, members@[i as int].value@));
        if text::same_text(members[i].name.as_str(), name) {
            if found.is_some() {
                proof {
                    lemma_stays_repeated(all, i + 1, name@);
                }
                return Err(());
            }
            found = Some(members[i].value.as_str());
        }
    }
    assert(all.take(all.len() as int) =~= all);
    Ok(found)
}

/// What is repeated among some members is repeated among all.
proof fn lemma_stays_repeated(members: Seq<(Seq<char>, Seq<char>)>, i: int, name: Seq<char>)
    requires
        0 <= i <= members.len(),
        occurrence(members.take(i), name) is Repeated,
    ensures
        occurrence(members, name) is Repeated,
    decreases members.len(),
{
    if i == members.len() {
        assert(members.take(i) =~= members);
    } else {
        assert(members.drop_last().take(i) =~= members.take(i));
        lemma_stays_repeated(members.drop_last(), i, name);
    }
}

/// The string that a text spells, with nothing behind it.
pub open spec fn text_alone(content: Seq<char>) -> Option<Seq<char>> {
    match text_first(content) {
        Some((found, rest)) => if rest.len() == 0 {
            Some(found)
        } else {
            None
        },
        None => None,
    }
}

/// Reads the string that a text spells.
pub(crate) fn read_text(content: &str) -> (r: Option<String>)
    ensures
        match r {
            Some(found) => text_alone(content@) == Some(found@),
            None => text_alone(content@) is None,
        },
{
    match first_text(content) {
        Some((found, rest)) => {
            let left = text::chars_of(rest.as_str());
            if left.len() == 0 {
                Some(found)
            } else {
                None
            }
        },
        None => None,
    }
}

/// The text spells an object with those members, each name once: a string as that
/// string, and an object of strings as that object.
pub open spec fn spells_members(content: Seq<char>, members: Map<Seq<char>, Json>) -> bool {
    &&& outer_members(content) is Some
    &&& forall|name: Seq<char>|
        match #[trigger] occurrence(outer_members(content)->Some_0, name) {
            Occurrence::Absent => !members.contains_key(name),
            Occurrence::Once(value) => members.contains_key(name) && (members[name] is Text
                ==> text_alone(value) == Some(members[name]->Text_0)) && (strings_of(
                members[name],
            ) is Some ==> strings_in(value) == strings_of(members[name])),
            Occurrence::Repeated => false,
        }
}

/// Reads a string and an object of strings out of the text of an array.
pub(crate) fn read_pair(content: &str) -> (r: Option<(String, StrMap<String>)>)
    ensures
        match r {
            Some(pair) => pair_in(content@) == Some((pair.0@, pair.1@)),
            None => pair_in(content@) is None,
        },
{
    let (first, entries) = match parse_pair(content) {
        Some(pair) => pair,
        None => {
            return None;
        },
    };
    Some((first, string_map(&entries)))
}

// ---------------------------------------------------------------------------
// Objects of strings
// ---------------------------------------------------------------------------

/// The members of an object all of whose members are strings.
pub open spec fn strings_of(document: Json) -> Option<Map<Seq<char>, Seq<char>>> {
    if document is Object && forall|name: Seq<char>| #[trigger]
        document->Object_0.contains_key(name) ==> document->Object_0[name] is Text {
        Some(document->Object_0.map_values(|inner: Json| inner->Text_0))
    } else {
        None
    }
}

/// The members of a value that are strings; of anything but an object, none.
pub open spec fn string_members(document: Json) -> Map<Seq<char>, Seq<char>> {
    if document is Object {
        Map::new(
            |name: Seq<char>|
                document->Object_0.contains_key(name) && document->Object_0[name] is Text,
            |name: Seq<char>| document->Object_0[name]->Text_0,
        )
    } else {
        Map::empty()
    }
}

/// The object whose members are the given strings.
pub open spec fn object_of(strings: Map<Seq<char>, Seq<char>>) -> Json {
    Json::Object(strings.map_values(|content: Seq<char>| Json::Text(content)))
}

/// The string member of `value` under `name`.
pub(crate) fn text_member<'a>(value: &'a serde_json::Value, name: &str) -> (r: Option<&'a str>)
    ensures
        match r {
            Some(content) => string_members(json_of(*value)).contains_key(name@)
                && string_members(json_of(*value))[name@] == content@,
            None => !string_members(json_of(*value)).contains_key(name@),
        },
{
    match member(value, name) {
        Some(inner) => as_text(inner),
        None => None,
    }
}

/// Reads the string members of a value.
pub(crate) fn read_string_members(value: &serde_json::Value) -> (r: StrMap<String>)
    ensures
        r@ == string_members(json_of(*value)),
{
    let ghost document = json_of(*value);
    let mut r: StrMap<String> = StrMap::new();
    let names = match member_names(value) {
        Some(names) => names,
        None => {
            assert(r@ =~= string_members(document));
            return r;
        },
    };
    let ghost ns = text::views(names@);
    assert(ns.take(0) =~= Seq::empty());
    for i in 0..names.len()
        invariant
            document == json_of(*value),
            document is Object,
            ns == text::views(names@),
            ns.to_set() == document->Object_0.dom(),
            forall|name: Seq<char>| #[trigger] r@.contains_key(name) <==> (string_members(
                document,
            ).contains_key(name) && ns.take(i as int).contains(name)),
            forall|name: Seq<char>| #[trigger] r@.contains_key(name) ==> r@[name]
                == string_members(document)[name],
    {
        let name = names[i].as_str();
        assert(ns[i as int] == name@);
        if let Some(content) = text_member(value, name) {
            r.insert(text::owned(name), text::owned(content));
        }
        assert forall|k: Seq<char>| #[trigger] ns.take(i + 1).contains(k) <==> (ns.take(
            i as int,
        ).contains(k) || k == name@) by {
            text::lemma_take_contains(ns, i as int, k);
        }
    }
    assert(ns.take(ns.len() as int) =~= ns);
    assert forall|name: Seq<char>| string_members(document).contains_key(name) implies ns.contains(
        name,
    ) by {
        assert(ns.to_set().contains(name));
    }
    assert(r@ =~= string_members(document));
    r
}

/// Builds the object whose members are the given strings.
pub(crate) fn strings_value(strings: &StrMap<String>) -> (r: serde_json::Value)
    ensures
        json_of(r) == object_of(strings@),
{
    let keys = strings.keys();
    let ghost ks = text::views(keys@);
    let mut entries: Vec<(String, serde_json::Value)> = Vec::new();
    for i in 0..keys.len()
        invariant
            ks == text::views(keys@),
            crate::str_map::enumerates(ks, strings@.dom()),
            forall|name: Seq<char>| #[trigger] members_of(entries@).contains_key(name) <==> ks.take(
                i as int,
            ).contains(name),
            forall|name: Seq<char>| #[trigger] members_of(entries@).contains_key(name)
                ==> members_of(entries@)[name] == Json::Text(strings@[name]),
    {
        let key = keys[i].as_str();
        assert(ks[i as int] == key@);
        assert(ks.contains(key@));
        assert(strings@.dom().contains(key@));
        let ghost was = entries@;
        if let Some(content) = strings.get(key) {
            entries.push((text::owned(key), text_value(content.clone())));
            assert(entries@.drop_last() =~= was);
            assert(members_of(entries@) == members_of(was).insert(
                key@,
                Json::Text(strings@[key@]),
            ));
        } else {
            assert(!strings@.contains_key(key@));
        }
        assert forall|k: Seq<char>| #[trigger] ks.take(i + 1).contains(k) <==> (ks.take(
            i as int,
        ).contains(k) || k == key@) by {
            text::lemma_take_contains(ks, i as int, k);
        }
    }
    assert(ks.take(ks.len() as int) =~= ks);
    assert forall|k: Seq<char>| ks.contains(k) <==> #[trigger] strings@.contains_key(k) by {
        assert(strings@.dom().contains(k) <==> ks.contains(k));
    }
    assert(members_of(entries@) =~= strings@.map_values(|content: Seq<char>| Json::Text(content)));
    object_value(entries)
}

/// An object of strings is read back as the strings that it was built from.
pub proof fn lemma_strings_of_object(strings: Map<Seq<char>, Seq<char>>)
    ensures
        strings_of(object_of(strings)) == Some(strings),
{
    let document = object_of(strings);
    assert(document->Object_0.map_values(|inner: Json| inner->Text_0) =~= strings);
}

/// A name that stands at one place only stands there once.
pub proof fn lemma_only_occurrence(
    members: Seq<(Seq<char>, Seq<char>)>,
    name: Seq<char>,
    i: int,
)
    requires
        0 <= i < members.len(),
        members[i].0 == name,
        forall|k: int| 0 <= k < members.len() && k != i ==> (#[trigger] members[k]).0 != name,
    ensures
        occurrence(members, name) == Occurrence::Once(members[i].1),
    decreases members.len(),
{
    let fewer = members.drop_last();
    if i == members.len() - 1 {
        lemma_no_occurrence(fewer, name);
    } else {
        assert(fewer[i] == members[i]);
        assert forall|k: int| 0 <= k < fewer.len() && k != i implies (#[trigger] fewer[k]).0
            != name by {
            assert(fewer[k] == members[k]);
        }
        lemma_only_occurrence(fewer, name, i);
        assert(members[members.len() - 1].0 != name);
    }
}

/// A name that stands nowhere is absent.
pub proof fn lemma_no_occurrence(members: Seq<(Seq<char>, Seq<char>)>, name: Seq<char>)
    requires
        forall|k: int| 0 <= k < members.len() ==> (#[trigger] members[k]).0 != name,
    ensures
        occurrence(members, name) is Absent,
    decreases members.len(),
{
    if members.len() > 0 {
        let fewer = members.drop_last();
        assert forall|k: int| 0 <= k < fewer.len() implies (#[trigger] fewer[k]).0 != name by {
            assert(fewer[k] == members[k]);
        }
        lemma_no_occurrence(fewer, name);
        assert(members[members.len() - 1].0 != name);
    }
}

/// A name that stands at two places is repeated.
pub proof fn lemma_two_occurrences(
    members: Seq<(Seq<char>, Seq<char>)>,
    name: Seq<char>,
    i: int,
    j: int,
)
    requires
        0 <= i < j < members.len(),
        members[i].0 == name,
        members[j].0 == name,
    ensures
        occurrence(members, name) is Repeated,
    decreases members.len(),
{
    let fewer = members.drop_last();
    if j < members.len() - 1 {
        lemma_two_occurrences(fewer, name, i, j);
    } else {
        lemma_some_occurrence(fewer, name, i);
    }
}

proof fn lemma_some_occurrence(members: Seq<(Seq<char>, Seq<char>)>, name: Seq<char>, i: int)
    requires
        0 <= i < members.len(),
        members[i].0 == name,
    ensures
        !(occurrence(members, name) is Absent),
    decreases members.len(),
{
    if i < members.len() - 1 {
        lemma_some_occurrence(members.drop_last(), name, i);
    }
}

// ---------------------------------------------------------------------------
// What holds of documents
// ---------------------------------------------------------------------------

/// The string members of a document are those of an object, and only those that are
/// strings.
pub proof fn law_string_members_are_strings(document: Json, name: Seq<char>, value: Seq<char>)
    ensures
        string_members(document).contains_key(name) && string_members(document)[name] == value
            <==> document is Object && document->Object_0.contains_key(name)
            && document->Object_0[name] == Json::Text(value),
        strings_of(document) is Some ==> (strings_of(document)->Some_0.contains_key(name)
            && strings_of(document)->Some_0[name] == value <==> document->Object_0.contains_key(
            name,
        ) && document->Object_0[name] == Json::Text(value)),
        strings_of(document) is Some <==> document is Object && forall|other: Seq<char>| #[trigger]
            document->Object_0.contains_key(other) ==> document->Object_0[other] is Text,
{
}

/// Members are read one after the other: what follows a comma are the members that would be
/// read on their own.
pub proof fn law_members_are_read_in_order(
    content: Seq<char>,
    name: Seq<char>,
    value: Seq<char>,
    rest: Seq<char>,
)
    requires
        first_member(content) == Some((name, value, rest)),
        rest.len() > 0,
        rest.len() <= content.len(),
        !is_blank(rest[0]),
    ensures
        rest[0] == ',' ==> (members_from(content) is Some <==> members_from(
            rest.drop_first(),
        ) is Some),
        rest[0] == ',' && members_from(content) is Some ==> members_from(content)->Some_0 == seq![
            (name, value),
        ] + members_from(rest.drop_first())->Some_0,
        rest == seq!['}'] ==> members_from(content) == Some(seq![(name, value)]),
        rest[0] != ',' && rest[0] != '}' ==> members_from(content) is None,
{
    if rest == seq!['}'] {
        assert(rest.drop_first() =~= Seq::empty());
    }
}

/// A member is a string, a colon and a value, which stands for itself.
pub proof fn law_members_are_named_values(
    content: Seq<char>,
    name: Seq<char>,
    value: Seq<char>,
    rest: Seq<char>,
)
    requires
        text_first(content) == Some((name, seq![':'] + value + rest)),
        value_rest(value + rest) == Some(rest),
    ensures
        first_member(content) == Some((name, value, rest)),
{
    let after = seq![':'] + value + rest;
    assert(after[0] == ':');
    assert(after.drop_first() =~= value + rest);
    assert((value + rest).take((value + rest).len() - rest.len()) =~= value);
}

/// Blanks are spaces, tabs and the ends of lines, and nothing else.
pub proof fn law_four_characters_are_blank(c: char, s: Seq<char>)
    ensures
        c == ' ' || c == '\n' || c == '\t' || c == '\r' ==> after_blanks(seq![c] + s)
            == after_blanks(s),
        !(c == ' ' || c == '\n' || c == '\t' || c == '\r') ==> after_blanks(seq![c] + s) == seq![c]
            + s,
        after_blanks(Seq::empty()).len() == 0,
{
    assert((seq![c] + s).drop_first() =~= s);
}

/// An object stands in braces, with its members between them or with nothing.
pub proof fn law_objects_stand_in_braces(inner: Seq<char>, other: Seq<char>)
    ensures
        outer_members(seq!['{', '}']) == Some(Seq::<(Seq<char>, Seq<char>)>::empty()),
        inner.len() > 0 && !is_blank(inner[0]) && inner[0] != '}' ==> outer_members(
            seq!['{'] + inner,
        ) == members_from(inner),
        other.len() > 0 && !is_blank(other[0]) && other[0] != '{' ==> outer_members(other) is None,
{
    let braces = seq!['{', '}'];
    let close = seq!['}'];
    let none = Seq::<char>::empty();
    assert(braces.drop_first() =~= close);
    assert(close.drop_first() =~= none);
    assert(after_blanks(braces) == braces);
    assert(after_blanks(close) == close);
    assert(after_blanks(none) == none);
    let whole = seq!['{'] + inner;
    assert(whole.drop_first() =~= inner);
}

} // verus!
