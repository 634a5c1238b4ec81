//! `global.json`: which SDK and which test runner govern a project.

use crate::discovery::DirEntry;
use crate::discovery::DirListing;
use crate::discovery::DirPath;
use crate::discovery::EntryKind;
use crate::discovery::PathView;
use crate::json;
use crate::json::Json;
use crate::text;
use vstd::prelude::*;

verus! {

/// Some entry of the directory is a file of that name.
pub open spec fn holds_file(entries: Seq<DirEntry>, name: Seq<char>) -> bool {
    exists|i: int|
        0 <= i < entries.len() && (#[trigger] entries[i]).name@ == name && entries[i].kind
            == EntryKind::File
}

/// The `global.json` that governs a directory: the one in the nearest of the
/// directories from there up that holds one.
pub open spec fn governing_file(levels: Seq<DirListing>) -> Option<PathView>
    decreases levels.len(),
{
    if levels.len() == 0 {
        None
    } else if holds_file(levels[0].entries@, "global.json"@) {
        Some(levels[0].path@.join("global.json"@))
    } else {
        governing_file(levels.drop_first())
    }
}

/// Whether some entry of the directory is a file of that name.
pub(crate) fn has_file(entries: &[DirEntry], name: &str) -> (r: bool)
    ensures
        r == holds_file(entries@, name@),
{
    for i in 0..entries.len()
        invariant
            forall|j: int|
                0 <= j < i ==> !((#[trigger] entries@[j]).name@ == name@ && entries@[j].kind
                    == EntryKind::File),
    {
        if entries[i].kind == EntryKind::File && text::same_text(entries[i].name.as_str(), name) {
            assert(entries@[i as int].name@ == name@);
            return true;
        }
    }
    false
}

/// The `global.json` that governs a directory. `levels` are the listings of the
/// directories from there up to the workspace root.
pub fn find_global_json(levels: &[DirListing]) -> (r: Option<DirPath>)
    ensures
        match r {
            Some(file) => governing_file(levels@) == Some(file@),
            None => governing_file(levels@) is None,
        },
{
    assert(levels@.skip(0) =~= levels@);
    for i in 0..levels.len()
        invariant
            governing_file(levels@) == governing_file(levels@.skip(i as int)),
    {
        assert(levels@.skip(i as int).drop_first() =~= levels@.skip(i + 1));
        if has_file(&levels[i].entries, "global.json") {
            return Some(levels[i].path.join("global.json"));
        }
    }
    assert(levels@.skip(levels@.len() as int).len() == 0);
    None
}

/// The text at `section` and `key` of a JSON document.
pub open spec fn setting(document: Json, section: Seq<char>, key: Seq<char>) -> Option<Seq<char>> {
    if document is Object && document->Object_0.contains_key(section) && json::string_members(
        document->Object_0[section],
    ).contains_key(key) {
        Some(json::string_members(document->Object_0[section])[key])
    } else {
        None
    }
}

/// The text at `section` and `key` of what a text spells.
pub open spec fn setting_in(
    content: Seq<char>,
    section: Seq<char>,
    key: Seq<char>,
) -> Option<Seq<char>> {
    match json::json_in(content) {
        Some(document) => setting(document, section, key),
        None => None,
    }
}

/// Reads the text at `section` and `key` of a parsed `global.json`.
pub fn read_setting(document: &serde_json::Value, section: &str, key: &str) -> (r: Option<String>)
    ensures
        match r {
            Some(found) => setting(json::json_of(*document), section@, key@) == Some(found@),
            None => setting(json::json_of(*document), section@, key@) is None,
        },
{
    match json::member(document, section) {
        Some(inner) => match json::text_member(inner, key) {
            Some(found) => Some(text::owned(found)),
            None => None,
        },
        None => None,
    }
}

/// The SDK version that a `global.json` pins, if it pins one.
pub fn sdk_version(content: &str) -> (r: Option<String>)
    ensures
        match r {
            Some(version) => setting_in(content@, "sdk"@, "version"@) == Some(version@),
            None => setting_in(content@, "sdk"@, "version"@) is None,
        },
{
    match json::parse(content) {
        Ok(document) => read_setting(&document, "sdk", "version"),
        Err(_) => None,
    }
}

/// Whether a `global.json` selects Microsoft.Testing.Platform for `dotnet test`, with
/// `{"test": {"runner": "Microsoft.Testing.Platform"}}`.
pub fn selects_test_platform(content: &str) -> (r: bool)
    ensures
        r == (setting_in(content@, "test"@, "runner"@) == Some("Microsoft.Testing.Platform"@)),
{
    let runner = match json::parse(content) {
        Ok(document) => read_setting(&document, "test", "runner"),
        Err(_) => None,
    };
    match runner {
        Some(runner) => text::same_text(runner.as_str(), "Microsoft.Testing.Platform"),
        None => false,
    }
}

/// The governing file is the `global.json` of the nearest directory that holds one as a
/// plain file; there is none exactly where no directory holds one.
pub proof fn law_the_nearest_file_governs(levels: Seq<DirListing>, i: int)
    requires
        0 <= i < levels.len(),
        crate::discovery::is_file_of(levels[i].entries@, "global.json"@),
        forall|j: int|
            0 <= j < i ==> !crate::discovery::is_file_of(
                (#[trigger] levels[j]).entries@,
                "global.json"@,
            ),
    ensures
        governing_file(levels) == Some(levels[i].path@.join("global.json"@)),
    decreases levels.len(),
{
    lemma_holds_file(levels[0].entries@, "global.json"@);
    if i > 0 {
        let rest = levels.drop_first();
        assert(rest[i - 1] == levels[i]);
        assert(!crate::discovery::is_file_of(levels[0].entries@, "global.json"@));
        assert forall|j: int| 0 <= j < i - 1 implies !crate::discovery::is_file_of(
            (#[trigger] rest[j]).entries@,
            "global.json"@,
        ) by {
            assert(rest[j] == levels[j + 1]);
        }
        law_the_nearest_file_governs(rest, i - 1);
    }
}

/// Nothing governs where no directory holds a `global.json`.
pub proof fn law_nothing_governs_without_a_file(levels: Seq<DirListing>)
    requires
        forall|j: int|
            0 <= j < levels.len() ==> !crate::discovery::is_file_of(
                (#[trigger] levels[j]).entries@,
                "global.json"@,
            ),
    ensures
        governing_file(levels) is None,
    decreases levels.len(),
{
    if levels.len() > 0 {
        let rest = levels.drop_first();
        lemma_holds_file(levels[0].entries@, "global.json"@);
        assert(!crate::discovery::is_file_of(levels[0].entries@, "global.json"@));
        assert forall|j: int| 0 <= j < rest.len() implies !crate::discovery::is_file_of(
            (#[trigger] rest[j]).entries@,
            "global.json"@,
        ) by {
            assert(rest[j] == levels[j + 1]);
        }
        law_nothing_governs_without_a_file(rest);
    }
}

proof fn lemma_holds_file(entries: Seq<DirEntry>, name: Seq<char>)
    ensures
        holds_file(entries, name) <==> crate::discovery::is_file_of(entries, name),
{
}

/// A setting is the text at a key of the object at a section; nothing else is.
pub proof fn law_settings_stand_in_their_section(
    document: Json,
    section: Seq<char>,
    key: Seq<char>,
    value: Seq<char>,
)
    ensures
        setting(document, section, key) == Some(value) <==> {
            &&& document is Object
            &&& document->Object_0.contains_key(section)
            &&& document->Object_0[section] is Object
            &&& document->Object_0[section]->Object_0.contains_key(key)
            &&& document->Object_0[section]->Object_0[key] == Json::Text(value)
        },
{
}

} // verus!
