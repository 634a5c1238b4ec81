//! MSBuild evaluation: what to ask of `dotnet msbuild`, and what its answers mean.

use crate::json;
use crate::json::Json;
use crate::str_map::StrMap;
use crate::text;
use vstd::prelude::*;

verus! {

// ---------------------------------------------------------------------------
// Paths
// ---------------------------------------------------------------------------

/// The form in which paths are looked up: forward slashes, lower case.
pub open spec fn path_key(path: Seq<char>) -> Seq<char> {
    text::in_lower_case(text::replaced(path, '\\', '/'))
}

/// Lexically normalize a host path for cross-referencing MSBuild output
/// against moon project paths: forward slashes, lowercased (paths on Windows
/// are case-insensitive; MSBuild output casing is not guaranteed to match
/// the on-disk casing moon reports). A key is its own key.
pub fn normalize_path_key(path: &str) -> (r: String)
    ensures
        r@ == path_key(path@),
        text::is_ascii(path@) ==> r@ == text::ascii_lower(text::replaced(path@, '\\', '/')),
        text::is_free_of(r@, '\\'),
        forall|i: int| 0 <= i < r@.len() ==> !('A' <= #[trigger] r@[i] && r@[i] <= 'Z'),
        path_key(r@) == r@,
{
    let forward = text::replace_char(path, '\\', '/');
    proof {
        if text::is_ascii(path@) {
            assert forall|i: int| 0 <= i < forward@.len() implies (#[trigger] forward@[i] as u32)
                < 128 by {
                assert((path@[i] as u32) < 128);
            }
            text::lemma_lowered_ascii(forward@);
        }
    }
    let r = text::to_lowercase(forward.as_str());
    assert(text::replaced(r@, '\\', '/') =~= r@);
    r
}

/// How a path is looked up does not depend on which slashes it is written with.
pub proof fn law_path_key_ignores_slashes(path: Seq<char>)
    ensures
        path_key(text::replaced(path, '\\', '/')) == path_key(path),
        path_key(text::replaced(path, '/', '\\')) == path_key(path),
{
    let forward = text::replaced(path, '\\', '/');
    assert(text::replaced(forward, '\\', '/') =~= forward);
    assert(text::replaced(text::replaced(path, '/', '\\'), '\\', '/') =~= forward);
}

/// Two paths that differ only in the case of ASCII letters and in which slashes they
/// are written with have one key, whatever other letters they hold.
pub proof fn law_path_key_ignores_case(path: Seq<char>, other: Seq<char>)
    requires
        text::same_ignoring_ascii_case(
            text::replaced(path, '\\', '/'),
            text::replaced(other, '\\', '/'),
        ),
    ensures
        path_key(path) == path_key(other),
{
    text::lemma_lowered_ignores_ascii_case(
        text::replaced(path, '\\', '/'),
        text::replaced(other, '\\', '/'),
    );
}

// ---------------------------------------------------------------------------
// Escaping
// ---------------------------------------------------------------------------

/// What one character of a literal path becomes inside an `Include` attribute.
pub open spec fn escaped_char(c: char) -> Seq<char> {
    if c == '%' {
        "%25"@
    } else if c == '$' {
        "%24"@
    } else if c == '@' {
        "%40"@
    } else if c == ';' {
        "%3B"@
    } else if c == '*' {
        "%2A"@
    } else if c == '?' {
        "%3F"@
    } else if c == '&' {
        "&amp;"@
    } else if c == '<' {
        "&lt;"@
    } else if c == '>' {
        "&gt;"@
    } else if c == '"' {
        "&quot;"@
    } else {
        seq![c]
    }
}

/// A literal path as the content of an `Include` attribute.
pub open spec fn escaped(path: Seq<char>) -> Seq<char> {
    text::concatenated(path.map_values(|c: char| escaped_char(c)))
}

/// Appends the escaped form of one character.
fn push_escaped(r: &mut Vec<char>, c: char)
    ensures
        final(r)@ == old(r)@ + escaped_char(c),
{
    if c == '%' {
        text::push_text(r, "%25");
    } else if c == '$' {
        text::push_text(r, "%24");
    } else if c == '@' {
        text::push_text(r, "%40");
    } else if c == ';' {
        text::push_text(r, "%3B");
    } else if c == '*' {
        text::push_text(r, "%2A");
    } else if c == '?' {
        text::push_text(r, "%3F");
    } else if c == '&' {
        text::push_text(r, "&amp;");
    } else if c == '<' {
        text::push_text(r, "&lt;");
    } else if c == '>' {
        text::push_text(r, "&gt;");
    } else if c == '"' {
        text::push_text(r, "&quot;");
    } else {
        let ghost was = r@;
        r.push(c);
        assert(was.push(c) =~= was + seq![c]);
    }
}

/// Escape a literal path for use inside an MSBuild `Include` attribute:
/// MSBuild's own special characters (property/item expansion, list
/// separators, globs) via `%XX` escapes, and XML attribute characters via
/// entities.
pub fn escape_msbuild_include(path: &str) -> (r: String)
    ensures
        r@ == escaped(path@),
{
    let chars = text::chars_of(path);
    let ghost parts = path@.map_values(|c: char| escaped_char(c));
    let mut r: Vec<char> = Vec::new();
    assert(parts.take(0) =~= Seq::empty());
    for i in 0..chars.len()
        invariant
            chars@ == path@,
            parts == path@.map_values(|c: char| escaped_char(c)),
            r@ == text::concatenated(parts.take(i as int)),
    {
        proof {
            text::lemma_concatenated_step(parts, i as int);
        }
        push_escaped(&mut r, chars[i]);
    }
    assert(parts.take(parts.len() as int) =~= parts);
    text::string_of(&r)
}

/// A character that MSBuild or XML reads as more than itself.
pub open spec fn is_special(c: char) -> bool {
    ||| c == '$'
    ||| c == '@'
    ||| c == '*'
    ||| c == '?'
    ||| c == '<'
    ||| c == '>'
    ||| c == '"'
}

proof fn lemma_escaped_char(c: char)
    ensures
        escaped_char(c).len() > 0,
        escaped_char(c).len() == 1 ==> escaped_char(c)[0] == c,
        escaped_char(c)[0] == '%' <==> (c == '%' || c == '$' || c == '@' || c == ';' || c == '*' || c
            == '?'),
        escaped_char(c)[0] == '&' <==> (c == '&' || c == '<' || c == '>' || c == '"'),
        escaped_char(c)[0] != '%' && escaped_char(c)[0] != '&' ==> escaped_char(c)[0] == c,
        forall|i: int| 0 <= i < escaped_char(c).len() ==> !is_special(#[trigger] escaped_char(c)[i]),
{
    reveal_strlit("%25");
    reveal_strlit("%24");
    reveal_strlit("%40");
    reveal_strlit("%3B");
    reveal_strlit("%2A");
    reveal_strlit("%3F");
    reveal_strlit("&amp;");
    reveal_strlit("&lt;");
    reveal_strlit("&gt;");
    reveal_strlit("&quot;");
}

/// Where the escaped forms of two characters differ.
proof fn lemma_escaped_chars_differ(a: char, b: char) -> (at: int)
    requires
        a != b,
    ensures
        0 <= at < escaped_char(a).len(),
        at < escaped_char(b).len(),
        escaped_char(a)[at] != escaped_char(b)[at],
{
    lemma_escaped_char(a);
    lemma_escaped_char(b);
    reveal_strlit("%25");
    reveal_strlit("%24");
    reveal_strlit("%40");
    reveal_strlit("%3B");
    reveal_strlit("%2A");
    reveal_strlit("%3F");
    reveal_strlit("&amp;");
    reveal_strlit("&lt;");
    reveal_strlit("&gt;");
    reveal_strlit("&quot;");
    if escaped_char(a)[0] != escaped_char(b)[0] {
        0
    } else if escaped_char(a)[1] != escaped_char(b)[1] {
        1
    } else {
        2
    }
}

proof fn lemma_escaped_front(path: Seq<char>)
    requires
        path.len() > 0,
    ensures
        escaped(path) == escaped_char(path[0]) + escaped(path.drop_first()),
{
    let parts = path.map_values(|c: char| escaped_char(c));
    text::lemma_concatenated_front(parts);
    assert(parts.drop_first() =~= path.drop_first().map_values(|c: char| escaped_char(c)));
}

/// An escaped path holds nothing that would be expanded as a property, an item or
/// a glob, or that would end the attribute or the element it stands in.
pub proof fn law_escaped_path_is_inert(path: Seq<char>)
    ensures
        forall|i: int| 0 <= i < escaped(path).len() ==> !is_special(#[trigger] escaped(path)[i]),
    decreases path.len(),
{
    if path.len() > 0 {
        lemma_escaped_front(path);
        lemma_escaped_char(path[0]);
        law_escaped_path_is_inert(path.drop_first());
        let first = escaped_char(path[0]);
        let rest = escaped(path.drop_first());
        assert forall|i: int| 0 <= i < escaped(path).len() implies !is_special(
            #[trigger] escaped(path)[i],
        ) by {
            if i >= first.len() {
                assert(escaped(path)[i] == rest[i - first.len()]);
            } else {
                assert(escaped(path)[i] == first[i]);
            }
        }
    }
}

/// A text as XML reads it: each of the entities for what it stands for.
pub open spec fn xml_decoded(s: Seq<char>) -> Seq<char>
    decreases s.len(),
{
    if s.len() == 0 {
        Seq::empty()
    } else if s.len() >= 5 && "&amp;"@.is_prefix_of(s) {
        seq!['&'] + xml_decoded(s.skip(5))
    } else if s.len() >= 4 && "&lt;"@.is_prefix_of(s) {
        seq!['<'] + xml_decoded(s.skip(4))
    } else if s.len() >= 4 && "&gt;"@.is_prefix_of(s) {
        seq!['>'] + xml_decoded(s.skip(4))
    } else if s.len() >= 6 && "&quot;"@.is_prefix_of(s) {
        seq!['"'] + xml_decoded(s.skip(6))
    } else {
        seq![s[0]] + xml_decoded(s.drop_first())
    }
}

/// A text as MSBuild reads it: each `%XX` for the character with that number.
pub open spec fn percent_decoded(s: Seq<char>) -> Seq<char>
    decreases s.len(),
{
    if s.len() == 0 {
        Seq::empty()
    } else if s.len() >= 3 && s[0] == '%' && text::hex_digit_value(s[1]) is Some && text::hex_digit_value(
        s[2],
    ) is Some {
        seq![
            ((16 * text::hex_digit_value(s[1])->Some_0 + text::hex_digit_value(s[2])->Some_0) as u8) as char,
        ] + percent_decoded(s.skip(3))
    } else {
        seq![s[0]] + percent_decoded(s.drop_first())
    }
}

/// What one character of a literal path becomes for MSBuild alone.
spec fn masked_char(c: char) -> Seq<char> {
    if c == '&' || c == '<' || c == '>' || c == '"' {
        seq![c]
    } else {
        escaped_char(c)
    }
}

/// A literal path as MSBuild is to read it.
spec fn masked(path: Seq<char>) -> Seq<char>
    decreases path.len(),
{
    if path.len() == 0 {
        Seq::empty()
    } else {
        masked_char(path[0]) + masked(path.drop_first())
    }
}

/// XML takes a character that begins no entity for itself.
proof fn lemma_xml_plain(c: char, rest: Seq<char>)
    requires
        c != '&',
    ensures
        xml_decoded(seq![c] + rest) == seq![c] + xml_decoded(rest),
{
    reveal_strlit("&amp;");
    reveal_strlit("&lt;");
    reveal_strlit("&gt;");
    reveal_strlit("&quot;");
    let s = seq![c] + rest;
    assert(s[0] == c);
    assert(s.drop_first() =~= rest);
    assert("&amp;"@[0] == '&' && "&lt;"@[0] == '&' && "&gt;"@[0] == '&' && "&quot;"@[0] == '&');
    assert(forall|p: Seq<char>| #[trigger] p.is_prefix_of(s) && p.len() > 0 ==> p[0] == s[0]);
}

/// XML takes what one character was escaped to for what MSBuild is to read.
proof fn lemma_xml_step(c: char, rest: Seq<char>)
    ensures
        xml_decoded(escaped_char(c) + rest) == masked_char(c) + xml_decoded(rest),
{
    let first = escaped_char(c);
    let s = first + rest;
    reveal_strlit("&amp;");
    reveal_strlit("&lt;");
    reveal_strlit("&gt;");
    reveal_strlit("&quot;");
    assert(s.subrange(0, first.len() as int) =~= first);
    assert(s.skip(first.len() as int) =~= rest);
    if c == '&' || c == '<' || c == '>' || c == '"' {
        assert(first.is_prefix_of(s));
        assert(forall|p: Seq<char>|
            #![trigger p.is_prefix_of(s)]
            p.is_prefix_of(s) && p.len() >= 2 ==> p[1] == s[1]);
        assert("&amp;"@[1] == 'a' && "&lt;"@[1] == 'l' && "&gt;"@[1] == 'g' && "&quot;"@[1] == 'q');
        assert(s[1] == first[1]);
    } else if first.len() == 1 {
        lemma_escaped_char(c);
        assert(first =~= seq![c]);
        lemma_xml_plain(c, rest);
    } else {
        lemma_escaped_char(c);
        lemma_percent_form(c);
        let two = seq![first[2]] + rest;
        let three = seq![first[1]] + two;
        assert(s =~= seq![first[0]] + three);
        lemma_xml_plain(first[2], rest);
        lemma_xml_plain(first[1], two);
        lemma_xml_plain(first[0], three);
        assert(xml_decoded(s) =~= first + xml_decoded(rest));
    }
}

/// The form of what MSBuild would read as more than itself.
proof fn lemma_percent_form(c: char)
    ensures
        escaped_char(c).len() > 1 && escaped_char(c) == masked_char(c) ==> {
            let form = escaped_char(c);
            &&& form.len() == 3
            &&& form[0] == '%'
            &&& form[1] != '&' && form[2] != '&'
            &&& text::hex_digit_value(form[1]) is Some
            &&& text::hex_digit_value(form[2]) is Some
            &&& ((16 * text::hex_digit_value(form[1])->Some_0 + text::hex_digit_value(form[2])->Some_0) as u8)
                as char == c
        },
        c == '%' ==> escaped_char(c).len() > 1,
{
    reveal_strlit("%25");
    reveal_strlit("%24");
    reveal_strlit("%40");
    reveal_strlit("%3B");
    reveal_strlit("%2A");
    reveal_strlit("%3F");
}

/// MSBuild takes what one character was masked to for that character.
proof fn lemma_percent_step(c: char, rest: Seq<char>)
    ensures
        percent_decoded(masked_char(c) + rest) == seq![c] + percent_decoded(rest),
{
    let form = masked_char(c);
    let s = form + rest;
    lemma_escaped_char(c);
    lemma_percent_form(c);
    assert(s.skip(form.len() as int) =~= rest);
    if form.len() == 1 {
        assert(form[0] == c);
        assert(c != '%');
        assert(s.drop_first() =~= rest);
    } else {
        assert(s[0] == form[0] && s[1] == form[1] && s[2] == form[2]);
    }
}

/// Read as XML and then by MSBuild, an escaped path is the path again.
pub proof fn law_escaped_path_reads_back(path: Seq<char>)
    ensures
        percent_decoded(xml_decoded(escaped(path))) == path,
{
    lemma_escaped_reads_as_masked(path);
    lemma_masked_reads_back(path);
}

proof fn lemma_escaped_reads_as_masked(path: Seq<char>)
    ensures
        xml_decoded(escaped(path)) == masked(path),
    decreases path.len(),
{
    if path.len() > 0 {
        lemma_escaped_front(path);
        lemma_xml_step(path[0], escaped(path.drop_first()));
        lemma_escaped_reads_as_masked(path.drop_first());
    } else {
        assert(escaped(path) =~= Seq::empty());
    }
}

proof fn lemma_masked_reads_back(path: Seq<char>)
    ensures
        percent_decoded(masked(path)) == path,
    decreases path.len(),
{
    if path.len() > 0 {
        lemma_percent_step(path[0], masked(path.drop_first()));
        lemma_masked_reads_back(path.drop_first());
        assert(seq![path[0]] + path.drop_first() =~= path);
    } else {
        assert(path =~= Seq::empty());
    }
}

/// Two different paths never look the same once they are escaped.
pub proof fn law_escaping_keeps_paths_apart(a: Seq<char>, b: Seq<char>)
    requires
        escaped(a) == escaped(b),
    ensures
        a == b,
    decreases a.len(),
{
    if a.len() > 0 {
        lemma_escaped_front(a);
        lemma_escaped_char(a[0]);
    }
    if b.len() > 0 {
        lemma_escaped_front(b);
        lemma_escaped_char(b[0]);
    }
    if a.len() > 0 && b.len() > 0 {
        if a[0] != b[0] {
            let at = lemma_escaped_chars_differ(a[0], b[0]);
            assert(escaped(a)[at] == escaped_char(a[0])[at]);
            assert(escaped(b)[at] == escaped_char(b[0])[at]);
        }
        let first = escaped_char(a[0]);
        let rest_a = escaped(a.drop_first());
        let rest_b = escaped(b.drop_first());
        assert(rest_a =~= escaped(a).skip(first.len() as int));
        assert(rest_b =~= escaped(b).skip(first.len() as int));
        law_escaping_keeps_paths_apart(a.drop_first(), b.drop_first());
        assert(a =~= seq![a[0]] + a.drop_first());
        assert(b =~= seq![b[0]] + b.drop_first());
    } else {
        assert(a.len() == 0 ==> escaped(a) =~= Seq::empty());
        assert(b.len() == 0 ==> escaped(b) =~= Seq::empty());
        assert(a =~= b);
    }
}

// ---------------------------------------------------------------------------
// What is asked
// ---------------------------------------------------------------------------

/// The exact `-getProperty` list requested per evaluation.
pub const EVAL_PROPERTIES: &'static str = "TargetFramework,TargetFrameworks,OutputType,IsTestProject,IsPackable,RestorePackagesWithLockFile,AssemblyName,Configuration,BaseOutputPath,BaseIntermediateOutputPath,PublishDir,TestingPlatformDotnetTestSupport";

/// The exact `-getItem` list requested per evaluation.
pub const EVAL_ITEMS: &'static str = "ProjectReference,PackageReference,PackageVersion";

/// The names of the properties requested per evaluation.
pub open spec fn eval_properties() -> Seq<Seq<char>> {
    text::split(EVAL_PROPERTIES@, ',')
}

/// The names of the properties requested per evaluation.
pub fn eval_property_names() -> (r: Vec<String>)
    ensures
        text::views(r@) == eval_properties(),
{
    text::split_text(EVAL_PROPERTIES, ',')
}

/// The line of the injected `.targets` file that reports one property.
pub open spec fn property_line(name: Seq<char>) -> Seq<char> {
    "        <"@ + name + ">$("@ + name + ")</"@ + name + ">\n"@
}

/// The injected `.targets` file.
pub open spec fn targets_xml() -> Seq<char> {
    "<Project>\n  <Target Name=\"MoonEvalInner\" Returns=\"@(_MoonEvalResult)\">\n    <ItemGroup>\n      <_MoonEvalResult Include=\"$(MSBuildProjectFullPath)\">\n"@
        + text::concatenated(eval_properties().map_values(|name: Seq<char>| property_line(name)))
        + "        <MoonProjectRefs>@(ProjectReference->'%(FullPath)', '|')</MoonProjectRefs>\n        <MoonPackageRefs>@(PackageReference->'%(Identity)@%(Version)', '|')</MoonPackageRefs>\n      </_MoonEvalResult>\n    </ItemGroup>\n  </Target>\n</Project>\n"@
}

/// The `.targets` file injected into every project during batched evaluation
/// (via the `CustomAfterMicrosoftCommon(CrossTargeting)Targets` hooks): a
/// target that returns the project's evaluation state as one item with
/// metadata. It runs as the entry target with no dependencies, so item state
/// when it executes is identical to evaluation state, the same answers as a
/// per-project `-getItem` query.
pub fn moon_eval_targets_xml() -> (r: String)
    ensures
        r@ == targets_xml(),
{
    let names = eval_property_names();
    let ghost lines = eval_properties().map_values(|name: Seq<char>| property_line(name));
    let mut r = text::chars_of(
        "<Project>\n  <Target Name=\"MoonEvalInner\" Returns=\"@(_MoonEvalResult)\">\n    <ItemGroup>\n      <_MoonEvalResult Include=\"$(MSBuildProjectFullPath)\">\n",
    );
    let ghost head = r@;
    assert(lines.take(0) =~= Seq::empty());
    assert(head + text::concatenated(lines.take(0)) =~= head);
    for i in 0..names.len()
        invariant
            text::views(names@) == eval_properties(),
            lines == eval_properties().map_values(|name: Seq<char>| property_line(name)),
            r@ == head + text::concatenated(lines.take(i as int)),
    {
        let name = names[i].as_str();
        let ghost was = r@;
        assert(name@ == text::views(names@)[i as int]);
        proof {
            text::lemma_concatenated_step(lines, i as int);
        }
        text::push_text(&mut r, "        <");
        text::push_text(&mut r, name);
        text::push_text(&mut r, ">$(");
        text::push_text(&mut r, name);
        text::push_text(&mut r, ")</");
        text::push_text(&mut r, name);
        text::push_text(&mut r, ">\n");
        assert(r@ =~= was + property_line(name@));
        assert(r@ =~= head + text::concatenated(lines.take(i + 1)));
    }
    assert(names@.len() == text::views(names@).len());
    assert(lines.take(lines.len() as int) =~= lines);
    text::push_text(
        &mut r,
        "        <MoonProjectRefs>@(ProjectReference->'%(FullPath)', '|')</MoonProjectRefs>\n        <MoonPackageRefs>@(PackageReference->'%(Identity)@%(Version)', '|')</MoonPackageRefs>\n      </_MoonEvalResult>\n    </ItemGroup>\n  </Target>\n</Project>\n",
    );
    text::string_of(&r)
}

/// The line of the traversal project that lists one project.
pub open spec fn include_line(path: Seq<char>) -> Seq<char> {
    "    <MoonProject Include=\""@ + escaped(path) + "\" />\n"@
}

/// What the traversal project begins with.
pub open spec fn traversal_head() -> Seq<char> {
    "<Project DefaultTargets=\"MoonCollect\">\n  <ItemGroup>\n"@
}

/// What the traversal project ends with.
pub open spec fn traversal_tail() -> Seq<char> {
    "  </ItemGroup>\n  <Target Name=\"MoonCollect\" Returns=\"@(MoonEval)\">\n    <MSBuild\n      Projects=\"@(MoonProject)\"\n      Targets=\"MoonEvalInner\"\n      BuildInParallel=\"true\"\n      ContinueOnError=\"WarnAndContinue\"\n      Properties=\"CustomAfterMicrosoftCommonTargets=$(MSBuildThisFileDirectory)moon-eval.targets;CustomAfterMicrosoftCommonCrossTargetingTargets=$(MSBuildThisFileDirectory)moon-eval.targets\">\n      <Output TaskParameter=\"TargetOutputs\" ItemName=\"MoonEval\" />\n    </MSBuild>\n  </Target>\n</Project>\n"@
}

/// The traversal project over the given projects.
pub open spec fn traversal_xml(paths: Seq<Seq<char>>) -> Seq<char> {
    traversal_head()
        + text::concatenated(paths.map_values(|path: Seq<char>| include_line(path)))
        + traversal_tail()
}

/// The traversal project for batched evaluation: fans out to every listed
/// project with `BuildInParallel` (in-process MSBuild worker nodes) and
/// collects the injected target's outputs. A raw `<Project>` with no `Sdk`
/// attribute imports nothing implicitly, so the workspace's own
/// `Directory.Build.props` cannot interfere with the traversal itself, while
/// the child projects still evaluate with their full normal import chains.
/// `ContinueOnError` keeps one broken project from aborting the batch: it
/// just goes missing from the output (and falls back to per-project
/// evaluation).
pub fn traversal_project_xml(project_paths: &[String]) -> (r: String)
    ensures
        r@ == traversal_xml(text::views(project_paths@)),
{
    let ghost paths = text::views(project_paths@);
    let ghost lines = paths.map_values(|path: Seq<char>| include_line(path));
    let mut r = text::chars_of("<Project DefaultTargets=\"MoonCollect\">\n  <ItemGroup>\n");
    let ghost head = r@;
    assert(lines.take(0) =~= Seq::empty());
    assert(head + text::concatenated(lines.take(0)) =~= head);
    for i in 0..project_paths.len()
        invariant
            paths == text::views(project_paths@),
            lines == paths.map_values(|path: Seq<char>| include_line(path)),
            r@ == head + text::concatenated(lines.take(i as int)),
    {
        let escaped_path = escape_msbuild_include(project_paths[i].as_str());
        let ghost was = r@;
        assert(paths[i as int] == project_paths@[i as int]@);
        proof {
            text::lemma_concatenated_step(lines, i as int);
        }
        text::push_text(&mut r, "    <MoonProject Include=\"");
        text::push_text(&mut r, escaped_path.as_str());
        text::push_text(&mut r, "\" />\n");
        assert(r@ =~= was + include_line(paths[i as int]));
        assert(r@ =~= head + text::concatenated(lines.take(i + 1)));
    }
    assert(lines.take(lines.len() as int) =~= lines);
    text::push_text(
        &mut r,
        "  </ItemGroup>\n  <Target Name=\"MoonCollect\" Returns=\"@(MoonEval)\">\n    <MSBuild\n      Projects=\"@(MoonProject)\"\n      Targets=\"MoonEvalInner\"\n      BuildInParallel=\"true\"\n      ContinueOnError=\"WarnAndContinue\"\n      Properties=\"CustomAfterMicrosoftCommonTargets=$(MSBuildThisFileDirectory)moon-eval.targets;CustomAfterMicrosoftCommonCrossTargetingTargets=$(MSBuildThisFileDirectory)moon-eval.targets\">\n      <Output TaskParameter=\"TargetOutputs\" ItemName=\"MoonEval\" />\n    </MSBuild>\n  </Target>\n</Project>\n",
    );
    text::string_of(&r)
}

/// The injected target reports every property that is requested of a single project.
pub proof fn law_targets_report_every_property(i: int)
    requires
        0 <= i < eval_properties().len(),
    ensures
        text::contains_text(targets_xml(), property_line(eval_properties()[i])),
{
    let lines = eval_properties().map_values(|name: Seq<char>| property_line(name));
    text::lemma_concatenated_contains(lines, i);
    text::lemma_contains_inside(
        "<Project>\n  <Target Name=\"MoonEvalInner\" Returns=\"@(_MoonEvalResult)\">\n    <ItemGroup>\n      <_MoonEvalResult Include=\"$(MSBuildProjectFullPath)\">\n"@,
        text::concatenated(lines),
        "        <MoonProjectRefs>@(ProjectReference->'%(FullPath)', '|')</MoonProjectRefs>\n        <MoonPackageRefs>@(PackageReference->'%(Identity)@%(Version)', '|')</MoonPackageRefs>\n      </_MoonEvalResult>\n    </ItemGroup>\n  </Target>\n</Project>\n"@,
        lines[i],
    );
}

/// The traversal project lists every project, escaped.
pub proof fn law_traversal_lists_every_project(paths: Seq<Seq<char>>, i: int)
    requires
        0 <= i < paths.len(),
    ensures
        text::contains_text(traversal_xml(paths), include_line(paths[i])),
{
    let lines = paths.map_values(|path: Seq<char>| include_line(path));
    text::lemma_concatenated_contains(lines, i);
    text::lemma_contains_inside(
        traversal_head(),
        text::concatenated(lines),
        traversal_tail(),
        lines[i],
    );
}

/// What a line that lists a project begins with.
pub open spec fn include_tag() -> Seq<char> {
    "<MoonProject Include="@
}

/// A place at which the listing of a project could begin.
spec fn may_begin(s: Seq<char>, i: int) -> bool {
    0 <= i && i + 2 < s.len() && s[i] == '<' && s[i + 1] == 'M' && s[i + 2] == 'o'
}

proof fn lemma_tag_begins(s: Seq<char>, i: int)
    requires
        text::occurs_at(s, include_tag(), i),
    ensures
        may_begin(s, i),
{
    reveal_strlit("<MoonProject Include=");
    let here = s.subrange(i, i + include_tag().len());
    assert(here[0] == s[i] && here[1] == s[i + 1] && here[2] == s[i + 2]);
}

/// No listing begins in the fixed text before the projects.
proof fn lemma_head_begins_nothing()
    ensures
        ({
            let head = traversal_head();
            head.len() > 2 && head[head.len() - 1] != '<' && head[head.len() - 2] != '<' && forall|i:
                int| !#[trigger] may_begin(head, i)
        }),
{
    reveal_strlit("<Project DefaultTargets=\"MoonCollect\">\n  <ItemGroup>\n");
}

/// No listing begins in the fixed text after the projects.
proof fn lemma_tail_begins_nothing()
    ensures
        ({
            let tail = traversal_tail();
            forall|i: int| !#[trigger] may_begin(tail, i)
        }),
{
    reveal_strlit("  </ItemGroup>\n  <Target Name=\"MoonCollect\" Returns=\"@(MoonEval)\">\n    <MSBuild\n      Projects=\"@(MoonProject)\"\n      Targets=\"MoonEvalInner\"\n      BuildInParallel=\"true\"\n      ContinueOnError=\"WarnAndContinue\"\n      Properties=\"CustomAfterMicrosoftCommonTargets=$(MSBuildThisFileDirectory)moon-eval.targets;CustomAfterMicrosoftCommonCrossTargetingTargets=$(MSBuildThisFileDirectory)moon-eval.targets\">\n      <Output TaskParameter=\"TargetOutputs\" ItemName=\"MoonEval\" />\n    </MSBuild>\n  </Target>\n</Project>\n");
}

/// Where a text holds no opening bracket, no listing begins.
proof fn lemma_plain_begins_nothing(a: Seq<char>, b: Seq<char>)
    requires
        text::is_free_of(a, '<'),
    ensures
        text::occurrences(a + b, include_tag()) == text::occurrences(b, include_tag()),
{
    assert forall|i: int| 0 <= i < a.len() implies !#[trigger] text::occurs_at(
        a + b,
        include_tag(),
        i,
    ) by {
        if text::occurs_at(a + b, include_tag(), i) {
            lemma_tag_begins(a + b, i);
            assert((a + b)[i] == a[i]);
        }
    }
    text::lemma_occurrences_skip(a, b, include_tag());
}

/// A line that lists a project does so once.
proof fn lemma_line_lists_once(path: Seq<char>, rest: Seq<char>)
    ensures
        text::occurrences(include_line(path) + rest, include_tag()) == text::occurrences(
            rest,
            include_tag(),
        ) + 1,
{
    let line = include_line(path);
    let open = "    <MoonProject Include=\""@;
    let close = "\" />\n"@;
    reveal_strlit("    <MoonProject Include=\"");
    reveal_strlit("\" />\n");
    reveal_strlit("<MoonProject Include=");
    law_escaped_path_is_inert(path);
    let indent = open.take(4);
    let listing = line.skip(4);
    let whole = listing + rest;
    assert(line + rest =~= indent + whole);
    lemma_plain_begins_nothing(indent, whole);
    assert(whole.subrange(0, include_tag().len() as int) =~= include_tag());
    assert(text::occurs_at(whole, include_tag(), 0));
    let after = listing.drop_first();
    assert(whole.drop_first() =~= after + rest);
    assert(text::is_free_of(after, '<')) by {
        assert forall|i: int| 0 <= i < after.len() implies after[i] != '<' by {
            let at = i + 5;
            assert(after[i] == line[at]);
            if at < open.len() {
                assert(line[at] == open[at]);
            } else if at < open.len() + escaped(path).len() {
                assert(line[at] == escaped(path)[at - open.len()]);
            } else {
                assert(line[at] == close[at - open.len() - escaped(path).len()]);
            }
        }
    }
    lemma_plain_begins_nothing(after, rest);
}

proof fn lemma_lines_list_once(paths: Seq<Seq<char>>, rest: Seq<char>)
    ensures
        text::occurrences(
            text::concatenated(paths.map_values(|path: Seq<char>| include_line(path))) + rest,
            include_tag(),
        ) == paths.len() + text::occurrences(rest, include_tag()),
    decreases paths.len(),
{
    let lines = paths.map_values(|path: Seq<char>| include_line(path));
    if paths.len() == 0 {
        assert(text::concatenated(lines) + rest =~= rest);
    } else {
        let fewer = paths.drop_first();
        text::lemma_concatenated_front(lines);
        assert(lines.drop_first() =~= fewer.map_values(|path: Seq<char>| include_line(path)));
        let more = text::concatenated(lines.drop_first()) + rest;
        assert(text::concatenated(lines) + rest =~= include_line(paths[0]) + more);
        lemma_lines_list_once(fewer, rest);
        lemma_line_lists_once(paths[0], more);
    }
}

/// The traversal project lists as many projects as it was given: whatever the paths
/// hold, each is listed once, and nothing else is.
pub proof fn law_traversal_lists_each_project_once(paths: Seq<Seq<char>>)
    ensures
        text::occurrences(traversal_xml(paths), include_tag()) == paths.len(),
{
    let head = traversal_head();
    let tail = traversal_tail();
    let none = Seq::<char>::empty();
    let body = text::concatenated(paths.map_values(|path: Seq<char>| include_line(path)));
    let rest = body + tail;
    lemma_head_begins_nothing();
    lemma_tail_begins_nothing();
    assert(traversal_xml(paths) =~= head + rest);
    assert forall|i: int| 0 <= i < head.len() implies !#[trigger] text::occurs_at(
        head + rest,
        include_tag(),
        i,
    ) by {
        if text::occurs_at(head + rest, include_tag(), i) {
            lemma_tag_begins(head + rest, i);
            assert((head + rest)[i] == head[i]);
            if i + 2 < head.len() {
                assert(may_begin(head, i));
            }
        }
    }
    text::lemma_occurrences_skip(head, rest, include_tag());
    lemma_lines_list_once(paths, tail);
    assert forall|i: int| 0 <= i < tail.len() implies !#[trigger] text::occurs_at(
        tail + none,
        include_tag(),
        i,
    ) by {
        if text::occurs_at(tail + none, include_tag(), i) {
            lemma_tag_begins(tail + none, i);
            assert(tail + none =~= tail);
            assert(may_begin(tail, i));
        }
    }
    text::lemma_occurrences_skip(tail, none, include_tag());
    assert(tail + none =~= tail);
}

// ---------------------------------------------------------------------------
// What is answered
// ---------------------------------------------------------------------------

/// One MSBuild item: its metadata by name.
#[derive(Debug, PartialEq, Eq)]
pub struct EvalItem {
    pub metadata: StrMap<String>,
}

impl DeepView for EvalItem {
    type V = Map<Seq<char>, Seq<char>>;

    open spec fn deep_view(&self) -> Map<Seq<char>, Seq<char>> {
        self.metadata@
    }
}

/// Result of an MSBuild evaluation via `dotnet msbuild -getProperty:... -getItem:...`.
#[derive(Debug, PartialEq, Eq)]
pub struct MsbuildEvaluation {
    pub properties: StrMap<String>,
    pub items: StrMap<Vec<EvalItem>>,
}

/// What an evaluation says: the properties by name, and the items by item type.
#[verifier::ext_equal]
pub struct EvalView {
    pub properties: Map<Seq<char>, Seq<char>>,
    pub items: Map<Seq<char>, Seq<Map<Seq<char>, Seq<char>>>>,
}

impl View for MsbuildEvaluation {
    type V = EvalView;

    open spec fn view(&self) -> EvalView {
        EvalView { properties: self.properties@, items: self.items@ }
    }
}

impl DeepView for MsbuildEvaluation {
    type V = EvalView;

    open spec fn deep_view(&self) -> EvalView {
        self.view()
    }
}

/// The value under `name`, or nothing at all where there is none.
pub open spec fn text_under(texts: Map<Seq<char>, Seq<char>>, name: Seq<char>) -> Seq<char> {
    if texts.contains_key(name) {
        texts[name]
    } else {
        Seq::empty()
    }
}

/// The `FullPath`s of the items that have one, in order.
pub open spec fn full_paths(items: Seq<Map<Seq<char>, Seq<char>>>) -> Seq<Seq<char>>
    decreases items.len(),
{
    if items.len() == 0 {
        Seq::empty()
    } else if items.last().contains_key("FullPath"@) {
        full_paths(items.drop_last()).push(items.last()["FullPath"@])
    } else {
        full_paths(items.drop_last())
    }
}

/// The version that an item declares; `*` where it declares none.
pub open spec fn declared_version(item: Map<Seq<char>, Seq<char>>) -> Seq<char> {
    if text_under(item, "Version"@).len() > 0 {
        item["Version"@]
    } else {
        "*"@
    }
}

/// `Identity` to declared version, over the items that have an `Identity`; of two
/// with the same one the later counts.
pub open spec fn versions_by_identity(items: Seq<Map<Seq<char>, Seq<char>>>) -> Map<
    Seq<char>,
    Seq<char>,
>
    decreases items.len(),
{
    if items.len() == 0 {
        Map::empty()
    } else if items.last().contains_key("Identity"@) {
        versions_by_identity(items.drop_last()).insert(
            items.last()["Identity"@],
            declared_version(items.last()),
        )
    } else {
        versions_by_identity(items.drop_last())
    }
}

impl EvalView {
    /// The evaluated value of a property; empty where it was not reported.
    pub open spec fn property(self, name: Seq<char>) -> Seq<char> {
        text_under(self.properties, name)
    }

    /// The items of one type.
    pub open spec fn items_of(self, item_type: Seq<char>) -> Seq<Map<Seq<char>, Seq<char>>> {
        if self.items.contains_key(item_type) {
            self.items[item_type]
        } else {
            Seq::empty()
        }
    }

    /// The projects that are referenced.
    pub open spec fn project_reference_paths(self) -> Seq<Seq<char>> {
        full_paths(self.items_of("ProjectReference"@))
    }

    /// The packages that are referenced, with their declared versions.
    pub open spec fn package_references(self) -> Map<Seq<char>, Seq<char>> {
        versions_by_identity(self.items_of("PackageReference"@))
    }

    /// The centrally declared package versions.
    pub open spec fn package_versions(self) -> Map<Seq<char>, Seq<char>> {
        versions_by_identity(self.items_of("PackageVersion"@))
    }
}

/// The evaluation that reports nothing.
pub open spec fn nothing_evaluated() -> EvalView {
    EvalView { properties: Map::empty(), items: Map::empty() }
}

impl Default for MsbuildEvaluation {
    fn default() -> (r: Self)
        ensures
            r@ == nothing_evaluated(),
    {
        MsbuildEvaluation { properties: StrMap::new(), items: StrMap::new() }
    }
}

/// `FullPath` of each of the items that has one.
fn read_full_paths(items: &[EvalItem]) -> (r: Vec<String>)
    ensures
        text::views(r@) == full_paths(items@.map_values(|item: EvalItem| item.deep_view())),
{
    let ghost views = items@.map_values(|item: EvalItem| item.deep_view());
    let mut r: Vec<String> = Vec::new();
    assert(views.take(0) =~= Seq::empty());
    assert(text::views(r@) =~= full_paths(views.take(0)));
    for i in 0..items.len()
        invariant
            views == items@.map_values(|item: EvalItem| item.deep_view()),
            text::views(r@) == full_paths(views.take(i as int)),
    {
        assert(views.take(i + 1).drop_last() =~= views.take(i as int));
        assert(views.take(i + 1).last() == items@[i as int].metadata@);
        if let Some(path) = items[i].metadata.get("FullPath") {
            let found = path.clone();
            proof {
                text::lemma_views_push(r@, found);
            }
            r.push(found);
        }
    }
    assert(views.take(views.len() as int) =~= views);
    r
}

/// `Identity` to declared version over the items.
fn read_versions(items: &[EvalItem]) -> (r: StrMap<String>)
    ensures
        r@ == versions_by_identity(items@.map_values(|item: EvalItem| item.deep_view())),
{
    let ghost views = items@.map_values(|item: EvalItem| item.deep_view());
    let mut r: StrMap<String> = StrMap::new();
    assert(views.take(0) =~= Seq::empty());
    for i in 0..items.len()
        invariant
            views == items@.map_values(|item: EvalItem| item.deep_view()),
            r@ == versions_by_identity(views.take(i as int)),
    {
        assert(views.take(i + 1).drop_last() =~= views.take(i as int));
        assert(views.take(i + 1).last() == items@[i as int].metadata@);
        if let Some(identity) = items[i].metadata.get("Identity") {
            let version = match items[i].metadata.get("Version") {
                Some(version) => if version.as_str().is_empty() {
                    text::owned("*")
                } else {
                    version.clone()
                },
                None => text::owned("*"),
            };
            r.insert(identity.clone(), version);
        }
    }
    assert(views.take(views.len() as int) =~= views);
    r
}

impl MsbuildEvaluation {
    /// The evaluated value of a property; empty where it was not reported.
    pub fn property(&self, name: &str) -> (r: &str)
        ensures
            r@ == self@.property(name@),
    {
        match self.properties.get(name) {
            Some(value) => value.as_str(),
            None => {
                proof {
                    reveal_strlit("");
                    assert(""@ =~= Seq::empty());
                }
                ""
            },
        }
    }

    /// `FullPath` of every ProjectReference item (host-real absolute paths).
    pub fn project_reference_paths(&self) -> (r: Vec<String>)
        ensures
            text::views(r@) == self@.project_reference_paths(),
    {
        match self.items.get("ProjectReference") {
            Some(items) => {
                assert(items.deep_view() =~= items@.map_values(|item: EvalItem| item.deep_view()));
                read_full_paths(items)
            },
            None => {
                let r: Vec<String> = Vec::new();
                assert(text::views(r@) =~= Seq::empty());
                r
            },
        }
    }

    /// PackageReference `Identity` -> `Version` (missing version becomes `*`).
    pub fn package_references(&self) -> (r: StrMap<String>)
        ensures
            r@ == self@.package_references(),
    {
        match self.items.get("PackageReference") {
            Some(items) => {
                assert(items.deep_view() =~= items@.map_values(|item: EvalItem| item.deep_view()));
                read_versions(items)
            },
            None => StrMap::new(),
        }
    }

    /// PackageVersion `Identity` -> `Version`, the versions that Central Package
    /// Management declares (missing version becomes `*`).
    pub fn package_versions(&self) -> (r: StrMap<String>)
        ensures
            r@ == self@.package_versions(),
    {
        match self.items.get("PackageVersion") {
            Some(items) => {
                assert(items.deep_view() =~= items@.map_values(|item: EvalItem| item.deep_view()));
                read_versions(items)
            },
            None => StrMap::new(),
        }
    }
}

// ---------------------------------------------------------------------------
// Reading an answer
// ---------------------------------------------------------------------------

/// Why an answer of MSBuild could not be used.
#[derive(Debug)]
pub enum EvalError {
    /// No JSON found in MSBuild output.
    NoJson,
    /// What looked like JSON is none.
    Json(serde_json::Error),
    /// The JSON document is no evaluation.
    Shape,
    /// MSBuild itself failed, with what it printed.
    Failed(String),
}

/// The items of the elements of an array. Of an item only the metadata that are strings
/// count.
pub open spec fn item_list(elements: Seq<Json>) -> Seq<Map<Seq<char>, Seq<char>>> {
    elements.map_values(|item: Json| json::string_members(item))
}

/// The items of each of the arrays.
pub open spec fn item_lists(lists: Map<Seq<char>, Seq<Json>>) -> Map<
    Seq<char>,
    Seq<Map<Seq<char>, Seq<char>>>,
> {
    lists.map_values(|elements: Seq<Json>| item_list(elements))
}

/// The properties that the text of that field gives: an object of strings, or none where
/// the field is missing.
pub open spec fn properties_in(field: json::Occurrence) -> Option<Map<Seq<char>, Seq<char>>> {
    match field {
        json::Occurrence::Absent => Some(Map::empty()),
        json::Occurrence::Once(value) => json::strings_in(value),
        json::Occurrence::Repeated => None,
    }
}

/// The arrays that the text of that field gives: an object of arrays, or none where the
/// field is missing. The text is read inside brackets, so that it counts as deep as it
/// stands in the answer: how deep a document may go is limited.
pub open spec fn lists_in_field(field: json::Occurrence) -> Option<Map<Seq<char>, Seq<Json>>> {
    match field {
        json::Occurrence::Absent => Some(Map::empty()),
        json::Occurrence::Once(value) => json::lists_in("["@ + value + "]"@),
        json::Occurrence::Repeated => None,
    }
}

/// The evaluation with those properties and those items.
pub open spec fn evaluation_of(
    properties: Map<Seq<char>, Seq<char>>,
    lists: Map<Seq<char>, Seq<Json>>,
) -> EvalView {
    EvalView { properties, items: item_lists(lists) }
}

/// The evaluation that a text spells: an object with an object of strings under
/// `Properties` and an object of arrays under `Items`. Either may be missing, neither may
/// be repeated, and whatever else the object has is not looked into.
pub open spec fn evaluation_in(content: Seq<char>) -> Option<EvalView> {
    match json::outer_members(content) {
        Some(members) => match (
            properties_in(json::occurrence(members, "Properties"@)),
            lists_in_field(json::occurrence(members, "Items"@)),
        ) {
            (Some(properties), Some(lists)) => Some(evaluation_of(properties, lists)),
            _ => None,
        },
        None => None,
    }
}

/// What there is of an output from its first `{` on.
pub open spec fn json_part(stdout: Seq<char>) -> Option<Seq<char>> {
    match text::first_index(stdout, '{') {
        Some(start) => Some(stdout.skip(start)),
        None => None,
    }
}

/// The result of reading an MSBuild output is the right one.
pub open spec fn reads_as(stdout: Seq<char>, r: Result<EvalView, EvalError>) -> bool {
    match json_part(stdout) {
        None => r is Err && r->Err_0 is NoJson,
        Some(content) => match evaluation_in(content) {
            Some(evaluation) => r is Ok && r->Ok_0 == evaluation,
            None => r is Err && (if json::json_in(content) is None {
                r->Err_0 is Json
            } else {
                r->Err_0 is Shape
            }),
        },
    }
}

/// Reads the items of the elements of an array.
fn read_items(elements: &Vec<serde_json::Value>) -> (r: Vec<EvalItem>)
    ensures
        r.deep_view() == item_list(
            elements@.map_values(|element: serde_json::Value| json::json_of(element)),
        ),
{
    let mut r: Vec<EvalItem> = Vec::new();
    for i in 0..elements.len()
        invariant
            r@.len() == i,
            forall|j: int|
                0 <= j < i ==> (#[trigger] r@[j]).deep_view() == json::string_members(
                    json::json_of(elements@[j]),
                ),
    {
        r.push(EvalItem { metadata: json::read_string_members(&elements[i]) });
    }
    assert(r.deep_view() =~= item_list(
        elements@.map_values(|element: serde_json::Value| json::json_of(element)),
    ));
    r
}

/// Reads an evaluation out of its properties and the arrays of its items.
pub fn read_evaluation(
    properties: StrMap<String>,
    lists: &[(String, Vec<serde_json::Value>)],
) -> (r: MsbuildEvaluation)
    ensures
        r@ == evaluation_of(properties@, json::list_map(lists@)),
{
    let mut items: StrMap<Vec<EvalItem>> = StrMap::new();
    assert(lists@.take(0) =~= Seq::empty());
    assert(items@ =~= item_lists(json::list_map(lists@.take(0))));
    for i in 0..lists.len()
        invariant
            items@ == item_lists(json::list_map(lists@.take(i as int))),
    {
        assert(lists@.take(i + 1).drop_last() =~= lists@.take(i as int));
        items.insert(lists[i].0.clone(), read_items(&lists[i].1));
        assert(items@ =~= item_lists(json::list_map(lists@.take(i + 1))));
    }
    assert(lists@.take(lists@.len() as int) =~= lists@);
    MsbuildEvaluation { properties, items }
}

/// Reads the properties of an answer.
fn read_properties(members: &[json::Member]) -> (r: Option<StrMap<String>>)
    ensures
        ({
            let field = json::occurrence(json::member_views(members@), "Properties"@);
            match r {
                Some(properties) => properties_in(field) == Some(properties@),
                None => properties_in(field) is None,
            }
        }),
{
    match json::find_member(members, "Properties") {
        Ok(Some(value)) => match json::read_string_map(value) {
            Ok(properties) => Some(properties),
            Err(_) => None,
        },
        Ok(None) => Some(StrMap::new()),
        Err(_) => None,
    }
}

/// Reads the arrays of the items of an answer.
fn read_lists(members: &[json::Member]) -> (r: Option<Vec<(String, Vec<serde_json::Value>)>>)
    ensures
        ({
            let field = json::occurrence(json::member_views(members@), "Items"@);
            match r {
                Some(lists) => lists_in_field(field) == Some(json::list_map(lists@)),
                None => lists_in_field(field) is None,
            }
        }),
{
    match json::find_member(members, "Items") {
        Ok(Some(value)) => {
            let open = text::concat("[", value);
            let closed = text::concat(open.as_str(), "]");
            json::parse_lists(closed.as_str())
        },
        Ok(None) => Some(Vec::new()),
        Err(_) => None,
    }
}

/// Reads the evaluation that a text spells.
fn read_answer(content: &str) -> (r: Option<MsbuildEvaluation>)
    ensures
        match r {
            Some(evaluation) => evaluation_in(content@) == Some(evaluation@),
            None => evaluation_in(content@) is None,
        },
{
    let members = match json::read_members(content) {
        Some(members) => members,
        None => {
            return None;
        },
    };
    match (read_properties(&members), read_lists(&members)) {
        (Some(properties), Some(lists)) => Some(read_evaluation(properties, &lists)),
        _ => None,
    }
}

/// Parse the stdout of an MSBuild `-get*` invocation. MSBuild may print stray
/// warnings before the JSON: start at the first `{`.
pub fn parse_msbuild_output(stdout: &str) -> (r: Result<MsbuildEvaluation, EvalError>)
    ensures
        match r {
            Ok(evaluation) => reads_as(stdout@, Ok(evaluation@)),
            Err(error) => reads_as(stdout@, Err(error)),
        },
{
    let chars = text::chars_of(stdout);
    let total: usize = chars.len();
    let start = match text::find_char(&chars, '{') {
        Some(start) => start,
        None => {
            return Err(EvalError::NoJson);
        },
    };
    let rest = text::slice_of(&chars, start, total);
    assert(rest@ =~= stdout@.skip(start as int));
    let content = text::string_of(&rest);
    match read_answer(content.as_str()) {
        Some(evaluation) => Ok(evaluation),
        None => match json::parse(content.as_str()) {
            Ok(_) => Err(EvalError::Shape),
            Err(error) => Err(EvalError::Json(error)),
        },
    }
}

/// Warnings that MSBuild prints before its answer do not change what is read.
pub proof fn law_leading_noise_is_skipped(
    noise: Seq<char>,
    stdout: Seq<char>,
    r: Result<EvalView, EvalError>,
)
    requires
        text::is_free_of(noise, '{'),
    ensures
        reads_as(noise + stdout, r) == reads_as(stdout, r),
    decreases noise.len(),
{
    if noise.len() == 0 {
        assert(noise + stdout =~= stdout);
    } else {
        let whole = noise + stdout;
        let fewer = noise.drop_first();
        law_leading_noise_is_skipped(fewer, stdout, r);
        assert(whole.drop_first() =~= fewer + stdout);
        assert(whole[0] == noise[0]);
        match text::first_index(fewer + stdout, '{') {
            Some(start) => {
                text::lemma_first_index(fewer + stdout, '{');
                assert(whole.skip(start + 1) =~= (fewer + stdout).skip(start));
            },
            None => {},
        }
    }
}

// ---------------------------------------------------------------------------
// Batched evaluation
// ---------------------------------------------------------------------------

/// The pieces that are not empty.
pub open spec fn nonempty(pieces: Seq<Seq<char>>) -> Seq<Seq<char>> {
    pieces.filter(|piece: Seq<char>| piece.len() > 0)
}

/// The item that stands for one referenced project.
pub open spec fn project_item(path: Seq<char>) -> Map<Seq<char>, Seq<char>> {
    Map::empty().insert("FullPath"@, path)
}

/// The item that stands for one `Identity@Version` entry. An entry without an `@`
/// has no version.
pub open spec fn package_item(entry: Seq<char>) -> Map<Seq<char>, Seq<char>> {
    let (identity, version) = match text::last_index(entry, '@') {
        Some(at) => (entry.take(at), entry.skip(at + 1)),
        None => (entry, Seq::empty()),
    };
    Map::empty().insert("Identity"@, identity).insert("Version"@, version)
}

/// The referenced projects of a `|`-joined list.
pub open spec fn project_items(list: Seq<char>) -> Seq<Map<Seq<char>, Seq<char>>> {
    nonempty(text::split(list, '|')).map_values(|path: Seq<char>| project_item(path))
}

/// The referenced packages of a `|`-joined list.
pub open spec fn package_items(list: Seq<char>) -> Seq<Map<Seq<char>, Seq<char>>> {
    nonempty(text::split(list, '|')).map_values(|entry: Seq<char>| package_item(entry))
}

/// `lists` with `items` under `item_type`, unless there are none.
pub open spec fn with_items(
    lists: Map<Seq<char>, Seq<Map<Seq<char>, Seq<char>>>>,
    item_type: Seq<char>,
    items: Seq<Map<Seq<char>, Seq<char>>>,
) -> Map<Seq<char>, Seq<Map<Seq<char>, Seq<char>>>> {
    if items.len() > 0 {
        lists.insert(item_type, items)
    } else {
        lists
    }
}

/// The evaluation that the metadata of one batch item report.
pub open spec fn batched_evaluation(item: Map<Seq<char>, Seq<char>>) -> EvalView {
    EvalView {
        properties: Map::new(
            |name: Seq<char>| eval_properties().contains(name),
            |name: Seq<char>| text_under(item, name),
        ),
        items: with_items(
            with_items(
                Map::empty(),
                "ProjectReference"@,
                project_items(text_under(item, "MoonProjectRefs"@)),
            ),
            "PackageReference"@,
            package_items(text_under(item, "MoonPackageRefs"@)),
        ),
    }
}

/// `results` with `evaluation` under the normalized path, unless there is no path.
pub open spec fn with_key(
    results: Map<Seq<char>, EvalView>,
    path: Seq<char>,
    evaluation: EvalView,
) -> Map<Seq<char>, EvalView> {
    if path.len() > 0 {
        results.insert(path_key(path), evaluation)
    } else {
        results
    }
}

/// The evaluations of a batch, each under every path that identifies its project;
/// of two under the same path the later counts.
pub open spec fn batch_evaluations(items: Seq<Map<Seq<char>, Seq<char>>>) -> Map<
    Seq<char>,
    EvalView,
>
    decreases items.len(),
{
    if items.len() == 0 {
        Map::empty()
    } else {
        let item = items.last();
        let evaluation = batched_evaluation(item);
        with_key(
            with_key(
                with_key(
                    batch_evaluations(items.drop_last()),
                    text_under(item, "OriginalItemSpec"@),
                    evaluation,
                ),
                text_under(item, "MSBuildSourceProjectFile"@),
                evaluation,
            ),
            text_under(item, "Identity"@),
            evaluation,
        )
    }
}

/// The value under `name`, or the empty text.
fn metadata<'a>(item: &'a EvalItem, name: &str) -> (r: &'a str)
    ensures
        r@ == text_under(item.metadata@, name@),
{
    match item.metadata.get(name) {
        Some(value) => value.as_str(),
        None => {
            proof {
                reveal_strlit("");
                assert(""@ =~= Seq::empty());
            }
            ""
        },
    }
}

proof fn lemma_nonempty_step(pieces: Seq<Seq<char>>, i: int)
    requires
        0 <= i < pieces.len(),
    ensures
        nonempty(pieces.take(i + 1)) == (if pieces[i].len() > 0 {
            nonempty(pieces.take(i)).push(pieces[i])
        } else {
            nonempty(pieces.take(i))
        }),
{
    reveal(Seq::filter);
    assert(pieces.take(i + 1).drop_last() =~= pieces.take(i));
}

/// Reads a `|`-joined list of project paths.
fn read_project_items(list: &str) -> (r: Vec<EvalItem>)
    ensures
        r.deep_view() == project_items(list@),
{
    let pieces = text::split_text(list, '|');
    let ghost all = text::split(list@, '|');
    let mut r: Vec<EvalItem> = Vec::new();
    proof {
        reveal(Seq::filter);
    }
    assert(r.deep_view() =~= nonempty(all.take(0)).map_values(
        |path: Seq<char>| project_item(path),
    ));
    for i in 0..pieces.len()
        invariant
            all == text::views(pieces@),
            r.deep_view() == nonempty(all.take(i as int)).map_values(
                |path: Seq<char>| project_item(path),
            ),
    {
        let piece = pieces[i].as_str();
        assert(all[i as int] == piece@);
        proof {
            lemma_nonempty_step(all, i as int);
        }
        if !piece.is_empty() {
            let mut metadata: StrMap<String> = StrMap::new();
            metadata.insert(text::owned("FullPath"), text::owned(piece));
            let ghost was = r.deep_view();
            r.push(EvalItem { metadata });
            assert(r.deep_view() =~= was.push(project_item(piece@)));
            assert(r.deep_view() =~= nonempty(all.take(i + 1)).map_values(
                |path: Seq<char>| project_item(path),
            ));
        }
    }
    assert(all.take(all.len() as int) =~= all);
    r
}

/// Reads one `Identity@Version` entry. `@` cannot appear in NuGet package ids or
/// versions; an empty version (as under Central Package Management) becomes `*`
/// downstream.
fn read_package_item(entry: &str) -> (r: EvalItem)
    ensures
        r.deep_view() == package_item(entry@),
{
    let chars = text::chars_of(entry);
    let total: usize = chars.len();
    let mut metadata: StrMap<String> = StrMap::new();
    match text::rfind_char(&chars, '@') {
        Some(at) => {
            let identity = text::slice_of(&chars, 0, at);
            let version = text::slice_of(&chars, at + 1, total);
            assert(identity@ =~= entry@.take(at as int));
            assert(version@ =~= entry@.skip(at + 1));
            metadata.insert(text::owned("Identity"), text::string_of(&identity));
            metadata.insert(text::owned("Version"), text::string_of(&version));
        },
        None => {
            metadata.insert(text::owned("Identity"), text::owned(entry));
            metadata.insert(text::owned("Version"), String::new());
        },
    }
    EvalItem { metadata }
}

/// Reads a `|`-joined list of `Identity@Version` entries.
fn read_package_items(list: &str) -> (r: Vec<EvalItem>)
    ensures
        r.deep_view() == package_items(list@),
{
    let pieces = text::split_text(list, '|');
    let ghost all = text::split(list@, '|');
    let mut r: Vec<EvalItem> = Vec::new();
    proof {
        reveal(Seq::filter);
    }
    assert(r.deep_view() =~= nonempty(all.take(0)).map_values(
        |entry: Seq<char>| package_item(entry),
    ));
    for i in 0..pieces.len()
        invariant
            all == text::views(pieces@),
            r.deep_view() == nonempty(all.take(i as int)).map_values(
                |entry: Seq<char>| package_item(entry),
            ),
    {
        let piece = pieces[i].as_str();
        assert(all[i as int] == piece@);
        proof {
            lemma_nonempty_step(all, i as int);
        }
        if !piece.is_empty() {
            let ghost was = r.deep_view();
            r.push(read_package_item(piece));
            assert(r.deep_view() =~= was.push(package_item(piece@)));
            assert(r.deep_view() =~= nonempty(all.take(i + 1)).map_values(
                |entry: Seq<char>| package_item(entry),
            ));
        }
    }
    assert(all.take(all.len() as int) =~= all);
    r
}

/// Reads the evaluation that one batch item reports.
pub fn read_batched_evaluation(item: &EvalItem) -> (r: MsbuildEvaluation)
    ensures
        r@ == batched_evaluation(item.metadata@),
{
    let names = eval_property_names();
    let ghost ns = eval_properties();
    let ghost meta = item.metadata@;
    let mut properties: StrMap<String> = StrMap::new();
    for i in 0..names.len()
        invariant
            ns == text::views(names@),
            meta == item.metadata@,
            forall|name: Seq<char>| #[trigger] properties@.contains_key(name) <==> ns.take(
                i as int,
            ).contains(name),
            forall|name: Seq<char>| #[trigger] properties@.contains_key(name) ==> properties@[name]
                == text_under(meta, name),
    {
        let name = names[i].as_str();
        assert(ns[i as int] == name@);
        properties.insert(text::owned(name), text::owned(metadata(item, name)));
        assert forall|k: Seq<char>| #[trigger] ns.take(i + 1).contains(k) <==> (ns.take(
            i as int,
        ).contains(k) || k == name@) by {
            text::lemma_take_contains(ns, i as int, k);
        }
    }
    assert(ns.take(ns.len() as int) =~= ns);
    let mut items: StrMap<Vec<EvalItem>> = StrMap::new();
    let projects = read_project_items(metadata(item, "MoonProjectRefs"));
    if projects.len() > 0 {
        items.insert(text::owned("ProjectReference"), projects);
    }
    let packages = read_package_items(metadata(item, "MoonPackageRefs"));
    if packages.len() > 0 {
        items.insert(text::owned("PackageReference"), packages);
    }
    let r = MsbuildEvaluation { properties, items };
    assert(r@ =~= batched_evaluation(meta));
    r
}

/// Reads the items of a batched evaluation: each project is keyed (normalized) by
/// every identifying path on its item.
pub fn read_batch(items: &[EvalItem]) -> (r: StrMap<MsbuildEvaluation>)
    ensures
        r@ == batch_evaluations(items@.map_values(|item: EvalItem| item.deep_view())),
{
    let ghost views = items@.map_values(|item: EvalItem| item.deep_view());
    let mut r: StrMap<MsbuildEvaluation> = StrMap::new();
    assert(views.take(0) =~= Seq::empty());
    for i in 0..items.len()
        invariant
            views == items@.map_values(|item: EvalItem| item.deep_view()),
            r@ == batch_evaluations(views.take(i as int)),
    {
        let item = &items[i];
        assert(views.take(i + 1).drop_last() =~= views.take(i as int));
        assert(views.take(i + 1).last() == item.metadata@);
        let path = metadata(item, "OriginalItemSpec");
        if !path.is_empty() {
            r.insert(normalize_path_key(path), read_batched_evaluation(item));
        }
        let path = metadata(item, "MSBuildSourceProjectFile");
        if !path.is_empty() {
            r.insert(normalize_path_key(path), read_batched_evaluation(item));
        }
        let path = metadata(item, "Identity");
        if !path.is_empty() {
            r.insert(normalize_path_key(path), read_batched_evaluation(item));
        }
    }
    assert(views.take(views.len() as int) =~= views);
    r
}

/// The result of reading the output of a batched evaluation is the right one.
pub open spec fn batch_reads_as(
    stdout: Seq<char>,
    r: Result<Map<Seq<char>, EvalView>, EvalError>,
) -> bool {
    match r {
        Ok(results) => exists|raw: EvalView| #[trigger]
            reads_as(stdout, Ok(raw)) && results == batch_evaluations(raw.items_of("MoonEval"@)),
        Err(error) => reads_as(stdout, Err(error)),
    }
}

/// Parse the `-getItem:MoonEval` JSON of a batched traversal invocation into
/// per-project evaluations. Each project is keyed (normalized) by every
/// identifying path on its item: the traversal `Include` that was written
/// (`OriginalItemSpec`) and MSBuild's own expanded full path
/// (`MSBuildSourceProjectFile` / `Identity`). These can differ lexically,
/// e.g. Windows 8.3 short names in temp directories.
pub fn parse_batch_output(stdout: &str) -> (r: Result<StrMap<MsbuildEvaluation>, EvalError>)
    ensures
        match r {
            Ok(results) => batch_reads_as(stdout@, Ok(results@)),
            Err(error) => batch_reads_as(stdout@, Err(error)),
        },
{
    let raw = match parse_msbuild_output(stdout) {
        Ok(raw) => raw,
        Err(error) => {
            return Err(error);
        },
    };
    assert(reads_as(stdout@, Ok(raw@)));
    match raw.items.get("MoonEval") {
        Some(items) => {
            assert(items.deep_view() =~= items@.map_values(|item: EvalItem| item.deep_view()));
            Ok(read_batch(items))
        },
        None => Ok(StrMap::new()),
    }
}

/// A text that can stand in a `|`-joined list.
pub open spec fn is_list_entry(entry: Seq<char>) -> bool {
    entry.len() > 0 && text::is_free_of(entry, '|')
}

proof fn lemma_nonempty_all(pieces: Seq<Seq<char>>)
    requires
        forall|i: int| 0 <= i < pieces.len() ==> (#[trigger] pieces[i]).len() > 0,
    ensures
        nonempty(pieces) == pieces,
    decreases pieces.len(),
{
    reveal(Seq::filter);
    if pieces.len() > 0 {
        lemma_nonempty_all(pieces.drop_last());
        assert(pieces.drop_last().push(pieces.last()) =~= pieces);
    } else {
        assert(nonempty(pieces) =~= pieces);
    }
}

/// A `|`-joined list of entries comes apart into those entries.
proof fn lemma_list_entries(entries: Seq<Seq<char>>)
    requires
        forall|i: int| 0 <= i < entries.len() ==> is_list_entry(#[trigger] entries[i]),
    ensures
        nonempty(text::split(text::joined(entries, '|'), '|')) == entries,
{
    if entries.len() == 0 {
        let none: Seq<Seq<char>> = seq![Seq::empty()];
        assert(text::split(text::joined(entries, '|'), '|') == none);
        assert(none.drop_last() =~= Seq::empty());
        reveal(Seq::filter);
        reveal_with_fuel(Seq::filter, 3);
        assert(nonempty(none) =~= Seq::empty());
        assert(entries =~= Seq::empty());
    } else {
        assert forall|i: int| 0 <= i < entries.len() implies text::is_free_of(
            #[trigger] entries[i],
            '|',
        ) by {
            assert(is_list_entry(entries[i]));
        }
        text::lemma_split_joined(entries, '|');
        assert forall|i: int| 0 <= i < entries.len() implies (#[trigger] entries[i]).len() > 0 by {
            assert(is_list_entry(entries[i]));
        }
        lemma_nonempty_all(entries);
    }
}

proof fn lemma_full_paths_of_items(paths: Seq<Seq<char>>)
    ensures
        full_paths(paths.map_values(|path: Seq<char>| project_item(path))) == paths,
    decreases paths.len(),
{
    let items = paths.map_values(|path: Seq<char>| project_item(path));
    if paths.len() == 0 {
        assert(full_paths(items) =~= paths);
    } else {
        let fewer = paths.drop_last();
        lemma_full_paths_of_items(fewer);
        assert(items.drop_last() =~= fewer.map_values(|path: Seq<char>| project_item(path)));
        assert(items.last() == project_item(paths.last()));
        assert(fewer.push(paths.last()) =~= paths);
    }
}

/// A batched evaluation gives the same project references as the per-project query:
/// the `FullPath`s that MSBuild joined into the item's metadata.
pub proof fn law_batch_keeps_project_references(
    item: Map<Seq<char>, Seq<char>>,
    paths: Seq<Seq<char>>,
)
    requires
        text_under(item, "MoonProjectRefs"@) == text::joined(paths, '|'),
        forall|i: int| 0 <= i < paths.len() ==> is_list_entry(#[trigger] paths[i]),
    ensures
        batched_evaluation(item).project_reference_paths() == paths,
{
    lemma_list_entries(paths);
    lemma_full_paths_of_items(paths);
    reveal_strlit("ProjectReference");
    reveal_strlit("PackageReference");
    assert("ProjectReference"@[1] != "PackageReference"@[1]);
    let items = project_items(text_under(item, "MoonProjectRefs"@));
    if items.len() == 0 {
        assert(items =~= Seq::empty());
    }
    assert(batched_evaluation(item).items_of("ProjectReference"@) =~= items);
}

/// A batched evaluation gives the same package references as the per-project query:
/// those of the `Identity@Version` pairs that MSBuild joined into the item's metadata.
pub proof fn law_batch_keeps_package_references(
    item: Map<Seq<char>, Seq<char>>,
    identities: Seq<Seq<char>>,
    versions: Seq<Seq<char>>,
)
    requires
        identities.len() == versions.len(),
        forall|i: int| 0 <= i < identities.len() ==> text::is_free_of(#[trigger] identities[i], '|'),
        forall|i: int|
            0 <= i < versions.len() ==> text::is_free_of(#[trigger] versions[i], '|')
                && text::is_free_of(versions[i], '@'),
        text_under(item, "MoonPackageRefs"@) == text::joined(
            Seq::new(identities.len(), |i: int| identities[i].push('@') + versions[i]),
            '|',
        ),
    ensures
        batched_evaluation(item).package_references() == versions_by_identity(
            Seq::new(
                identities.len(),
                |i: int|
                    Map::empty().insert("Identity"@, identities[i]).insert(
                        "Version"@,
                        versions[i],
                    ),
            ),
        ),
{
    let entries = Seq::new(identities.len(), |i: int| identities[i].push('@') + versions[i]);
    let wanted = Seq::new(
        identities.len(),
        |i: int|
            Map::<Seq<char>, Seq<char>>::empty().insert("Identity"@, identities[i]).insert(
                "Version"@,
                versions[i],
            ),
    );
    assert forall|i: int| 0 <= i < entries.len() implies is_list_entry(#[trigger] entries[i]) by {
        assert(text::is_free_of(identities[i], '|'));
        assert(text::is_free_of(versions[i], '|'));
    }
    lemma_list_entries(entries);
    let items = package_items(text_under(item, "MoonPackageRefs"@));
    assert forall|i: int| 0 <= i < entries.len() implies package_item(#[trigger] entries[i])
        == wanted[i] by {
        text::lemma_last_index(entries[i], '@');
        let at = identities[i].len() as int;
        assert(entries[i][at] == '@');
        assert(text::is_free_of(versions[i], '@'));
        let found = text::last_index(entries[i], '@')->Some_0;
        if found > at {
            assert(entries[i][found] == versions[i][found - at - 1]);
        }
        assert(entries[i].take(at) =~= identities[i]);
        assert(entries[i].skip(at + 1) =~= versions[i]);
    }
    assert(items =~= wanted);
    reveal_strlit("ProjectReference");
    reveal_strlit("PackageReference");
    assert("ProjectReference"@[1] != "PackageReference"@[1]);
    assert(batched_evaluation(item).items_of("PackageReference"@) =~= wanted);
}

// ---------------------------------------------------------------------------
// Failed batches
// ---------------------------------------------------------------------------

/// The trailing `/<parent>/<file>` of a path, or all of it where it has fewer than
/// two slashes.
pub open spec fn parent_and_file(path: Seq<char>) -> Seq<char> {
    match text::last_index(path, '/') {
        None => path,
        Some(last) => match text::last_index(path.take(last), '/') {
            None => path,
            Some(from) => path.skip(from),
        },
    }
}

/// MSBuild reported an error for that project: its trailing `/<parent>/<file>`
/// occurs in the output, followed by an opening parenthesis.
pub open spec fn is_reported(output: Seq<char>, path: Seq<char>) -> bool {
    text::contains_text(path_key(output), parent_and_file(path_key(path)).push('('))
}

/// The projects for which MSBuild reported errors.
pub open spec fn reported(output: Seq<char>, paths: Seq<Seq<char>>) -> Seq<Seq<char>> {
    paths.filter(|path: Seq<char>| is_reported(output, path))
}

/// The trailing `/<parent>/<file>` of a path.
fn parent_and_file_of(path: &[char]) -> (r: Vec<char>)
    ensures
        r@ == parent_and_file(path@),
{
    let total: usize = path.len();
    if let Some(last) = text::rfind_char(path, '/') {
        let head = text::slice_of(path, 0, last);
        assert(head@ =~= path@.take(last as int));
        if let Some(from) = text::rfind_char(&head, '/') {
            let tail = text::slice_of(path, from, total);
            assert(tail@ =~= path@.skip(from as int));
            return tail;
        }
    }
    let all = text::slice_of(path, 0, total);
    assert(all@ =~= path@);
    all
}

/// Whether MSBuild reported an error for that project, in an output that is
/// normalized already.
fn is_reported_in(haystack: &[char], path: &str) -> (r: bool)
    ensures
        r == text::contains_text(haystack@, parent_and_file(path_key(path@)).push('(')),
{
    let normalized = normalize_path_key(path);
    let chars = text::chars_of(normalized.as_str());
    let mut needle = parent_and_file_of(&chars);
    needle.push('(');
    text::contains(haystack, &needle)
}

/// Given the output of a failed batch invocation, find which of the input
/// projects MSBuild reported errors for. Error lines carry the
/// locale-invariant `<full path>(line,col): error CODE:` prefix, so a
/// normalized substring match identifies the offenders without parsing
/// localized message text. Only the trailing `<parent>/<file>(` suffix is
/// matched, not the full path: MSBuild prints expanded long paths, which
/// can differ lexically from the paths that were passed (e.g. Windows 8.3 short
/// names like `RUNNER~1` in a temp-dir prefix). A shared suffix across two
/// projects merely over-excludes: those projects fall back to per-project
/// evaluation, which stays correct.
pub fn detect_failed_projects(output: &str, project_paths: &[String]) -> (r: Vec<String>)
    ensures
        text::views(r@) == reported(output@, text::views(project_paths@)),
{
    let normalized = normalize_path_key(output);
    let haystack = text::chars_of(normalized.as_str());
    let ghost paths = text::views(project_paths@);
    let ghost chosen = |path: Seq<char>| is_reported(output@, path);
    let mut r: Vec<String> = Vec::new();
    proof {
        reveal(Seq::filter);
        assert(text::views(r@) =~= paths.take(0).filter(chosen));
    }
    for i in 0..project_paths.len()
        invariant
            haystack@ == path_key(output@),
            paths == text::views(project_paths@),
            chosen == (|path: Seq<char>| is_reported(output@, path)),
            text::views(r@) == paths.take(i as int).filter(chosen),
    {
        let path = project_paths[i].as_str();
        assert(paths[i as int] == path@);
        proof {
            reveal(Seq::filter);
            assert(paths.take(i + 1).drop_last() =~= paths.take(i as int));
        }
        if is_reported_in(&haystack, path) {
            let found = text::owned(path);
            proof {
                text::lemma_views_push(r@, found);
            }
            r.push(found);
        }
    }
    assert(paths.take(paths.len() as int) =~= paths);
    r
}

/// A project that MSBuild names in full in an error line is found, whatever the case
/// and the slashes that it prints.
pub proof fn law_named_projects_are_detected(output: Seq<char>, path: Seq<char>)
    requires
        text::contains_text(path_key(output), path_key(path).push('(')),
    ensures
        is_reported(output, path),
{
    let haystack = path_key(output);
    let key = path_key(path);
    let whole = key.push('(');
    let suffix = parent_and_file(key).push('(');
    let at = choose|at: int| text::occurs_at(haystack, whole, at);
    let gap = whole.len() - suffix.len();
    text::lemma_last_index(key, '/');
    match text::last_index(key, '/') {
        Some(last) => {
            text::lemma_last_index(key.take(last), '/');
        },
        None => {},
    }
    assert(gap >= 0);
    assert(suffix =~= whole.skip(gap));
    assert(haystack.subrange(at + gap, at + gap + suffix.len()) =~= haystack.subrange(
        at,
        at + whole.len(),
    ).skip(gap));
    assert(text::occurs_at(haystack, suffix, at + gap));
}

// ---------------------------------------------------------------------------
// Invocations
// ---------------------------------------------------------------------------

/// What a finished process left behind.
#[derive(Debug, PartialEq, Eq)]
pub struct ProcessOutput {
    pub exit_code: i32,
    pub stdout: String,
    pub stderr: String,
}

/// The arguments with which `dotnet` evaluates the traversal project.
pub open spec fn batch_arguments(traversal: Seq<char>) -> Seq<Seq<char>> {
    seq![
        "msbuild"@,
        traversal,
        "-nologo"@,
        "-maxCpuCount"@,
        "-nodeReuse:false"@,
        "-t:MoonCollect"@,
        "-getItem:MoonEval"@,
    ]
}

/// The arguments with which `dotnet` evaluates the traversal project: parallel
/// in-process worker nodes, but none left alive after the invocation (node reuse
/// lingers for minutes, which is hostile to CI containers).
pub fn evaluate_projects_batch_args(traversal: &str) -> (r: Vec<String>)
    ensures
        text::views(r@) == batch_arguments(traversal@),
{
    let mut args: Vec<String> = Vec::new();
    text::push_owned(&mut args, "msbuild");
    text::push_owned(&mut args, traversal);
    text::push_owned(&mut args, "-nologo");
    text::push_owned(&mut args, "-maxCpuCount");
    text::push_owned(&mut args, "-nodeReuse:false");
    text::push_owned(&mut args, "-t:MoonCollect");
    text::push_owned(&mut args, "-getItem:MoonEval");
    assert(text::views(args@) =~= batch_arguments(traversal@));
    args
}

/// The message for a batched evaluation that failed.
pub open spec fn batch_failure(output: ProcessOutput) -> Seq<char> {
    "Batched MSBuild evaluation failed (exit code "@ + text::decimal(output.exit_code as int)
        + "): "@ + output.stdout@ + output.stderr@
}

/// The projects for which MSBuild reported no error.
pub open spec fn unreported(output: Seq<char>, paths: Seq<Seq<char>>) -> Seq<Seq<char>> {
    paths.filter(|path: Seq<char>| !is_reported(output, path))
}

/// After a failed batch it is worth trying again without the offenders: some
/// projects were reported, but not all of them.
pub open spec fn is_retried(output: ProcessOutput, paths: Seq<Seq<char>>) -> bool {
    output.exit_code != 0 && 0 < reported(output.stdout@ + output.stderr@, paths).len()
        < paths.len()
}

/// What to do after a batched evaluation.
#[derive(Debug)]
pub enum BatchStep {
    /// The batch is over.
    Finished(Result<StrMap<MsbuildEvaluation>, EvalError>),
    /// Evaluate these projects in a second batch.
    Retry(Vec<String>),
}

/// The failure of a batched evaluation.
fn batch_failed(output: &ProcessOutput) -> (r: EvalError)
    ensures
        r is Failed,
        r->Failed_0@ == batch_failure(*output),
{
    let mut message = text::chars_of("Batched MSBuild evaluation failed (exit code ");
    text::push_text(&mut message, text::to_decimal(output.exit_code).as_str());
    text::push_text(&mut message, "): ");
    text::push_text(&mut message, output.stdout.as_str());
    text::push_text(&mut message, output.stderr.as_str());
    EvalError::Failed(text::string_of(&message))
}

/// Decides what follows the first batched evaluation of `project_paths`.
///
/// MSBuild returns no target outputs at all when any project fails to
/// load (`ContinueOnError` does not rescue load errors). Identify the
/// offenders from the error lines and retry once without them: their
/// absence from the result triggers the caller's per-project fallback,
/// which surfaces the real error.
pub fn evaluate_projects_batch(output: &ProcessOutput, project_paths: &[String]) -> (r: BatchStep)
    ensures
        match r {
            BatchStep::Finished(Ok(results)) => output.exit_code == 0 && batch_reads_as(
                output.stdout@,
                Ok(results@),
            ),
            BatchStep::Finished(Err(error)) => {
                ||| output.exit_code == 0 && batch_reads_as(output.stdout@, Err(error))
                ||| output.exit_code != 0 && !is_retried(*output, text::views(project_paths@))
                    && error is Failed && error->Failed_0@ == batch_failure(*output)
            },
            BatchStep::Retry(remaining) => is_retried(*output, text::views(project_paths@))
                && text::views(remaining@) == unreported(
                output.stdout@ + output.stderr@,
                text::views(project_paths@),
            ),
        },
{
    if output.exit_code == 0 {
        return BatchStep::Finished(parse_batch_output(output.stdout.as_str()));
    }
    let combined = text::concat(output.stdout.as_str(), output.stderr.as_str());
    let failed = detect_failed_projects(combined.as_str(), project_paths);
    assert(failed@.len() == text::views(failed@).len());
    if failed.len() == 0 || failed.len() >= project_paths.len() {
        return BatchStep::Finished(Err(batch_failed(output)));
    }
    let normalized = normalize_path_key(combined.as_str());
    let haystack = text::chars_of(normalized.as_str());
    let ghost paths = text::views(project_paths@);
    let ghost kept = |path: Seq<char>| !is_reported(combined@, path);
    let mut remaining: Vec<String> = Vec::new();
    proof {
        reveal(Seq::filter);
        assert(text::views(remaining@) =~= paths.take(0).filter(kept));
    }
    for i in 0..project_paths.len()
        invariant
            haystack@ == path_key(combined@),
            paths == text::views(project_paths@),
            kept == (|path: Seq<char>| !is_reported(combined@, path)),
            text::views(remaining@) == paths.take(i as int).filter(kept),
    {
        let path = project_paths[i].as_str();
        assert(paths[i as int] == path@);
        proof {
            reveal(Seq::filter);
            assert(paths.take(i + 1).drop_last() =~= paths.take(i as int));
        }
        if !is_reported_in(&haystack, path) {
            text::push_owned(&mut remaining, path);
        }
    }
    assert(paths.take(paths.len() as int) =~= paths);
    BatchStep::Retry(remaining)
}

/// The result of a batched evaluation whose first run, `first`, failed and was
/// tried again. Where the second run failed too, the first one is reported.
pub fn retried_projects_batch(first: &ProcessOutput, retry: &ProcessOutput) -> (r: Result<
    StrMap<MsbuildEvaluation>,
    EvalError,
>)
    ensures
        match r {
            Ok(results) => retry.exit_code == 0 && batch_reads_as(retry.stdout@, Ok(results@)),
            Err(error) => {
                ||| retry.exit_code == 0 && batch_reads_as(retry.stdout@, Err(error))
                ||| retry.exit_code != 0 && error is Failed && error->Failed_0@ == batch_failure(
                    *first,
                )
            },
        },
{
    if retry.exit_code == 0 {
        parse_batch_output(retry.stdout.as_str())
    } else {
        Err(batch_failed(first))
    }
}

proof fn lemma_filter_splits(paths: Seq<Seq<char>>, chosen: spec_fn(Seq<char>) -> bool)
    ensures
        paths.filter(chosen).len() + paths.filter(|path: Seq<char>| !chosen(path)).len()
            == paths.len(),
    decreases paths.len(),
{
    reveal(Seq::filter);
    if paths.len() > 0 {
        lemma_filter_splits(paths.drop_last(), chosen);
    }
}

/// A batch that is tried again is tried with fewer projects, but with some: those
/// that were reported are left out, and no others.
pub proof fn law_retry_leaves_out_offenders(output: ProcessOutput, paths: Seq<Seq<char>>)
    requires
        is_retried(output, paths),
    ensures
        0 < unreported(output.stdout@ + output.stderr@, paths).len() < paths.len(),
        reported(output.stdout@ + output.stderr@, paths).len() + unreported(
            output.stdout@ + output.stderr@,
            paths,
        ).len() == paths.len(),
        forall|i: int|
            0 <= i < unreported(output.stdout@ + output.stderr@, paths).len() ==> !is_reported(
                output.stdout@ + output.stderr@,
                #[trigger] unreported(output.stdout@ + output.stderr@, paths)[i],
            ),
{
    let combined = output.stdout@ + output.stderr@;
    let chosen = |path: Seq<char>| is_reported(combined, path);
    let kept = |path: Seq<char>| !is_reported(combined, path);
    lemma_filter_splits(paths, chosen);
    assert(kept =~= (|path: Seq<char>| !chosen(path)));
    assert forall|i: int| 0 <= i < unreported(combined, paths).len() implies !is_reported(
        combined,
        #[trigger] unreported(combined, paths)[i],
    ) by {
        paths.lemma_filter_pred(kept, i);
    }
}

/// The arguments with which `dotnet` evaluates one project.
pub open spec fn evaluation_arguments(path: Seq<char>) -> Seq<Seq<char>> {
    seq![
        "msbuild"@,
        path,
        "-nologo"@,
        "-getProperty:"@ + EVAL_PROPERTIES@,
        "-getItem:"@ + EVAL_ITEMS@,
    ]
}

/// The arguments with which `dotnet` evaluates one project.
pub fn evaluate_project_args(path: &str) -> (r: Vec<String>)
    ensures
        text::views(r@) == evaluation_arguments(path@),
{
    let mut args: Vec<String> = Vec::new();
    text::push_owned(&mut args, "msbuild");
    text::push_owned(&mut args, path);
    text::push_owned(&mut args, "-nologo");
    text::push_owned(&mut args, text::concat("-getProperty:", EVAL_PROPERTIES).as_str());
    text::push_owned(&mut args, text::concat("-getItem:", EVAL_ITEMS).as_str());
    assert(text::views(args@) =~= evaluation_arguments(path@));
    args
}

/// The message for an evaluation of one project that failed.
pub open spec fn evaluation_failure(path: Seq<char>, output: ProcessOutput) -> Seq<char> {
    "MSBuild evaluation failed for "@ + path + " (exit code "@ + text::decimal(
        output.exit_code as int,
    ) + "): "@ + output.stdout@ + output.stderr@
}

/// The result of evaluating the project at `path`, from what the process left
/// behind.
pub fn evaluate_project(path: &str, output: &ProcessOutput) -> (r: Result<
    MsbuildEvaluation,
    EvalError,
>)
    ensures
        match r {
            Ok(evaluation) => output.exit_code == 0 && reads_as(output.stdout@, Ok(evaluation@)),
            Err(error) => {
                ||| output.exit_code == 0 && reads_as(output.stdout@, Err(error))
                ||| output.exit_code != 0 && error is Failed && error->Failed_0@
                    == evaluation_failure(path@, *output)
            },
        },
{
    if output.exit_code != 0 {
        let mut message = text::chars_of("MSBuild evaluation failed for ");
        text::push_text(&mut message, path);
        text::push_text(&mut message, " (exit code ");
        text::push_text(&mut message, text::to_decimal(output.exit_code).as_str());
        text::push_text(&mut message, "): ");
        text::push_text(&mut message, output.stdout.as_str());
        text::push_text(&mut message, output.stderr.as_str());
        return Err(EvalError::Failed(text::string_of(&message)));
    }
    parse_msbuild_output(output.stdout.as_str())
}

// ---------------------------------------------------------------------------
// What holds of evaluations
// ---------------------------------------------------------------------------

/// A property that was reported has the value that was reported; any other is empty.
pub proof fn law_properties_are_as_reported(
    evaluation: EvalView,
    name: Seq<char>,
)
    ensures
        evaluation.properties.contains_key(name) ==> evaluation.property(name)
            == evaluation.properties[name],
        !evaluation.properties.contains_key(name) ==> evaluation.property(name).len() == 0,
{
}

/// The items of a type that was reported are those that were reported; of any other there
/// are none.
pub proof fn law_items_are_as_reported(evaluation: EvalView, item_type: Seq<char>)
    ensures
        evaluation.items.contains_key(item_type) ==> evaluation.items_of(item_type)
            == evaluation.items[item_type],
        !evaluation.items.contains_key(item_type) ==> evaluation.items_of(item_type).len() == 0,
{
}

proof fn lemma_full_paths(items: Seq<Map<Seq<char>, Seq<char>>>, path: Seq<char>)
    ensures
        full_paths(items).contains(path) <==> exists|i: int|
            0 <= i < items.len() && (#[trigger] items[i]).contains_key("FullPath"@)
                && items[i]["FullPath"@] == path,
        full_paths(items).len() <= items.len(),
        (forall|i: int|
            0 <= i < items.len() ==> (#[trigger] items[i]).contains_key("FullPath"@)) ==> {
            &&& full_paths(items).len() == items.len()
            &&& forall|i: int|
                0 <= i < items.len() ==> #[trigger] full_paths(items)[i] == items[i]["FullPath"@]
        },
    decreases items.len(),
{
    let all = full_paths(items);
    if items.len() > 0 {
        let fewer = items.drop_last();
        let some = full_paths(fewer);
        lemma_full_paths(fewer, path);
        assert(items[items.len() - 1] == items.last());
        assert forall|i: int| 0 <= i < fewer.len() implies #[trigger] fewer[i] == items[i] by {}
        if all.contains(path) {
            let j = choose|j: int| 0 <= j < all.len() && all[j] == path;
            if j < some.len() {
                assert(some[j] == path);
                let i = choose|i: int|
                    0 <= i < fewer.len() && (#[trigger] fewer[i]).contains_key("FullPath"@)
                        && fewer[i]["FullPath"@] == path;
                assert(items[i].contains_key("FullPath"@));
            } else {
                assert(items[items.len() - 1].contains_key("FullPath"@));
            }
        }
        if exists|i: int|
            0 <= i < items.len() && (#[trigger] items[i]).contains_key("FullPath"@)
                && items[i]["FullPath"@] == path {
            let i = choose|i: int|
                0 <= i < items.len() && (#[trigger] items[i]).contains_key("FullPath"@)
                    && items[i]["FullPath"@] == path;
            if i < fewer.len() {
                assert(fewer[i].contains_key("FullPath"@));
                let j = choose|j: int| 0 <= j < some.len() && some[j] == path;
                assert(all[j] == path);
            } else {
                assert(all[some.len() as int] == path);
            }
        }
        if forall|i: int| 0 <= i < items.len() ==> (#[trigger] items[i]).contains_key("FullPath"@) {
            assert forall|i: int| 0 <= i < fewer.len() implies (
            #[trigger] fewer[i]).contains_key("FullPath"@) by {
                assert(items[i].contains_key("FullPath"@));
            }
            assert(items[items.len() - 1].contains_key("FullPath"@));
        }
    }
}

/// The referenced projects are the `FullPath`s of the `ProjectReference` items, all of
/// them, and in order where each has one.
pub proof fn law_every_project_reference_is_read(evaluation: EvalView, path: Seq<char>)
    requires
        evaluation.items.contains_key("ProjectReference"@),
    ensures
        ({
            let items = evaluation.items["ProjectReference"@];
            let paths = evaluation.project_reference_paths();
            &&& paths.contains(path) <==> exists|i: int|
                0 <= i < items.len() && (#[trigger] items[i]).contains_key("FullPath"@)
                    && items[i]["FullPath"@] == path
            &&& (forall|i: int|
                0 <= i < items.len() ==> (#[trigger] items[i]).contains_key("FullPath"@)) ==> {
                &&& paths.len() == items.len()
                &&& forall|i: int|
                    0 <= i < items.len() ==> #[trigger] paths[i] == items[i]["FullPath"@]
            }
        }),
{
    lemma_full_paths(evaluation.items["ProjectReference"@], path);
}

/// The last of the items with that identity.
pub open spec fn is_last_of(
    items: Seq<Map<Seq<char>, Seq<char>>>,
    i: int,
    identity: Seq<char>,
) -> bool {
    &&& 0 <= i < items.len()
    &&& items[i].contains_key("Identity"@)
    &&& items[i]["Identity"@] == identity
    &&& forall|j: int|
        i < j < items.len() ==> !((#[trigger] items[j]).contains_key("Identity"@)
            && items[j]["Identity"@] == identity)
}

proof fn lemma_versions(items: Seq<Map<Seq<char>, Seq<char>>>, identity: Seq<char>)
    ensures
        versions_by_identity(items).contains_key(identity) <==> exists|i: int| #[trigger]
            is_last_of(items, i, identity),
        forall|i: int| #[trigger]
            is_last_of(items, i, identity) ==> versions_by_identity(items)[identity] == (
            if items[i].contains_key("Version"@) && items[i]["Version"@].len() > 0 {
                items[i]["Version"@]
            } else {
                "*"@
            }),
    decreases items.len(),
{
    if items.len() > 0 {
        let fewer = items.drop_last();
        let last = items.len() - 1;
        lemma_versions(fewer, identity);
        let here = items[last].contains_key("Identity"@) && items[last]["Identity"@] == identity;
        if here {
            assert(is_last_of(items, last, identity));
            assert forall|i: int| #[trigger] is_last_of(items, i, identity) implies i == last by {
                if i < last {
                    assert(items[last].contains_key("Identity"@));
                }
            }
        } else {
            assert forall|i: int| #[trigger]
                is_last_of(items, i, identity) <==> is_last_of(fewer, i, identity) by {
                if is_last_of(items, i, identity) {
                    assert(i < fewer.len());
                    assert(fewer[i] == items[i]);
                    assert forall|j: int| i < j < fewer.len() implies !((
                    #[trigger] fewer[j]).contains_key("Identity"@) && fewer[j]["Identity"@]
                        == identity) by {
                        assert(fewer[j] == items[j]);
                    }
                }
                if is_last_of(fewer, i, identity) {
                    assert(fewer[i] == items[i]);
                    assert forall|j: int| i < j < items.len() implies !((
                    #[trigger] items[j]).contains_key("Identity"@) && items[j]["Identity"@]
                        == identity) by {
                        if j < fewer.len() {
                            assert(fewer[j] == items[j]);
                        }
                    }
                }
            }
            if versions_by_identity(fewer).contains_key(identity) {
                let i = choose|i: int| #[trigger] is_last_of(fewer, i, identity);
                assert(is_last_of(items, i, identity));
            }
            assert forall|i: int| #[trigger] is_last_of(items, i, identity) implies
                versions_by_identity(items)[identity] == (if items[i].contains_key("Version"@)
                && items[i]["Version"@].len() > 0 {
                items[i]["Version"@]
            } else {
                "*"@
            }) by {
                assert(is_last_of(fewer, i, identity));
                assert(fewer[i] == items[i]);
            }
        }
    } else {
        assert forall|i: int| !#[trigger] is_last_of(items, i, identity) by {}
    }
}

/// The referenced packages are the identities of the `PackageReference` items, each with
/// the version of the last item of that identity, or `*` where that has none; the central
/// ones are those of the `PackageVersion` items.
pub proof fn law_packages_have_the_last_version(evaluation: EvalView, identity: Seq<char>)
    ensures
        evaluation.items.contains_key("PackageReference"@) ==> has_last_version(
            evaluation.items["PackageReference"@],
            evaluation.package_references(),
            identity,
        ),
        !evaluation.items.contains_key("PackageReference"@)
            ==> !evaluation.package_references().contains_key(identity),
        evaluation.items.contains_key("PackageVersion"@) ==> has_last_version(
            evaluation.items["PackageVersion"@],
            evaluation.package_versions(),
            identity,
        ),
        !evaluation.items.contains_key("PackageVersion"@)
            ==> !evaluation.package_versions().contains_key(identity),
{
    lemma_versions(evaluation.items_of("PackageReference"@), identity);
    lemma_versions(evaluation.items_of("PackageVersion"@), identity);
}

/// `versions` has the identity exactly where an item has it, with the version of the last
/// such item.
pub open spec fn has_last_version(
    items: Seq<Map<Seq<char>, Seq<char>>>,
    versions: Map<Seq<char>, Seq<char>>,
    identity: Seq<char>,
) -> bool {
    &&& versions.contains_key(identity) <==> exists|i: int| #[trigger]
        is_last_of(items, i, identity)
    &&& forall|i: int| #[trigger]
        is_last_of(items, i, identity) ==> versions[identity] == (if items[i].contains_key(
            "Version"@,
        ) && items[i]["Version"@].len() > 0 {
            items[i]["Version"@]
        } else {
            "*"@
        })
}

/// Where some item has an identity, one of them is the last.
pub proof fn lemma_last_of(
    items: Seq<Map<Seq<char>, Seq<char>>>,
    i: int,
    identity: Seq<char>,
) -> (last: int)
    requires
        0 <= i < items.len(),
        items[i].contains_key("Identity"@),
        items[i]["Identity"@] == identity,
    ensures
        is_last_of(items, last, identity),
    decreases items.len() - i,
{
    if exists|j: int|
        i < j < items.len() && (#[trigger] items[j]).contains_key("Identity"@)
            && items[j]["Identity"@] == identity {
        let j = choose|j: int|
            i < j < items.len() && (#[trigger] items[j]).contains_key("Identity"@)
                && items[j]["Identity"@] == identity;
        lemma_last_of(items, j, identity)
    } else {
        i
    }
}

/// The properties that are requested of every project, by name.
pub open spec fn requested_properties() -> Seq<Seq<char>> {
    seq![
        "TargetFramework"@,
        "TargetFrameworks"@,
        "OutputType"@,
        "IsTestProject"@,
        "IsPackable"@,
        "RestorePackagesWithLockFile"@,
        "AssemblyName"@,
        "Configuration"@,
        "BaseOutputPath"@,
        "BaseIntermediateOutputPath"@,
        "PublishDir"@,
        "TestingPlatformDotnetTestSupport"@,
    ]
}

/// What is requested of every project is these twelve properties and these three types of
/// items.
pub proof fn law_what_is_requested()
    ensures
        eval_properties() == requested_properties(),
        text::split(EVAL_ITEMS@, ',') == seq![
            "ProjectReference"@,
            "PackageReference"@,
            "PackageVersion"@,
        ],
{
    reveal_strlit("TargetFramework");
    text::lemma_split_whole("TargetFramework"@, ',');
    reveal_strlit("TargetFrameworks");
    reveal_strlit("TargetFramework,TargetFrameworks");
    assert("TargetFramework,TargetFrameworks"@ =~= "TargetFramework"@.push(',') + "TargetFrameworks"@);
    assert(text::is_free_of("TargetFrameworks"@, ','));
    text::lemma_split_after("TargetFramework"@, "TargetFrameworks"@, ',');
    reveal_strlit("OutputType");
    reveal_strlit("TargetFramework,TargetFrameworks,OutputType");
    assert("TargetFramework,TargetFrameworks,OutputType"@ =~= "TargetFramework,TargetFrameworks"@.push(',') + "OutputType"@);
    assert(text::is_free_of("OutputType"@, ','));
    text::lemma_split_after("TargetFramework,TargetFrameworks"@, "OutputType"@, ',');
    reveal_strlit("IsTestProject");
    reveal_strlit("TargetFramework,TargetFrameworks,OutputType,IsTestProject");
    assert("TargetFramework,TargetFrameworks,OutputType,IsTestProject"@ =~= "TargetFramework,TargetFrameworks,OutputType"@.push(',') + "IsTestProject"@);
    assert(text::is_free_of("IsTestProject"@, ','));
    text::lemma_split_after("TargetFramework,TargetFrameworks,OutputType"@, "IsTestProject"@, ',');
    reveal_strlit("IsPackable");
    reveal_strlit("TargetFramework,TargetFrameworks,OutputType,IsTestProject,IsPackable");
    assert("TargetFramework,TargetFrameworks,OutputType,IsTestProject,IsPackable"@ =~= "TargetFramework,TargetFrameworks,OutputType,IsTestProject"@.push(',') + "IsPackable"@);
    assert(text::is_free_of("IsPackable"@, ','));
    text::lemma_split_after("TargetFramework,TargetFrameworks,OutputType,IsTestProject"@, "IsPackable"@, ',');
    reveal_strlit("RestorePackagesWithLockFile");
    reveal_strlit("TargetFramework,TargetFrameworks,OutputType,IsTestProject,IsPackable,RestorePackagesWithLockFile");
    assert("TargetFramework,TargetFrameworks,OutputType,IsTestProject,IsPackable,RestorePackagesWithLockFile"@ =~= "TargetFramework,TargetFrameworks,OutputType,IsTestProject,IsPackable"@.push(',') + "RestorePackagesWithLockFile"@);
    assert(text::is_free_of("RestorePackagesWithLockFile"@, ','));
    text::lemma_split_after("TargetFramework,TargetFrameworks,OutputType,IsTestProject,IsPackable"@, "RestorePackagesWithLockFile"@, ',');
    reveal_strlit("AssemblyName");
    reveal_strlit("TargetFramework,TargetFrameworks,OutputType,IsTestProject,IsPackable,RestorePackagesWithLockFile,AssemblyName");
    assert("TargetFramework,TargetFrameworks,OutputType,IsTestProject,IsPackable,RestorePackagesWithLockFile,AssemblyName"@ =~= "TargetFramework,TargetFrameworks,OutputType,IsTestProject,IsPackable,RestorePackagesWithLockFile"@.push(',') + "AssemblyName"@);
    assert(text::is_free_of("AssemblyName"@, ','));
    text::lemma_split_after("TargetFramework,TargetFrameworks,OutputType,IsTestProject,IsPackable,RestorePackagesWithLockFile"@, "AssemblyName"@, ',');
    reveal_strlit("Configuration");
    reveal_strlit("TargetFramework,TargetFrameworks,OutputType,IsTestProject,IsPackable,RestorePackagesWithLockFile,AssemblyName,Configuration");
    assert("TargetFramework,TargetFrameworks,OutputType,IsTestProject,IsPackable,RestorePackagesWithLockFile,AssemblyName,Configuration"@ =~= "TargetFramework,TargetFrameworks,OutputType,IsTestProject,IsPackable,RestorePackagesWithLockFile,AssemblyName"@.push(',') + "Configuration"@);
    assert(text::is_free_of("Configuration"@, ','));
    text::lemma_split_after("TargetFramework,TargetFrameworks,OutputType,IsTestProject,IsPackable,RestorePackagesWithLockFile,AssemblyName"@, "Configuration"@, ',');
    reveal_strlit("BaseOutputPath");
    reveal_strlit("TargetFramework,TargetFrameworks,OutputType,IsTestProject,IsPackable,RestorePackagesWithLockFile,AssemblyName,Configuration,BaseOutputPath");
    assert("TargetFramework,TargetFrameworks,OutputType,IsTestProject,IsPackable,RestorePackagesWithLockFile,AssemblyName,Configuration,BaseOutputPath"@ =~= "TargetFramework,TargetFrameworks,OutputType,IsTestProject,IsPackable,RestorePackagesWithLockFile,AssemblyName,Configuration"@.push(',') + "BaseOutputPath"@);
    assert(text::is_free_of("BaseOutputPath"@, ','));
    text::lemma_split_after("TargetFramework,TargetFrameworks,OutputType,IsTestProject,IsPackable,RestorePackagesWithLockFile,AssemblyName,Configuration"@, "BaseOutputPath"@, ',');
    reveal_strlit("BaseIntermediateOutputPath");
    reveal_strlit("TargetFramework,TargetFrameworks,OutputType,IsTestProject,IsPackable,RestorePackagesWithLockFile,AssemblyName,Configuration,BaseOutputPath,BaseIntermediateOutputPath");
    assert("TargetFramework,TargetFrameworks,OutputType,IsTestProject,IsPackable,RestorePackagesWithLockFile,AssemblyName,Configuration,BaseOutputPath,BaseIntermediateOutputPath"@ =~= "TargetFramework,TargetFrameworks,OutputType,IsTestProject,IsPackable,RestorePackagesWithLockFile,AssemblyName,Configuration,BaseOutputPath"@.push(',') + "BaseIntermediateOutputPath"@);
    assert(text::is_free_of("BaseIntermediateOutputPath"@, ','));
    text::lemma_split_after("TargetFramework,TargetFrameworks,OutputType,IsTestProject,IsPackable,RestorePackagesWithLockFile,AssemblyName,Configuration,BaseOutputPath"@, "BaseIntermediateOutputPath"@, ',');
    reveal_strlit("PublishDir");
    reveal_strlit("TargetFramework,TargetFrameworks,OutputType,IsTestProject,IsPackable,RestorePackagesWithLockFile,AssemblyName,Configuration,BaseOutputPath,BaseIntermediateOutputPath,PublishDir");
    assert("TargetFramework,TargetFrameworks,OutputType,IsTestProject,IsPackable,RestorePackagesWithLockFile,AssemblyName,Configuration,BaseOutputPath,BaseIntermediateOutputPath,PublishDir"@ =~= "TargetFramework,TargetFrameworks,OutputType,IsTestProject,IsPackable,RestorePackagesWithLockFile,AssemblyName,Configuration,BaseOutputPath,BaseIntermediateOutputPath"@.push(',') + "PublishDir"@);
    assert(text::is_free_of("PublishDir"@, ','));
    text::lemma_split_after("TargetFramework,TargetFrameworks,OutputType,IsTestProject,IsPackable,RestorePackagesWithLockFile,AssemblyName,Configuration,BaseOutputPath,BaseIntermediateOutputPath"@, "PublishDir"@, ',');
    reveal_strlit("TestingPlatformDotnetTestSupport");
    reveal_strlit("TargetFramework,TargetFrameworks,OutputType,IsTestProject,IsPackable,RestorePackagesWithLockFile,AssemblyName,Configuration,BaseOutputPath,BaseIntermediateOutputPath,PublishDir,TestingPlatformDotnetTestSupport");
    assert("TargetFramework,TargetFrameworks,OutputType,IsTestProject,IsPackable,RestorePackagesWithLockFile,AssemblyName,Configuration,BaseOutputPath,BaseIntermediateOutputPath,PublishDir,TestingPlatformDotnetTestSupport"@ =~= "TargetFramework,TargetFrameworks,OutputType,IsTestProject,IsPackable,RestorePackagesWithLockFile,AssemblyName,Configuration,BaseOutputPath,BaseIntermediateOutputPath,PublishDir"@.push(',') + "TestingPlatformDotnetTestSupport"@);
    assert(text::is_free_of("TestingPlatformDotnetTestSupport"@, ','));
    text::lemma_split_after("TargetFramework,TargetFrameworks,OutputType,IsTestProject,IsPackable,RestorePackagesWithLockFile,AssemblyName,Configuration,BaseOutputPath,BaseIntermediateOutputPath,PublishDir"@, "TestingPlatformDotnetTestSupport"@, ',');
    assert(eval_properties() =~= requested_properties());
    reveal_strlit("ProjectReference");
    reveal_strlit("PackageReference");
    reveal_strlit("PackageVersion");
    reveal_strlit("ProjectReference,PackageReference");
    reveal_strlit("ProjectReference,PackageReference,PackageVersion");
    text::lemma_split_whole("ProjectReference"@, ',');
    assert("ProjectReference,PackageReference"@ =~= "ProjectReference"@.push(',')
        + "PackageReference"@);
    text::lemma_split_after("ProjectReference"@, "PackageReference"@, ',');
    assert(EVAL_ITEMS@ =~= "ProjectReference,PackageReference"@.push(',') + "PackageVersion"@);
    text::lemma_split_after("ProjectReference,PackageReference"@, "PackageVersion"@, ',');
    assert(text::split(EVAL_ITEMS@, ',') =~= seq![
        "ProjectReference"@,
        "PackageReference"@,
        "PackageVersion"@,
    ]);
}

/// A batched evaluation gives of each requested property what the item reports of it, as
/// an evaluation of the project alone would.
pub proof fn law_batch_keeps_every_property(item: Map<Seq<char>, Seq<char>>, i: int)
    requires
        0 <= i < requested_properties().len(),
    ensures
        ({
            let name = requested_properties()[i];
            let value = batched_evaluation(item).property(name);
            &&& item.contains_key(name) ==> value == item[name]
            &&& !item.contains_key(name) ==> value.len() == 0
        }),
        0 <= i < eval_properties().len(),
        batched_evaluation(item).property(eval_properties()[i]) == text_under(
            item,
            eval_properties()[i],
        ),
{
    law_what_is_requested();
    assert(eval_properties().contains(eval_properties()[i]));
}

/// One of the three paths on a batch item has that key.
pub open spec fn identifies(item: Map<Seq<char>, Seq<char>>, key: Seq<char>) -> bool {
    exists|name: Seq<char>|
        (name == "OriginalItemSpec"@ || name == "MSBuildSourceProjectFile"@ || name == "Identity"@)
            && #[trigger] item.contains_key(name) && item[name].len() > 0 && path_key(item[name])
            == key
}

/// The last of the batch items that a key identifies.
pub open spec fn is_last_identified(
    items: Seq<Map<Seq<char>, Seq<char>>>,
    i: int,
    key: Seq<char>,
) -> bool {
    &&& 0 <= i < items.len()
    &&& identifies(items[i], key)
    &&& forall|j: int| i < j < items.len() ==> !identifies(#[trigger] items[j], key)
}

proof fn lemma_identifies(item: Map<Seq<char>, Seq<char>>, key: Seq<char>)
    ensures
        identifies(item, key) <==> {
            ||| text_under(item, "OriginalItemSpec"@).len() > 0 && path_key(
                text_under(item, "OriginalItemSpec"@),
            ) == key
            ||| text_under(item, "MSBuildSourceProjectFile"@).len() > 0 && path_key(
                text_under(item, "MSBuildSourceProjectFile"@),
            ) == key
            ||| text_under(item, "Identity"@).len() > 0 && path_key(text_under(item, "Identity"@))
                == key
        },
{
    if text_under(item, "OriginalItemSpec"@).len() > 0 {
        assert(item.contains_key("OriginalItemSpec"@));
    }
    if text_under(item, "MSBuildSourceProjectFile"@).len() > 0 {
        assert(item.contains_key("MSBuildSourceProjectFile"@));
    }
    if text_under(item, "Identity"@).len() > 0 {
        assert(item.contains_key("Identity"@));
    }
}

/// Every project of a batch is found under each path that identifies it, and nothing else
/// is there; of two items with one path the last counts.
pub proof fn law_batch_is_found_by_every_path(
    items: Seq<Map<Seq<char>, Seq<char>>>,
    key: Seq<char>,
)
    ensures
        batch_evaluations(items).contains_key(key) <==> exists|i: int|
            0 <= i < items.len() && identifies(#[trigger] items[i], key),
        forall|i: int| #[trigger]
            is_last_identified(items, i, key) ==> batch_evaluations(items)[key]
                == batched_evaluation(items[i]),
    decreases items.len(),
{
    if items.len() > 0 {
        let fewer = items.drop_last();
        let last = items.len() - 1;
        law_batch_is_found_by_every_path(fewer, key);
        lemma_identifies(items[last], key);
        assert forall|i: int| 0 <= i < fewer.len() implies #[trigger] fewer[i] == items[i] by {}
        if batch_evaluations(fewer).contains_key(key) {
            let i = choose|i: int| 0 <= i < fewer.len() && identifies(#[trigger] fewer[i], key);
            assert(identifies(items[i], key));
        }
        if exists|i: int| 0 <= i < items.len() && identifies(#[trigger] items[i], key) {
            let i = choose|i: int| 0 <= i < items.len() && identifies(#[trigger] items[i], key);
            if i < last {
                assert(identifies(fewer[i], key));
            }
        }
        assert forall|i: int| #[trigger] is_last_identified(items, i, key) implies
            batch_evaluations(items)[key] == batched_evaluation(items[i]) by {
            if i < last {
                assert(!identifies(items[last], key));
                assert forall|j: int| i < j < fewer.len() implies !identifies(
                    #[trigger] fewer[j],
                    key,
                ) by {
                    assert(fewer[j] == items[j]);
                }
                assert(is_last_identified(fewer, i, key));
            }
        }
    }
}

/// A project in a directory is reported exactly where the output names its directory and
/// its file, in any slashes and case, with an opening parenthesis behind.
pub proof fn law_projects_are_reported_by_directory_and_file(
    output: Seq<char>,
    path: Seq<char>,
    above: Seq<char>,
    parent: Seq<char>,
    file: Seq<char>,
)
    requires
        path_key(path) == above.push('/') + parent.push('/') + file,
        text::is_free_of(parent, '/'),
        text::is_free_of(file, '/'),
    ensures
        is_reported(output, path) <==> text::contains_text(
            path_key(output),
            seq!['/'] + parent.push('/') + file.push('('),
        ),
{
    let key = path_key(path);
    let at = above.len() as int;
    let last = at + 1 + parent.len();
    text::lemma_last_index(key, '/');
    assert(key[last] == '/');
    let found = text::last_index(key, '/')->Some_0;
    if found > last {
        assert(key[found] == file[found - last - 1]);
    }
    let head = key.take(last);
    text::lemma_last_index(head, '/');
    assert(head[at] == '/');
    let from = text::last_index(head, '/')->Some_0;
    if from > at {
        assert(head[from] == parent[from - at - 1]);
    }
    assert(parent_and_file(key).push('(') =~= seq!['/'] + parent.push('/') + file.push('('));
}

/// After a failed batch, each project is either reported or tried again, and the batch is
/// tried again exactly where there is one of each.
pub proof fn law_every_project_is_reported_or_retried(
    output: ProcessOutput,
    paths: Seq<Seq<char>>,
    path: Seq<char>,
)
    ensures
        ({
            let combined = output.stdout@ + output.stderr@;
            &&& paths.contains(path) ==> (reported(combined, paths).contains(path)
                <==> !unreported(combined, paths).contains(path))
            &&& reported(combined, paths).contains(path) ==> paths.contains(path)
            &&& unreported(combined, paths).contains(path) ==> paths.contains(path)
            &&& is_retried(output, paths) <==> output.exit_code != 0 && (exists|i: int|
                0 <= i < paths.len() && is_reported(combined, #[trigger] paths[i])) && (exists|
                i: int,
            |
                0 <= i < paths.len() && !is_reported(combined, #[trigger] paths[i]))
        }),
{
    let combined = output.stdout@ + output.stderr@;
    let chosen = |path: Seq<char>| is_reported(combined, path);
    let kept = |path: Seq<char>| !is_reported(combined, path);
    text::lemma_filter_members(paths, chosen, path);
    text::lemma_filter_members(paths, kept, path);
    lemma_filter_splits(paths, chosen);
    assert(kept =~= (|path: Seq<char>| !chosen(path)));
    let bad = reported(combined, paths);
    let good = unreported(combined, paths);
    if bad.len() > 0 {
        text::lemma_filter_members(paths, chosen, bad[0]);
        assert(bad.contains(bad[0]));
        let i = choose|i: int| 0 <= i < paths.len() && paths[i] == bad[0];
        assert(is_reported(combined, paths[i]));
    }
    if good.len() > 0 {
        text::lemma_filter_members(paths, kept, good[0]);
        assert(good.contains(good[0]));
        let i = choose|i: int| 0 <= i < paths.len() && paths[i] == good[0];
        assert(!is_reported(combined, paths[i]));
    }
    if exists|i: int| 0 <= i < paths.len() && is_reported(combined, #[trigger] paths[i]) {
        let i = choose|i: int| 0 <= i < paths.len() && is_reported(combined, #[trigger] paths[i]);
        text::lemma_filter_members(paths, chosen, paths[i]);
        assert(paths.contains(paths[i]));
        assert(bad.contains(paths[i]));
    }
    if exists|i: int| 0 <= i < paths.len() && !is_reported(combined, #[trigger] paths[i]) {
        let i = choose|i: int| 0 <= i < paths.len() && !is_reported(combined, #[trigger] paths[i]);
        text::lemma_filter_members(paths, kept, paths[i]);
        assert(paths.contains(paths[i]));
        assert(good.contains(paths[i]));
    }
}

/// What an answer says: the strings under `Properties` and the items under `Items`, each
/// given once at most, whatever else stands beside them. Of an item the string metadata
/// count.
pub proof fn law_answers_are_read(
    content: Seq<char>,
    members: Seq<(Seq<char>, Seq<char>)>,
    i: int,
    j: int,
    properties: Map<Seq<char>, Seq<char>>,
    lists: Map<Seq<char>, Seq<Json>>,
)
    requires
        json::outer_members(content) == Some(members),
        0 <= i < members.len(),
        0 <= j < members.len(),
        members[i].0 == "Properties"@,
        members[j].0 == "Items"@,
        forall|k: int| 0 <= k < members.len() && k != i ==> (#[trigger] members[k]).0
            != "Properties"@,
        forall|k: int| 0 <= k < members.len() && k != j ==> (#[trigger] members[k]).0 != "Items"@,
        json::strings_in(members[i].1) == Some(properties),
        json::lists_in("["@ + members[j].1 + "]"@) == Some(lists),
    ensures
        evaluation_in(content) is Some,
        ({
            let evaluation = evaluation_in(content)->Some_0;
            &&& evaluation.properties == properties
            &&& forall|item_type: Seq<char>| #[trigger]
                evaluation.items.contains_key(item_type) <==> lists.contains_key(item_type)
            &&& forall|item_type: Seq<char>| #[trigger]
                lists.contains_key(item_type) ==> evaluation.items[item_type].len()
                    == lists[item_type].len()
            &&& forall|item_type: Seq<char>, k: int|
                lists.contains_key(item_type) && 0 <= k < lists[item_type].len()
                    ==> #[trigger] evaluation.items[item_type][k] == json::string_members(
                    lists[item_type][k],
                )
        }),
{
    json::lemma_only_occurrence(members, "Properties"@, i);
    json::lemma_only_occurrence(members, "Items"@, j);
}

/// An answer without one of the two says nothing of it; one that gives a field twice is
/// none.
pub proof fn law_fields_may_be_missing_but_not_repeated(
    content: Seq<char>,
    members: Seq<(Seq<char>, Seq<char>)>,
    i: int,
    j: int,
)
    requires
        json::outer_members(content) == Some(members),
    ensures
        (forall|k: int|
            0 <= k < members.len() ==> (#[trigger] members[k]).0 != "Properties"@) && (forall|k:
            int|
            0 <= k < members.len() ==> (#[trigger] members[k]).0 != "Items"@) ==> ({
            &&& evaluation_in(content) is Some
            &&& forall|name: Seq<char>| !(#[trigger] evaluation_in(
                content,
            )->Some_0.properties.contains_key(name))
            &&& forall|name: Seq<char>| !(#[trigger] evaluation_in(
                content,
            )->Some_0.items.contains_key(name))
        }),
        0 <= i < j < members.len() && members[i].0 == members[j].0 && (members[i].0
            == "Properties"@ || members[i].0 == "Items"@) ==> evaluation_in(content) is None,
{
    if (forall|k: int| 0 <= k < members.len() ==> (#[trigger] members[k]).0 != "Properties"@) && (
    forall|k: int| 0 <= k < members.len() ==> (#[trigger] members[k]).0 != "Items"@) {
        json::lemma_no_occurrence(members, "Properties"@);
        json::lemma_no_occurrence(members, "Items"@);
    }
    if 0 <= i < j < members.len() && members[i].0 == members[j].0 {
        json::lemma_two_occurrences(members, members[i].0, i, j);
    }
}

/// How MSBuild is asked about one project, and about many.
pub proof fn law_questions_name_what_is_asked(path: Seq<char>)
    ensures
        evaluation_arguments(path).len() == 5,
        evaluation_arguments(path)[0] == "msbuild"@,
        evaluation_arguments(path)[1] == path,
        evaluation_arguments(path)[2] == "-nologo"@,
        evaluation_arguments(path)[3] == "-getProperty:"@ + text::joined(
            requested_properties(),
            ',',
        ),
        evaluation_arguments(path)[4]
            == "-getItem:ProjectReference,PackageReference,PackageVersion"@,
        batch_arguments(path) == seq![
            "msbuild"@,
            path,
            "-nologo"@,
            "-maxCpuCount"@,
            "-nodeReuse:false"@,
            "-t:MoonCollect"@,
            "-getItem:MoonEval"@,
        ],
{
    law_what_is_requested();
    text::law_pieces_make_up_the_text(EVAL_PROPERTIES@, ',');
    reveal_strlit("-getItem:");
    reveal_strlit("ProjectReference,PackageReference,PackageVersion");
    reveal_strlit("-getItem:ProjectReference,PackageReference,PackageVersion");
    assert("-getItem:"@ + EVAL_ITEMS@
        =~= "-getItem:ProjectReference,PackageReference,PackageVersion"@);
}

/// Failures report the exit code and all that was printed.
pub proof fn law_failures_report_everything(path: Seq<char>, output: ProcessOutput)
    ensures
        text::contains_text(evaluation_failure(path, output), path),
        text::contains_text(
            evaluation_failure(path, output),
            text::decimal(output.exit_code as int),
        ),
        (output.stdout@ + output.stderr@).is_suffix_of(evaluation_failure(path, output)),
        text::contains_text(batch_failure(output), text::decimal(output.exit_code as int)),
        (output.stdout@ + output.stderr@).is_suffix_of(batch_failure(output)),
{
    let code = text::decimal(output.exit_code as int);
    let printed = output.stdout@ + output.stderr@;
    let whole = evaluation_failure(path, output);
    let open = "MSBuild evaluation failed for "@;
    let middle = " (exit code "@;
    let at = open.len() as int;
    assert(whole.subrange(at, at + path.len()) =~= path);
    assert(text::occurs_at(whole, path, at));
    let there = (open.len() + path.len() + middle.len()) as int;
    assert(whole.subrange(there, there + code.len()) =~= code);
    assert(text::occurs_at(whole, code, there));
    assert(whole.subrange(whole.len() - printed.len(), whole.len() as int) =~= printed);
    let batch = batch_failure(output);
    let start = "Batched MSBuild evaluation failed (exit code "@.len() as int;
    assert(batch.subrange(start, start + code.len()) =~= code);
    assert(text::occurs_at(batch, code, start));
    assert(batch.subrange(batch.len() - printed.len(), batch.len() as int) =~= printed);
}

/// An answer begins at the first opening brace of an output; without one there is none.
pub proof fn law_answers_begin_at_the_first_brace(noise: Seq<char>, answer: Seq<char>)
    requires
        text::is_free_of(noise, '{'),
    ensures
        json_part(noise + (seq!['{'] + answer)) == Some(seq!['{'] + answer),
        json_part(noise) is None,
{
    let whole = noise + (seq!['{'] + answer);
    let at = noise.len() as int;
    text::lemma_first_index(whole, '{');
    text::lemma_first_index(noise, '{');
    assert(whole[at] == '{');
    let found = text::first_index(whole, '{')->Some_0;
    if found < at {
        assert(whole[found] == noise[found]);
    }
    assert(whole.skip(at) =~= seq!['{'] + answer);
}

/// A batch is what the `MoonEval` items of an answer report; an answer without them reports
/// no project.
pub proof fn law_batches_are_the_collected_items(
    stdout: Seq<char>,
    raw: EvalView,
    results: Map<Seq<char>, EvalView>,
)
    requires
        reads_as(stdout, Ok(raw)),
        batch_reads_as(stdout, Ok(results)),
    ensures
        raw.items.contains_key("MoonEval"@) ==> results == batch_evaluations(
            raw.items["MoonEval"@],
        ),
        !raw.items.contains_key("MoonEval"@) ==> results.dom() == Set::<Seq<char>>::empty(),
{
    let other = choose|other: EvalView| #[trigger]
        reads_as(stdout, Ok(other)) && results == batch_evaluations(other.items_of("MoonEval"@));
    assert(other == raw);
    if !raw.items.contains_key("MoonEval"@) {
        assert(results =~= Map::<Seq<char>, EvalView>::empty());
    }
}

/// An evaluation and its items say what they hold.
pub proof fn law_evaluations_say_what_they_hold(evaluation: MsbuildEvaluation, item: EvalItem)
    ensures
        evaluation@.properties == evaluation.properties@,
        evaluation@.items == evaluation.items@,
        item.deep_view() == item.metadata@,
        evaluation.deep_view() == evaluation@,
{
}

proof fn lemma_traversal_frame()
    ensures
        text::contains_text(traversal_head(), "<Project DefaultTargets=\"MoonCollect\">"@),
        text::contains_text(traversal_tail(), "<Target Name=\"MoonCollect\" Returns=\"@(MoonEval)\">"@),
        text::contains_text(traversal_tail(), "Projects=\"@(MoonProject)\""@),
        text::contains_text(traversal_tail(), "Targets=\"MoonEvalInner\""@),
        text::contains_text(traversal_tail(), "BuildInParallel=\"true\""@),
        text::contains_text(traversal_tail(), "ContinueOnError=\"WarnAndContinue\""@),
        text::contains_text(traversal_tail(), "CustomAfterMicrosoftCommonTargets=$(MSBuildThisFileDirectory)moon-eval.targets;"@),
        text::contains_text(traversal_tail(), "CustomAfterMicrosoftCommonCrossTargetingTargets=$(MSBuildThisFileDirectory)moon-eval.targets"@),
        text::contains_text(traversal_tail(), "<Output TaskParameter=\"TargetOutputs\" ItemName=\"MoonEval\" />"@),
{
    let head = traversal_head();
    let tail = traversal_tail();
    reveal_strlit("<Project DefaultTargets=\"MoonCollect\">\n  <ItemGroup>\n");
    reveal_strlit("<Project DefaultTargets=\"MoonCollect\">");
    assert(head.subrange(0, 38) =~= "<Project DefaultTargets=\"MoonCollect\">"@);
    assert(text::occurs_at(head, "<Project DefaultTargets=\"MoonCollect\">"@, 0));
    reveal_strlit("  </ItemGroup>\n  <Target Name=\"MoonCollect\" Returns=\"@(MoonEval)\">\n    <MSBuild\n      Projects=\"@(MoonProject)\"\n      Targets=\"MoonEvalInner\"\n      BuildInParallel=\"true\"\n      ContinueOnError=\"WarnAndContinue\"\n      Properties=\"CustomAfterMicrosoftCommonTargets=$(MSBuildThisFileDirectory)moon-eval.targets;CustomAfterMicrosoftCommonCrossTargetingTargets=$(MSBuildThisFileDirectory)moon-eval.targets\">\n      <Output TaskParameter=\"TargetOutputs\" ItemName=\"MoonEval\" />\n    </MSBuild>\n  </Target>\n</Project>\n");
    reveal_strlit("<Target Name=\"MoonCollect\" Returns=\"@(MoonEval)\">");
    assert(tail.subrange(17, 66) =~= "<Target Name=\"MoonCollect\" Returns=\"@(MoonEval)\">"@);
    assert(text::occurs_at(tail, "<Target Name=\"MoonCollect\" Returns=\"@(MoonEval)\">"@, 17));
    reveal_strlit("Projects=\"@(MoonProject)\"");
    assert(tail.subrange(86, 111) =~= "Projects=\"@(MoonProject)\""@);
    assert(text::occurs_at(tail, "Projects=\"@(MoonProject)\""@, 86));
    reveal_strlit("Targets=\"MoonEvalInner\"");
    assert(tail.subrange(118, 141) =~= "Targets=\"MoonEvalInner\""@);
    assert(text::occurs_at(tail, "Targets=\"MoonEvalInner\""@, 118));
    reveal_strlit("BuildInParallel=\"true\"");
    assert(tail.subrange(148, 170) =~= "BuildInParallel=\"true\""@);
    assert(text::occurs_at(tail, "BuildInParallel=\"true\""@, 148));
    reveal_strlit("ContinueOnError=\"WarnAndContinue\"");
    assert(tail.subrange(177, 210) =~= "ContinueOnError=\"WarnAndContinue\""@);
    assert(text::occurs_at(tail, "ContinueOnError=\"WarnAndContinue\""@, 177));
    reveal_strlit("CustomAfterMicrosoftCommonTargets=$(MSBuildThisFileDirectory)moon-eval.targets;");
    assert(tail.subrange(229, 308) =~= "CustomAfterMicrosoftCommonTargets=$(MSBuildThisFileDirectory)moon-eval.targets;"@);
    assert(text::occurs_at(tail, "CustomAfterMicrosoftCommonTargets=$(MSBuildThisFileDirectory)moon-eval.targets;"@, 229));
    reveal_strlit("CustomAfterMicrosoftCommonCrossTargetingTargets=$(MSBuildThisFileDirectory)moon-eval.targets");
    assert(tail.subrange(308, 400) =~= "CustomAfterMicrosoftCommonCrossTargetingTargets=$(MSBuildThisFileDirectory)moon-eval.targets"@);
    assert(text::occurs_at(tail, "CustomAfterMicrosoftCommonCrossTargetingTargets=$(MSBuildThisFileDirectory)moon-eval.targets"@, 308));
    reveal_strlit("<Output TaskParameter=\"TargetOutputs\" ItemName=\"MoonEval\" />");
    assert(tail.subrange(409, 469) =~= "<Output TaskParameter=\"TargetOutputs\" ItemName=\"MoonEval\" />"@);
    assert(text::occurs_at(tail, "<Output TaskParameter=\"TargetOutputs\" ItemName=\"MoonEval\" />"@, 409));
}

/// The traversal project collects, by default and in parallel, what the injected target
/// returns for each of the projects, and goes on where one of them fails.
pub proof fn law_traversal_collects_from_every_project(paths: Seq<Seq<char>>)
    ensures
        text::contains_text(traversal_xml(paths), "<Project DefaultTargets=\"MoonCollect\">"@),
        text::contains_text(traversal_xml(paths), "<Target Name=\"MoonCollect\" Returns=\"@(MoonEval)\">"@),
        text::contains_text(traversal_xml(paths), "Projects=\"@(MoonProject)\""@),
        text::contains_text(traversal_xml(paths), "Targets=\"MoonEvalInner\""@),
        text::contains_text(traversal_xml(paths), "BuildInParallel=\"true\""@),
        text::contains_text(traversal_xml(paths), "ContinueOnError=\"WarnAndContinue\""@),
        text::contains_text(traversal_xml(paths), "CustomAfterMicrosoftCommonTargets=$(MSBuildThisFileDirectory)moon-eval.targets;"@),
        text::contains_text(traversal_xml(paths), "CustomAfterMicrosoftCommonCrossTargetingTargets=$(MSBuildThisFileDirectory)moon-eval.targets"@),
        text::contains_text(traversal_xml(paths), "<Output TaskParameter=\"TargetOutputs\" ItemName=\"MoonEval\" />"@),
{
    let none = Seq::<char>::empty();
    let body = text::concatenated(paths.map_values(|path: Seq<char>| include_line(path)));
    let front = traversal_head() + body;
    let rest = body + traversal_tail();
    lemma_traversal_frame();
    assert(traversal_xml(paths) =~= front + traversal_tail() + none);
    assert(traversal_xml(paths) =~= none + traversal_head() + rest);
    text::lemma_contains_inside(none, traversal_head(), rest, "<Project DefaultTargets=\"MoonCollect\">"@);
    text::lemma_contains_inside(front, traversal_tail(), none, "<Target Name=\"MoonCollect\" Returns=\"@(MoonEval)\">"@);
    text::lemma_contains_inside(front, traversal_tail(), none, "Projects=\"@(MoonProject)\""@);
    text::lemma_contains_inside(front, traversal_tail(), none, "Targets=\"MoonEvalInner\""@);
    text::lemma_contains_inside(front, traversal_tail(), none, "BuildInParallel=\"true\""@);
    text::lemma_contains_inside(front, traversal_tail(), none, "ContinueOnError=\"WarnAndContinue\""@);
    text::lemma_contains_inside(front, traversal_tail(), none, "CustomAfterMicrosoftCommonTargets=$(MSBuildThisFileDirectory)moon-eval.targets;"@);
    text::lemma_contains_inside(front, traversal_tail(), none, "CustomAfterMicrosoftCommonCrossTargetingTargets=$(MSBuildThisFileDirectory)moon-eval.targets"@);
    text::lemma_contains_inside(front, traversal_tail(), none, "<Output TaskParameter=\"TargetOutputs\" ItemName=\"MoonEval\" />"@);
}

/// Every project is listed by an element of its own, with its path escaped.
pub proof fn law_projects_are_listed_by_elements(paths: Seq<Seq<char>>, i: int)
    requires
        0 <= i < paths.len(),
    ensures
        text::contains_text(
            traversal_xml(paths),
            "<MoonProject Include=\""@ + escaped(paths[i]) + "\" />"@,
        ),
{
    let line = include_line(paths[i]);
    let element = "<MoonProject Include=\""@ + escaped(paths[i]) + "\" />"@;
    reveal_strlit("    <MoonProject Include=\"");
    reveal_strlit("<MoonProject Include=\"");
    reveal_strlit("\" />");
    reveal_strlit("\" />\n");
    assert(line.subrange(4, 4 + element.len() as int) =~= element);
    assert(text::occurs_at(line, element, 4));
    law_traversal_lists_every_project(paths, i);
    lemma_contains_within(traversal_xml(paths), line, element);
}

proof fn lemma_contains_within(whole: Seq<char>, part: Seq<char>, needle: Seq<char>)
    requires
        text::contains_text(whole, part),
        text::contains_text(part, needle),
    ensures
        text::contains_text(whole, needle),
{
    let at = choose|at: int| text::occurs_at(whole, part, at);
    let from = whole.take(at);
    let to = whole.skip(at + part.len());
    assert(whole =~= from + part + to);
    text::lemma_contains_inside(from, part, to, needle);
}

/// The injected target returns one item for the project, which holds each requested property
/// under its own name, and the references in the lists that are read from it.
pub proof fn law_targets_return_what_is_read(i: int)
    requires
        0 <= i < requested_properties().len(),
    ensures
        ({
            let name = requested_properties()[i];
            text::contains_text(
                targets_xml(),
                seq!['<'] + name + seq!['>', '$', '('] + name + seq![')', '<', '/'] + name + seq!['>'],
            )
        }),
        text::contains_text(targets_xml(), "<Target Name=\"MoonEvalInner\" Returns=\"@(_MoonEvalResult)\">"@),
        text::contains_text(targets_xml(), "<_MoonEvalResult Include=\"$(MSBuildProjectFullPath)\">"@),
        text::contains_text(targets_xml(), "<MoonProjectRefs>@(ProjectReference->'%(FullPath)', '|')</MoonProjectRefs>"@),
        text::contains_text(targets_xml(), "<MoonPackageRefs>@(PackageReference->'%(Identity)@%(Version)', '|')</MoonPackageRefs>"@),
{
    law_what_is_requested();
    let name = requested_properties()[i];
    let line = property_line(name);
    let element = seq!['<'] + name + seq!['>', '$', '('] + name + seq![')', '<', '/'] + name + seq![
        '>',
    ];
    reveal_strlit("        <");
    reveal_strlit(">$(");
    reveal_strlit(")</");
    reveal_strlit(">\n");
    assert(line.subrange(8, 8 + element.len() as int) =~= element);
    assert(text::occurs_at(line, element, 8));
    law_targets_report_every_property(i);
    lemma_contains_within(targets_xml(), line, element);
    let head = "<Project>\n  <Target Name=\"MoonEvalInner\" Returns=\"@(_MoonEvalResult)\">\n    <ItemGroup>\n      <_MoonEvalResult Include=\"$(MSBuildProjectFullPath)\">\n"@;
    let tail = "        <MoonProjectRefs>@(ProjectReference->'%(FullPath)', '|')</MoonProjectRefs>\n        <MoonPackageRefs>@(PackageReference->'%(Identity)@%(Version)', '|')</MoonPackageRefs>\n      </_MoonEvalResult>\n    </ItemGroup>\n  </Target>\n</Project>\n"@;
    reveal_strlit("<Project>\n  <Target Name=\"MoonEvalInner\" Returns=\"@(_MoonEvalResult)\">\n    <ItemGroup>\n      <_MoonEvalResult Include=\"$(MSBuildProjectFullPath)\">\n");
    reveal_strlit("<Target Name=\"MoonEvalInner\" Returns=\"@(_MoonEvalResult)\">");
    assert(head.subrange(12, 70) =~= "<Target Name=\"MoonEvalInner\" Returns=\"@(_MoonEvalResult)\">"@);
    assert(text::occurs_at(head, "<Target Name=\"MoonEvalInner\" Returns=\"@(_MoonEvalResult)\">"@, 12));
    reveal_strlit("<_MoonEvalResult Include=\"$(MSBuildProjectFullPath)\">");
    assert(head.subrange(93, 146) =~= "<_MoonEvalResult Include=\"$(MSBuildProjectFullPath)\">"@);
    assert(text::occurs_at(head, "<_MoonEvalResult Include=\"$(MSBuildProjectFullPath)\">"@, 93));
    reveal_strlit("        <MoonProjectRefs>@(ProjectReference->'%(FullPath)', '|')</MoonProjectRefs>\n        <MoonPackageRefs>@(PackageReference->'%(Identity)@%(Version)', '|')</MoonPackageRefs>\n      </_MoonEvalResult>\n    </ItemGroup>\n  </Target>\n</Project>\n");
    reveal_strlit("<MoonProjectRefs>@(ProjectReference->'%(FullPath)', '|')</MoonProjectRefs>");
    assert(tail.subrange(8, 82) =~= "<MoonProjectRefs>@(ProjectReference->'%(FullPath)', '|')</MoonProjectRefs>"@);
    assert(text::occurs_at(tail, "<MoonProjectRefs>@(ProjectReference->'%(FullPath)', '|')</MoonProjectRefs>"@, 8));
    reveal_strlit("<MoonPackageRefs>@(PackageReference->'%(Identity)@%(Version)', '|')</MoonPackageRefs>");
    assert(tail.subrange(91, 176) =~= "<MoonPackageRefs>@(PackageReference->'%(Identity)@%(Version)', '|')</MoonPackageRefs>"@);
    assert(text::occurs_at(tail, "<MoonPackageRefs>@(PackageReference->'%(Identity)@%(Version)', '|')</MoonPackageRefs>"@, 91));
    let none = Seq::<char>::empty();
    let lines = text::concatenated(
        eval_properties().map_values(|name: Seq<char>| property_line(name)),
    );
    assert(targets_xml() =~= none + head + (lines + tail));
    assert(targets_xml() =~= (head + lines) + tail + none);
    text::lemma_contains_inside(none, head, lines + tail, "<Target Name=\"MoonEvalInner\" Returns=\"@(_MoonEvalResult)\">"@);
    text::lemma_contains_inside(none, head, lines + tail, "<_MoonEvalResult Include=\"$(MSBuildProjectFullPath)\">"@);
    text::lemma_contains_inside(head + lines, tail, none, "<MoonProjectRefs>@(ProjectReference->'%(FullPath)', '|')</MoonProjectRefs>"@);
    text::lemma_contains_inside(head + lines, tail, none, "<MoonPackageRefs>@(PackageReference->'%(Identity)@%(Version)', '|')</MoonPackageRefs>"@);
}

} // verus!
