//! On-disk cache of evaluated NuGet package sets, keyed per moon project.
//!
//! Task hashing needs the same data the project graph just evaluated, but runs
//! later, often in a separate process, against an already-cached project graph,
//! so it cannot rely on in-memory state. Without this, a workspace with no
//! lock files pays one MSBuild evaluation *per project* while hashing, which is
//! exactly what batching the graph evaluation exists to avoid.

use crate::discovery;
use crate::discovery::DirListing;
use crate::discovery::DirPath;
use crate::discovery::PathView;
use crate::json;
use crate::json::Json;
use crate::str_map::StrMap;
use crate::text;
use vstd::prelude::*;

verus! {

// ---------------------------------------------------------------------------
// Digests
// ---------------------------------------------------------------------------

/// The FNV-1a hash of a byte sequence.
pub open spec fn fnv1a(bytes: Seq<u8>) -> u64
    decreases bytes.len(),
{
    if bytes.len() == 0 {
        0xcbf2_9ce4_8422_2325
    } else {
        (fnv1a(bytes.drop_last()) ^ (bytes.last() as u64)).wrapping_mul(0x0000_0100_0000_01b3)
    }
}

/// One hexadecimal digit.
pub open spec fn hex_digit(n: nat) -> char {
    if n < 10 {
        ((48 + n) as u8) as char
    } else {
        ((87 + n) as u8) as char
    }
}

/// The last `count` hexadecimal digits of a number.
pub open spec fn hex(n: nat, count: nat) -> Seq<char>
    decreases count,
{
    if count == 0 {
        Seq::empty()
    } else {
        hex(n / 16, (count - 1) as nat).push(hex_digit(n % 16))
    }
}

/// The digest of a text: the FNV-1a hash of its UTF-8 bytes in sixteen hexadecimal
/// digits.
pub open spec fn digest_of(content: Seq<char>) -> Seq<char> {
    hex(fnv1a(vstd::utf8::encode_utf8(content)) as nat, 16)
}

/// Appends the last `count` hexadecimal digits of `n`.
fn push_hex(r: &mut Vec<char>, n: u64, count: u8)
    ensures
        final(r)@ == old(r)@ + hex(n as nat, count as nat),
    decreases count,
{
    let ghost was = r@;
    if count == 0 {
        assert(r@ =~= was + hex(n as nat, count as nat));
    } else {
        push_hex(r, n / 16, count - 1);
        let low: u8 = (n % 16) as u8;
        let digit: u8 = if low < 10 {
            48 + low
        } else {
            87 + low
        };
        r.push(digit as char);
        assert(r@ =~= was + hex(n as nat, count as nat));
    }
}

/// FNV-1a digest, rendered hex. Used only to discriminate cache keys, never
/// for integrity. The same for the same text on every machine.
pub fn content_digest(content: &str) -> (r: String)
    ensures
        r@ == digest_of(content@),
{
    let bytes = content.as_bytes();
    let mut hash: u64 = 0xcbf2_9ce4_8422_2325;
    assert(bytes@.take(0) =~= Seq::empty());
    for i in 0..bytes.len()
        invariant
            hash == fnv1a(bytes@.take(i as int)),
    {
        assert(bytes@.take(i + 1).drop_last() =~= bytes@.take(i as int));
        hash = (hash ^ (bytes[i] as u64)).wrapping_mul(0x0000_0100_0000_01b3);
    }
    assert(bytes@.take(bytes@.len() as int) =~= bytes@);
    let mut r: Vec<char> = Vec::new();
    push_hex(&mut r, hash, 16);
    text::string_of(&r)
}

proof fn lemma_hex_len(n: nat, count: nat)
    ensures
        hex(n, count).len() == count,
    decreases count,
{
    if count > 0 {
        lemma_hex_len(n / 16, (count - 1) as nat);
    }
}

proof fn lemma_hex_injective(a: nat, b: nat, count: nat)
    requires
        hex(a, count) == hex(b, count),
    ensures
        a % pow16(count) == b % pow16(count),
    decreases count,
{
    if count > 0 {
        let fewer = (count - 1) as nat;
        assert(hex(a, count).drop_last() =~= hex(a / 16, fewer));
        assert(hex(b, count).drop_last() =~= hex(b / 16, fewer));
        lemma_hex_injective(a / 16, b / 16, fewer);
        assert(hex(a, count).last() == hex_digit(a % 16));
        assert(hex(b, count).last() == hex_digit(b % 16));
        assert(a % 16 == b % 16);
        lemma_mod_pow16(a, count);
        lemma_mod_pow16(b, count);
    }
}

/// Sixteen to the power of `n`.
spec fn pow16(n: nat) -> nat
    decreases n,
{
    if n == 0 {
        1
    } else {
        16 * pow16((n - 1) as nat)
    }
}

proof fn lemma_pow16_positive(n: nat)
    ensures
        pow16(n) > 0,
    decreases n,
{
    if n > 0 {
        lemma_pow16_positive((n - 1) as nat);
    }
}

proof fn lemma_mod_pow16(a: nat, count: nat)
    requires
        count > 0,
    ensures
        a % pow16(count) == 16 * ((a / 16) % pow16((count - 1) as nat)) + a % 16,
{
    let m = pow16((count - 1) as nat) as int;
    lemma_pow16_positive((count - 1) as nat);
    vstd::arithmetic::div_mod::lemma_breakdown(a as int, 16, m);
}

/// Digests tell hashes apart: two texts have the same digest only where their hashes
/// are the same.
pub proof fn law_digest_renders_hash(a: Seq<char>, b: Seq<char>)
    ensures
        digest_of(a).len() == 16,
        digest_of(a) == digest_of(b) <==> fnv1a(vstd::utf8::encode_utf8(a)) == fnv1a(
            vstd::utf8::encode_utf8(b),
        ),
{
    let x = fnv1a(vstd::utf8::encode_utf8(a));
    let y = fnv1a(vstd::utf8::encode_utf8(b));
    lemma_hex_len(x as nat, 16);
    if digest_of(a) == digest_of(b) {
        lemma_hex_injective(x as nat, y as nat, 16);
        assert(pow16(16) == 0x1_0000_0000_0000_0000) by {
            reveal_with_fuel(pow16, 17);
        }
        vstd::arithmetic::div_mod::lemma_small_mod(x as nat, pow16(16));
        vstd::arithmetic::div_mod::lemma_small_mod(y as nat, pow16(16));
    }
}

/// The number that hexadecimal digits spell.
pub open spec fn spelled(digits: Seq<char>) -> nat
    decreases digits.len(),
{
    if digits.len() == 0 {
        0
    } else {
        match text::hex_digit_value(digits.last()) {
            Some(value) => 16 * spelled(digits.drop_last()) + value as nat,
            None => 0,
        }
    }
}

proof fn lemma_hex_spelled(n: nat, count: nat)
    ensures
        spelled(hex(n, count)) == n % pow16(count),
        forall|i: int|
            0 <= i < hex(n, count).len() ==> ('0' <= #[trigger] hex(n, count)[i] <= '9' || 'a'
                <= hex(n, count)[i] <= 'f'),
    decreases count,
{
    if count > 0 {
        let fewer = (count - 1) as nat;
        let before = hex(n / 16, fewer);
        lemma_hex_spelled(n / 16, fewer);
        lemma_mod_pow16(n, count);
        assert(hex(n, count).drop_last() =~= before);
        assert(hex(n, count).last() == hex_digit(n % 16));
        assert(text::hex_digit_value(hex_digit(n % 16)) == Some((n % 16) as int));
        assert forall|i: int| 0 <= i < hex(n, count).len() implies ('0' <= #[trigger] hex(
            n,
            count,
        )[i] <= '9' || 'a' <= hex(n, count)[i] <= 'f') by {
            if i < before.len() {
                assert(hex(n, count)[i] == before[i]);
            }
        }
    }
}

/// One ASCII character more is one byte more.
proof fn lemma_encode_push(s: Seq<char>, c: char)
    requires
        (c as u32) < 128,
    ensures
        vstd::utf8::encode_utf8(s.push(c)) == vstd::utf8::encode_utf8(s).push(c as u8),
    decreases s.len(),
{
    if s.len() == 0 {
        let one = seq![c];
        assert(s.push(c) =~= one);
        assert(vstd::utf8::is_ascii_chars(one));
        vstd::utf8::is_ascii_chars_encode_utf8(one);
        assert(vstd::utf8::encode_utf8(one) =~= vstd::utf8::encode_utf8(s).push(c as u8));
    } else {
        assert(s.push(c).drop_first() =~= s.drop_first().push(c));
        lemma_encode_push(s.drop_first(), c);
        assert(vstd::utf8::encode_utf8(s.push(c)) =~= vstd::utf8::encode_utf8(s).push(c as u8));
    }
}

/// A digest spells its hash, in sixteen small hexadecimal digits.
pub proof fn law_digest_spells_hash(s: Seq<char>)
    ensures
        spelled(digest_of(s)) == fnv1a(vstd::utf8::encode_utf8(s)),
        digest_of(s).len() == 16,
        forall|i: int|
            0 <= i < 16 ==> ('0' <= #[trigger] digest_of(s)[i] <= '9' || 'a' <= digest_of(s)[i]
                <= 'f'),
{
    let hash = fnv1a(vstd::utf8::encode_utf8(s));
    lemma_hex_len(hash as nat, 16);
    lemma_hex_spelled(hash as nat, 16);
    assert(pow16(16) == 0x1_0000_0000_0000_0000) by {
        reveal_with_fuel(pow16, 17);
    }
    vstd::arithmetic::div_mod::lemma_small_mod(hash as nat, pow16(16));
}

/// What one ASCII character more does to the digest of a text: the number that the digest
/// spells takes one step of the hash.
pub proof fn law_digest_takes_a_step(s: Seq<char>, c: char)
    requires
        (c as u32) < 128,
    ensures
        spelled(digest_of(s.push(c))) == ((spelled(digest_of(s)) as u64) ^ (c as u64)).wrapping_mul(
            0x0000_0100_0000_01b3,
        ),
{
    law_digest_spells_hash(s);
    law_digest_spells_hash(s.push(c));
    lemma_encode_push(s, c);
    let bytes = vstd::utf8::encode_utf8(s);
    assert(bytes.push(c as u8).drop_last() =~= bytes);
    assert(bytes.push(c as u8).last() as u64 == c as u64);
}

// ---------------------------------------------------------------------------
// Files
// ---------------------------------------------------------------------------

/// A character that stands for itself in the name of a cache file.
pub open spec fn is_safe(c: char) -> bool {
    ||| 'a' <= c <= 'z'
    ||| 'A' <= c <= 'Z'
    ||| '0' <= c <= '9'
    ||| c == '-'
    ||| c == '_'
    ||| c == '.'
}

/// A project id as it stands in the name of a cache file.
pub open spec fn safe_id(project_id: Seq<char>) -> Seq<char> {
    project_id.map_values(
        |c: char|
            if is_safe(c) {
                c
            } else {
                '_'
            },
    )
}

/// The cache file of a project.
pub open spec fn cache_file(workspace_root: PathView, project_id: Seq<char>) -> PathView {
    workspace_root.join(".moon"@).join("cache"@).join("dotnet-toolchain"@).join("eval"@).join(
        safe_id(project_id) + ".json"@,
    )
}

/// Where cached package sets live. Under `.moon/cache`, which moon already
/// treats as disposable.
pub fn eval_cache_file(workspace_root: &DirPath, project_id: &str) -> (r: DirPath)
    ensures
        r@ == cache_file(workspace_root@, project_id@),
{
    let chars = text::chars_of(project_id);
    let mut name: Vec<char> = Vec::new();
    for i in 0..chars.len()
        invariant
            chars@ == project_id@,
            name@.len() == i,
            forall|j: int| 0 <= j < i ==> name@[j] == safe_id(project_id@)[j],
    {
        let c = chars[i];
        let safe = ('a' <= c && c <= 'z') || ('A' <= c && c <= 'Z') || ('0' <= c && c <= '9') || c
            == '-' || c == '_' || c == '.';
        name.push(
            if safe {
                c
            } else {
                '_'
            },
        );
    }
    assert(name@ =~= safe_id(project_id@));
    text::push_text(&mut name, ".json");
    workspace_root.join(".moon").join("cache").join("dotnet-toolchain").join("eval").join(
        text::string_of(&name).as_str(),
    )
}

/// No project id leads out of the cache directory.
pub proof fn law_cache_files_stay_in_the_cache(workspace_root: PathView, project_id: Seq<char>)
    ensures
        cache_file(workspace_root, project_id).parent() == Some(
            workspace_root.join(".moon"@).join("cache"@).join("dotnet-toolchain"@).join("eval"@),
        ),
        text::is_free_of(cache_file(workspace_root, project_id).parts.last(), '/'),
        text::is_free_of(cache_file(workspace_root, project_id).parts.last(), '\\'),
{
    reveal_strlit(".json");
    let dir = workspace_root.join(".moon"@).join("cache"@).join("dotnet-toolchain"@).join("eval"@);
    assert(cache_file(workspace_root, project_id).parts.drop_last() =~= dir.parts);
}

/// The entries of a directory, each by its path.
pub open spec fn paths_in(dir: PathView, names: Seq<Seq<char>>) -> Seq<PathView> {
    names.map_values(|name: Seq<char>| dir.join(name))
}

/// The config files of all the directories, by path, directory by directory.
pub open spec fn config_paths(levels: Seq<DirListing>) -> Seq<PathView>
    decreases levels.len(),
{
    if levels.len() == 0 {
        Seq::empty()
    } else {
        config_paths(levels.drop_last()) + paths_in(
            levels.last().path@,
            discovery::config_files_in(levels.last().entries@),
        )
    }
}

/// Everything that can change a project's evaluated package set: its project files,
/// then the config files from the project directory up.
pub open spec fn source_paths(levels: Seq<DirListing>) -> Seq<PathView> {
    if levels.len() == 0 {
        Seq::empty()
    } else {
        paths_in(levels[0].path@, discovery::project_files_in(levels[0].entries@)) + config_paths(
            levels,
        )
    }
}

/// Appends the named entries of a directory, by path.
fn push_paths(r: &mut Vec<DirPath>, dir: &DirPath, names: &[String])
    ensures
        discovery::path_views(final(r)@) == discovery::path_views(old(r)@) + paths_in(
            dir@,
            text::views(names@),
        ),
{
    let ghost start = discovery::path_views(r@);
    let ghost all = paths_in(dir@, text::views(names@));
    assert(start + all.take(0) =~= start);
    for i in 0..names.len()
        invariant
            all == paths_in(dir@, text::views(names@)),
            discovery::path_views(r@) == start + all.take(i as int),
    {
        let ghost was = r@;
        let path = dir.join(names[i].as_str());
        assert(path@ == all[i as int]);
        r.push(path);
        assert(discovery::path_views(r@) =~= discovery::path_views(was).push(path@));
        assert(discovery::path_views(r@) =~= start + all.take(i + 1));
    }
    assert(all.take(all.len() as int) =~= all);
}

/// The config files of all the directories, by path, directory by directory.
pub(crate) fn config_sources(levels: &[DirListing]) -> (r: Vec<DirPath>)
    ensures
        discovery::path_views(r@) == config_paths(levels@),
{
    let mut r: Vec<DirPath> = Vec::new();
    assert(levels@.take(0) =~= Seq::empty());
    assert(discovery::path_views(r@) =~= Seq::empty());
    for i in 0..levels.len()
        invariant
            discovery::path_views(r@) == config_paths(levels@.take(i as int)),
    {
        assert(levels@.take(i + 1).drop_last() =~= levels@.take(i as int));
        let config_files = discovery::find_config_files(&levels[i].entries);
        push_paths(&mut r, &levels[i].path, &config_files);
    }
    assert(levels@.take(levels@.len() as int) =~= levels@);
    r
}

/// The files that a project's evaluated package set depends on, in the order in which
/// their contents are digested: its project files, plus every config file from the
/// project directory up to the workspace root. `levels` are the listings of those
/// directories, the project directory first. Effects of custom `<Import>`s outside
/// the `Directory.Build.*` conventions are not captured, the same caveat that applies
/// to task hashing itself.
pub fn eval_cache_sources(levels: &[DirListing]) -> (r: Vec<DirPath>)
    ensures
        discovery::path_views(r@) == source_paths(levels@),
{
    let mut r: Vec<DirPath> = Vec::new();
    if levels.len() == 0 {
        assert(discovery::path_views(r@) =~= Seq::empty());
        return r;
    }
    let project_files = discovery::find_project_files(&levels[0].entries);
    push_paths(&mut r, &levels[0].path, &project_files);
    let ghost first = discovery::path_views(r@);
    assert(first =~= paths_in(
        levels@[0].path@,
        discovery::project_files_in(levels@[0].entries@),
    ));
    let ghost before = r@;
    let mut configs = config_sources(levels);
    let ghost more = configs@;
    r.append(&mut configs);
    assert(r@ =~= before + more);
    assert(discovery::path_views(r@) =~= first + config_paths(levels@));
    r
}

/// A content with its length before it, so that it can be told where it ends.
pub open spec fn frame(content: Seq<char>) -> Seq<char> {
    text::digits(content.len()).push(':') + content
}

/// All the contents, each in its frame.
pub open spec fn framed(contents: Seq<Seq<char>>) -> Seq<char> {
    text::concatenated(contents.map_values(|content: Seq<char>| frame(content)))
}

/// The digest of a list of contents.
pub open spec fn contents_digest(contents: Seq<Seq<char>>) -> Seq<char> {
    digest_of(framed(contents))
}

/// Digest of everything that can change a project's evaluated package set: the
/// contents of the files that [`eval_cache_sources`] lists, in that order. A file
/// that could not be read counts as empty. Each content is framed, so that text which
/// moves from one file to the next is a change.
pub fn eval_cache_digest(contents: &[String]) -> (r: String)
    ensures
        r@ == contents_digest(text::views(contents@)),
{
    let ghost frames = text::views(contents@).map_values(|content: Seq<char>| frame(content));
    let mut buffer: Vec<char> = Vec::new();
    assert(frames.take(0) =~= Seq::empty());
    for i in 0..contents.len()
        invariant
            frames == text::views(contents@).map_values(|content: Seq<char>| frame(content)),
            buffer@ == text::concatenated(frames.take(i as int)),
    {
        proof {
            text::lemma_concatenated_step(frames, i as int);
        }
        let ghost was = buffer@;
        let content = text::chars_of(contents[i].as_str());
        text::push_digits(&mut buffer, content.len() as u64);
        buffer.push(':');
        text::push_chars(&mut buffer, &content);
        assert(frames[i as int] == frame(content@));
        assert(buffer@ =~= was + frame(content@));
    }
    assert(frames.take(frames.len() as int) =~= frames);
    content_digest(text::string_of(&buffer).as_str())
}

/// Two texts that begin with frames and are equal begin with the same content.
proof fn lemma_frame(a: Seq<char>, rest_a: Seq<char>, b: Seq<char>, rest_b: Seq<char>)
    requires
        frame(a) + rest_a == frame(b) + rest_b,
    ensures
        a == b,
        rest_a == rest_b,
{
    let whole = frame(a) + rest_a;
    let x = text::digits(a.len());
    let y = text::digits(b.len());
    text::lemma_digits(a.len());
    text::lemma_digits(b.len());
    assert(whole[x.len() as int] == ':');
    assert((frame(b) + rest_b)[y.len() as int] == ':');
    assert(whole.take(x.len() as int) =~= x);
    assert(whole.take(y.len() as int) =~= y);
    if x.len() < y.len() {
        assert(y[x.len() as int] == ':');
    }
    if y.len() < x.len() {
        assert(x[y.len() as int] == ':');
    }
    text::lemma_digits_injective(a.len(), b.len());
    let from: int = x.len() as int + 1;
    assert(whole.subrange(from, from + a.len()) =~= a);
    assert(whole.subrange(from, from + a.len()) =~= b);
    assert(whole.skip(from + a.len()) =~= rest_a);
    assert(whole.skip(from + a.len()) =~= rest_b);
}

/// Two different lists of contents are never framed alike: what is digested tells the
/// contents apart.
pub proof fn law_framing_tells_contents_apart(a: Seq<Seq<char>>, b: Seq<Seq<char>>)
    ensures
        framed(a) == framed(b) <==> a == b,
    decreases a.len(),
{
    let f = |content: Seq<char>| frame(content);
    if framed(a) == framed(b) {
        if a.len() > 0 {
            text::lemma_concatenated_front(a.map_values(f));
            assert(a.map_values(f).drop_first() =~= a.drop_first().map_values(f));
            assert(framed(a) == frame(a[0]) + framed(a.drop_first()));
        }
        if b.len() > 0 {
            text::lemma_concatenated_front(b.map_values(f));
            assert(b.map_values(f).drop_first() =~= b.drop_first().map_values(f));
            assert(framed(b) == frame(b[0]) + framed(b.drop_first()));
        }
        if a.len() > 0 && b.len() > 0 {
            lemma_frame(a[0], framed(a.drop_first()), b[0], framed(b.drop_first()));
            law_framing_tells_contents_apart(a.drop_first(), b.drop_first());
            assert(a =~= seq![a[0]] + a.drop_first());
            assert(b =~= seq![b[0]] + b.drop_first());
        } else {
            assert(a =~= b);
        }
    }
}

// ---------------------------------------------------------------------------
// Entries
// ---------------------------------------------------------------------------

/// A cache entry: the package set, and the digest of the files that it was
/// evaluated from.
pub open spec fn entry_document(
    digest: Seq<char>,
    packages: Map<Seq<char>, Seq<char>>,
) -> Json {
    Json::Object(
        Map::empty().insert("digest"@, Json::Text(digest)).insert(
            "packages"@,
            json::object_of(packages),
        ),
    )
}

/// The digest and the package set of an entry whose two fields have those texts.
pub open spec fn fields_of(
    digest: json::Occurrence,
    packages: json::Occurrence,
) -> Option<(Seq<char>, Map<Seq<char>, Seq<char>>)> {
    match (digest, packages) {
        (json::Occurrence::Once(digest), json::Occurrence::Once(packages)) => match (
            json::text_alone(digest),
            json::strings_in(packages),
        ) {
            (Some(digest), Some(packages)) => Some((digest, packages)),
            _ => None,
        },
        _ => None,
    }
}

/// The digest and the package set that a cache file holds, if it holds an entry: an
/// object that has each of the two once, whatever else it has, or an array of the two.
pub open spec fn entry_in(cached: Seq<char>) -> Option<(Seq<char>, Map<Seq<char>, Seq<char>>)> {
    match json::outer_members(cached) {
        Some(members) => fields_of(
            json::occurrence(members, "digest"@),
            json::occurrence(members, "packages"@),
        ),
        None => json::pair_in(cached),
    }
}

/// The package set of a cache entry, where the entry is current: its digest is the
/// given one.
pub open spec fn current_packages(
    entry: Option<(Seq<char>, Map<Seq<char>, Seq<char>>)>,
    digest: Seq<char>,
) -> Option<Map<Seq<char>, Seq<char>>> {
    match entry {
        Some((found, packages)) => if found == digest {
            Some(packages)
        } else {
            None
        },
        None => None,
    }
}

/// The package set that a cache file holds, where it is current.
pub open spec fn cached_packages(cached: Seq<char>, digest: Seq<char>) -> Option<
    Map<Seq<char>, Seq<char>>,
> {
    current_packages(entry_in(cached), digest)
}

/// The text of a cache file for a project's evaluated package set, for task hashing
/// to reuse. `contents` are those of the files that the set was evaluated from.
///
/// Callers must only pass a set they evaluated *completely*: a partial set is
/// indistinguishable from a complete one once written, and it would be served
/// under a digest that keeps validating.
pub fn write_eval_cache(contents: &[String], packages: &StrMap<String>) -> (r: Result<
    String,
    serde_json::Error,
>)
    ensures
        r is Ok,
        entry_in(r->Ok_0@) == Some((contents_digest(text::views(contents@)), packages@)),
{
    let digest = eval_cache_digest(contents);
    let ghost wanted = entry_document(digest@, packages@);
    let mut entries: Vec<(String, serde_json::Value)> = Vec::new();
    entries.push((text::owned("digest"), json::text_value(digest)));
    entries.push((text::owned("packages"), json::strings_value(packages)));
    proof {
        reveal_with_fuel(json::members_of, 3);
        assert(entries@.drop_last().drop_last() =~= Seq::empty());
        assert(entries@.drop_last().last() == entries@[0]);
        assert(json::members_of(entries@.drop_last()) =~= Map::empty().insert(
            "digest"@,
            Json::Text(digest@),
        ));
        assert(json::members_of(entries@) =~= wanted->Object_0);
        reveal_strlit("digest");
        reveal_strlit("packages");
        assert("digest"@.len() != "packages"@.len());
        json::lemma_strings_of_object(packages@);
    }
    let document = json::object_value(entries);
    assert(json::json_of(document) == wanted);
    assert(json::is_shallow(wanted));
    let r = json::render(&document);
    proof {
        let members = json::outer_members(r->Ok_0@)->Some_0;
        assert(wanted->Object_0["digest"@] == Json::Text(digest@));
        assert(wanted->Object_0["packages"@] == json::object_of(packages@));
        assert(json::occurrence(members, "digest"@) is Once);
        assert(json::occurrence(members, "packages"@) is Once);
    }
    r
}

/// Reads the digest and the package set of the entry that a cache file holds.
fn read_entry(cached: &str) -> (r: Option<(String, StrMap<String>)>)
    ensures
        match r {
            Some(entry) => entry_in(cached@) == Some((entry.0@, entry.1@)),
            None => entry_in(cached@) is None,
        },
{
    let members = match json::read_members(cached) {
        Some(members) => members,
        None => {
            return json::read_pair(cached);
        },
    };
    let found = (json::find_member(&members, "digest"), json::find_member(&members, "packages"));
    match found {
        (Ok(Some(digest)), Ok(Some(packages))) => match (
            json::read_text(digest),
            json::read_string_map(packages),
        ) {
            (Some(digest), Ok(packages)) => Some((digest, packages)),
            _ => None,
        },
        _ => None,
    }
}

/// The package set of a cache entry, where it is current, so that a stale entry is never
/// used.
pub fn current_entry(entry: Option<(String, StrMap<String>)>, digest: &str) -> (r: Option<
    StrMap<String>,
>)
    ensures
        ({
            let entry = match entry {
                Some(entry) => Some((entry.0@, entry.1@)),
                None => None,
            };
            match r {
                Some(packages) => current_packages(entry, digest@) == Some(packages@),
                None => current_packages(entry, digest@) is None,
            }
        }),
{
    match entry {
        Some((found, packages)) => {
            if text::same_text(found.as_str(), digest) {
                Some(packages)
            } else {
                None
            }
        },
        None => None,
    }
}

/// Read a project's cached package set out of the text of its cache file, if it is
/// still current. `contents` are those of the files that the set depends on, as they
/// are now.
pub fn read_eval_cache(cached: &str, contents: &[String]) -> (r: Option<StrMap<String>>)
    ensures
        match r {
            Some(packages) => cached_packages(
                cached@,
                contents_digest(text::views(contents@)),
            ) == Some(packages@),
            None => cached_packages(
                cached@,
                contents_digest(text::views(contents@)),
            ) is None,
        },
{
    let digest = eval_cache_digest(contents);
    current_entry(read_entry(cached), digest.as_str())
}

/// What was written is read back as long as the files it depends on keep their
/// digest, as they do where none of them changes, and is not read at all afterwards.
pub proof fn law_cache_serves_current_sets_only(
    cached: Seq<char>,
    contents: Seq<Seq<char>>,
    packages: Map<Seq<char>, Seq<char>>,
    current: Seq<Seq<char>>,
)
    requires
        entry_in(cached) == Some((contents_digest(contents), packages)),
    ensures
        cached_packages(cached, contents_digest(current)) == (if contents_digest(current)
            == contents_digest(contents) {
            Some(packages)
        } else {
            None
        }),
        contents_digest(current) == contents_digest(contents) <==> fnv1a(
            vstd::utf8::encode_utf8(framed(current)),
        ) == fnv1a(vstd::utf8::encode_utf8(framed(contents))),
        current == contents <==> framed(current) == framed(contents),
{
    law_digest_renders_hash(framed(current), framed(contents));
    law_framing_tells_contents_apart(current, contents);
}

// ---------------------------------------------------------------------------
// What is digested, and where it is kept
// ---------------------------------------------------------------------------

proof fn lemma_config_paths_step(levels: Seq<DirListing>, i: int, name: Seq<char>)
    requires
        0 <= i < levels.len(),
        discovery::config_files_in(levels[i].entries@).contains(name),
    ensures
        config_paths(levels).contains(levels[i].path@.join(name)),
    decreases levels.len(),
{
    let wanted = levels[i].path@.join(name);
    let fewer = levels.drop_last();
    let some = config_paths(fewer);
    let names = discovery::config_files_in(levels.last().entries@);
    let more = paths_in(levels.last().path@, names);
    if i == levels.len() - 1 {
        let j = choose|j: int| 0 <= j < names.len() && names[j] == name;
        assert(more[j] == wanted);
        assert(config_paths(levels)[some.len() + j] == wanted);
    } else {
        assert(fewer[i] == levels[i]);
        lemma_config_paths_step(fewer, i, name);
        let j = choose|j: int| 0 <= j < some.len() && some[j] == wanted;
        assert(config_paths(levels)[j] == wanted);
    }
}

/// Every config file of every level is among the files that are hashed and digested: a
/// plain file of one of six names, in any ASCII case, by its path.
pub proof fn law_every_config_file_counts(levels: Seq<DirListing>, i: int, name: Seq<char>)
    requires
        0 <= i < levels.len(),
        discovery::is_file_of(levels[i].entries@, name),
        ({
            ||| text::same_ignoring_ascii_case(name, "Directory.Build.props"@)
            ||| text::same_ignoring_ascii_case(name, "Directory.Build.rsp"@)
            ||| text::same_ignoring_ascii_case(name, "Directory.Build.targets"@)
            ||| text::same_ignoring_ascii_case(name, "Directory.Packages.props"@)
            ||| text::same_ignoring_ascii_case(name, "global.json"@)
            ||| text::same_ignoring_ascii_case(name, "nuget.config"@)
        }),
    ensures
        config_paths(levels).contains(levels[i].path@.join(name)),
        source_paths(levels).contains(levels[i].path@.join(name)),
{
    discovery::law_config_files_have_six_names(levels[i].entries@, name);
    lemma_config_paths_step(levels, i, name);
    let wanted = levels[i].path@.join(name);
    let configs = config_paths(levels);
    let first = paths_in(
        levels[0].path@,
        discovery::project_files_in(levels[0].entries@),
    );
    let j = choose|j: int| 0 <= j < configs.len() && configs[j] == wanted;
    assert(source_paths(levels)[first.len() + j] == wanted);
}

/// Nothing else is hashed as a config file.
pub proof fn law_only_config_files_count(levels: Seq<DirListing>, k: int)
    requires
        0 <= k < config_paths(levels).len(),
    ensures
        exists|i: int, name: Seq<char>|
            0 <= i < levels.len() && config_paths(levels)[k] == (#[trigger] levels[i]).path@.join(
                name,
            ) && #[trigger] discovery::is_file_of(levels[i].entries@, name) && ({
                ||| text::same_ignoring_ascii_case(name, "Directory.Build.props"@)
                ||| text::same_ignoring_ascii_case(name, "Directory.Build.rsp"@)
                ||| text::same_ignoring_ascii_case(name, "Directory.Build.targets"@)
                ||| text::same_ignoring_ascii_case(name, "Directory.Packages.props"@)
                ||| text::same_ignoring_ascii_case(name, "global.json"@)
                ||| text::same_ignoring_ascii_case(name, "nuget.config"@)
            }),
    decreases levels.len(),
{
    let fewer = levels.drop_last();
    let some = config_paths(fewer);
    if k < some.len() {
        law_only_config_files_count(fewer, k);
        assert(config_paths(levels)[k] == some[k]);
        let (i, name) = choose|i: int, name: Seq<char>|
            0 <= i < fewer.len() && some[k] == (#[trigger] fewer[i]).path@.join(name)
                && #[trigger] discovery::is_file_of(fewer[i].entries@, name) && ({
                    ||| text::same_ignoring_ascii_case(name, "Directory.Build.props"@)
                    ||| text::same_ignoring_ascii_case(name, "Directory.Build.rsp"@)
                    ||| text::same_ignoring_ascii_case(name, "Directory.Build.targets"@)
                    ||| text::same_ignoring_ascii_case(name, "Directory.Packages.props"@)
                    ||| text::same_ignoring_ascii_case(name, "global.json"@)
                    ||| text::same_ignoring_ascii_case(name, "nuget.config"@)
                });
        assert(levels[i] == fewer[i]);
        assert(discovery::is_file_of(levels[i].entries@, name));
    } else {
        let last = levels.len() - 1;
        let names = discovery::config_files_in(levels[last].entries@);
        let name = names[k - some.len()];
        assert(names.contains(name));
        discovery::law_config_files_have_six_names(levels[last].entries@, name);
        assert(config_paths(levels)[k] == levels[last].path@.join(name));
    }
}

/// Every project file of the first level is among the files that are digested.
pub proof fn law_every_project_file_counts(levels: Seq<DirListing>, name: Seq<char>)
    requires
        levels.len() > 0,
        discovery::is_entry_of(levels[0].entries@, name),
        ".csproj"@.is_suffix_of(text::ascii_lower(name)) || ".fsproj"@.is_suffix_of(
            text::ascii_lower(name),
        ) || ".vbproj"@.is_suffix_of(text::ascii_lower(name)),
    ensures
        source_paths(levels).contains(levels[0].path@.join(name)),
{
    discovery::law_project_files_are_told_by_their_ends(levels[0].entries@, name);
    let names = discovery::project_files_in(levels[0].entries@);
    let j = choose|j: int| 0 <= j < names.len() && names[j] == name;
    assert(source_paths(levels)[j] == levels[0].path@.join(name));
}

/// The cache file of a project lies under `.moon/cache/dotnet-toolchain/eval` and is
/// called like the project, with an underscore for each character that is neither an
/// ASCII letter, a digit, a dash, an underscore nor a dot.
pub proof fn law_cache_files_are_called_like_projects(
    workspace_root: PathView,
    project_id: Seq<char>,
)
    ensures
        ({
            let file = cache_file(workspace_root, project_id);
            let n = workspace_root.parts.len() as int;
            let name = file.parts.last();
            &&& file.absolute == workspace_root.absolute
            &&& file.parts.len() == n + 5
            &&& file.parts.take(n) == workspace_root.parts
            &&& file.parts[n] == ".moon"@
            &&& file.parts[n + 1] == "cache"@
            &&& file.parts[n + 2] == "dotnet-toolchain"@
            &&& file.parts[n + 3] == "eval"@
            &&& name.len() == project_id.len() + 5
            &&& name.skip(project_id.len() as int) == ".json"@
            &&& forall|i: int|
                0 <= i < project_id.len() ==> #[trigger] name[i] == ({
                    let c = project_id[i];
                    if ('a' <= c && c <= 'z') || ('A' <= c && c <= 'Z') || ('0' <= c && c <= '9')
                        || c == '-' || c == '_' || c == '.' {
                        c
                    } else {
                        '_'
                    }
                })
        }),
{
    reveal_strlit(".json");
    let file = cache_file(workspace_root, project_id);
    let n = workspace_root.parts.len() as int;
    assert(file.parts.take(n) =~= workspace_root.parts);
    assert(file.parts.last().skip(project_id.len() as int) =~= ".json"@);
}

/// An entry that is the array of a digest and a package set, or the object of the two and
/// whatever else, is used where its digest is the current one.
pub proof fn law_entries_are_used_by_their_digest(
    cached: Seq<char>,
    found: Seq<char>,
    packages: Map<Seq<char>, Seq<char>>,
    digest: Seq<char>,
)
    requires
        ({
            ||| json::outer_members(cached) is None && json::pair_in(cached) == Some(
                (found, packages),
            )
            ||| json::outer_members(cached) is Some && ({
                let members = json::outer_members(cached)->Some_0;
                exists|i: int, j: int|
                    0 <= i < members.len() && 0 <= j < members.len() && (#[trigger] members[i]).0
                        == "digest"@ && (#[trigger] members[j]).0 == "packages"@ && (forall|k: int|
                        0 <= k < members.len() && k != i ==> (#[trigger] members[k]).0
                            != "digest"@) && (forall|k: int|
                        0 <= k < members.len() && k != j ==> (#[trigger] members[k]).0
                            != "packages"@) && json::text_first(members[i].1) == Some(
                        (found, Seq::<char>::empty()),
                    ) && json::strings_in(members[j].1) == Some(packages)
            })
        }),
    ensures
        cached_packages(cached, digest) == (if digest == found {
            Some(packages)
        } else {
            None
        }),
{
    if json::outer_members(cached) is Some {
        let members = json::outer_members(cached)->Some_0;
        let (i, j) = choose|i: int, j: int|
            0 <= i < members.len() && 0 <= j < members.len() && (#[trigger] members[i]).0
                == "digest"@ && (#[trigger] members[j]).0 == "packages"@ && (forall|k: int|
                0 <= k < members.len() && k != i ==> (#[trigger] members[k]).0 != "digest"@) && (
            forall|k: int|
                0 <= k < members.len() && k != j ==> (#[trigger] members[k]).0 != "packages"@)
                && json::text_first(members[i].1) == Some((found, Seq::<char>::empty()))
                && json::strings_in(members[j].1) == Some(packages);
        json::lemma_only_occurrence(members, "digest"@, i);
        json::lemma_only_occurrence(members, "packages"@, j);
    }
}

/// Levels count one after the other: the config files of the first ones come first.
pub proof fn law_levels_count_in_order(near: Seq<DirListing>, far: Seq<DirListing>)
    ensures
        config_paths(near + far) == config_paths(near) + config_paths(far),
    decreases far.len(),
{
    if far.len() == 0 {
        assert(near + far =~= near);
        assert(config_paths(near) + config_paths(far) =~= config_paths(near));
    } else {
        law_levels_count_in_order(near, far.drop_last());
        assert((near + far).drop_last() =~= near + far.drop_last());
        assert(config_paths(near + far) =~= config_paths(near) + config_paths(far));
    }
}

/// What is digested are the project files of the first level, then the config files of all.
pub proof fn law_project_files_are_digested_first(levels: Seq<DirListing>, k: int)
    requires
        levels.len() > 0,
        0 <= k < source_paths(levels).len(),
    ensures
        ({
            let projects = discovery::project_files_in(levels[0].entries@);
            let n = projects.len() as int;
            &&& source_paths(levels).len() == n + config_paths(levels).len()
            &&& k < n ==> source_paths(levels)[k].parts == levels[0].path@.parts.push(projects[k])
                && source_paths(levels)[k].absolute == levels[0].path@.absolute
            &&& k >= n ==> source_paths(levels)[k] == config_paths(levels)[k - n]
        }),
{
}

/// A frame tells the length of what it holds, up to the first colon.
pub proof fn law_frames_tell_lengths(content: Seq<char>)
    ensures
        text::first_index(frame(content), ':') is Some,
        ({
            let at = text::first_index(frame(content), ':')->Some_0;
            &&& text::numeral(frame(content).take(at)) == content.len()
            &&& frame(content).skip(at + 1) == content
        }),
{
    let whole = frame(content);
    let length = text::digits(content.len());
    text::lemma_digits(content.len());
    text::lemma_first_index(whole, ':');
    assert(whole[length.len() as int] == ':');
    let at = text::first_index(whole, ':')->Some_0;
    if at < length.len() {
        assert(whole[at] == length[at]);
    }
    assert(whole.take(at) =~= length);
    assert(whole.skip(at + 1) =~= content);
    text::law_decimal_spells_the_number(content.len() as int);
}

} // verus!
