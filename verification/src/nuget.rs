//! NuGet lock files, and the packages that manifests declare.

use crate::json;
use crate::json::Json;
use crate::msbuild::EvalView;
use crate::msbuild::MsbuildEvaluation;
use crate::str_map::StrMap;
use crate::text;
use vstd::prelude::*;

verus! {

// ---------------------------------------------------------------------------
// Versions
// ---------------------------------------------------------------------------

#[verifier::external_type_specification]
#[verifier::external_body]
pub struct ExVersionSpec(moon_config::VersionSpec);

#[verifier::external_type_specification]
#[verifier::external_body]
pub struct ExUnresolvedVersionSpec(moon_config::UnresolvedVersionSpec);

/// The version that a text denotes, if it denotes one.
pub uninterp spec fn version_of(content: Seq<char>) -> Option<moon_config::VersionSpec>;

/// The version requirement that a text denotes, if it denotes one.
pub uninterp spec fn requirement_of(content: Seq<char>) -> Option<
    moon_config::UnresolvedVersionSpec,
>;

/// How many decimal digits the text holds.
pub open spec fn digit_count(content: Seq<char>) -> nat {
    content.filter(|c: char| '0' <= c && c <= '9').len()
}

/// A decimal digit.
pub open spec fn is_digit(c: char) -> bool {
    '0' <= c && c <= '9'
}

/// Ten digits in a row begin at that place.
pub open spec fn is_long_run(content: Seq<char>, at: int) -> bool {
    0 <= at && at + 10 <= content.len() && forall|i: int|
        at <= i < at + 10 ==> is_digit(#[trigger] content[i])
}

/// A wildcard, which is taken out before anything is read.
pub open spec fn is_wildcard(c: char) -> bool {
    c == '*' || c == 'x' || c == 'X'
}

/// No number in the text has more than nine digits, not even where digits meet because a
/// wildcard between them is taken out.
pub open spec fn has_short_numbers(content: Seq<char>) -> bool {
    ||| digit_count(content) <= 9
    ||| (forall|i: int| 0 <= i < content.len() ==> !is_wildcard(#[trigger] content[i])) && forall|
        at: int,
    | !#[trigger] is_long_run(content, at)
}

/// Nothing may be left of the text once wildcards are taken out, each with the dot or the
/// dash before it.
pub open spec fn may_vanish(content: Seq<char>) -> bool {
    forall|i: int|
        0 <= i < content.len() ==> {
            ||| is_wildcard(#[trigger] content[i])
            ||| content[i] == '.'
            ||| content[i] == '-'
        }
}

/// The bars before and after that piece may stand next to each other.
pub open spec fn is_gap(pieces: Seq<Seq<char>>, i: int) -> bool {
    0 < i < pieces.len() - 1 && may_vanish(pieces[i])
}

/// The text can be read as a version requirement. Where two bars stand next to each
/// other they separate alternatives, which are sorted by comparing the numbers in them.
/// Two alternatives, with three bars between them at most, can always be sorted where
/// their numbers are short; that order is not transitive, so that more cannot.
pub open spec fn is_readable(content: Seq<char>) -> bool {
    let pieces = text::split(content, '|');
    ||| forall|i: int| !#[trigger] is_gap(pieces, i)
    ||| (forall|i: int, j: int| #[trigger]
        is_gap(pieces, i) && #[trigger] is_gap(pieces, j) && i < j ==> j == i + 1) && forall|i: int|
        0 <= i < pieces.len() ==> has_short_numbers(#[trigger] pieces[i])
}

/// How many decimal digits the text holds.
fn count_digits(content: &str) -> (r: usize)
    ensures
        r == digit_count(content@),
{
    let chars = text::chars_of(content);
    let ghost is_digit = |c: char| '0' <= c && c <= '9';
    let mut digits: usize = 0;
    proof {
        reveal(Seq::filter);
        assert(chars@.take(0) =~= Seq::empty());
    }
    for i in 0..chars.len()
        invariant
            is_digit == (|c: char| '0' <= c && c <= '9'),
            digits == chars@.take(i as int).filter(is_digit).len(),
            digits <= i,
    {
        proof {
            reveal(Seq::filter);
            assert(chars@.take(i + 1).drop_last() =~= chars@.take(i as int));
        }
        let c = chars[i];
        if '0' <= c && c <= '9' {
            digits += 1;
        }
    }
    assert(chars@.take(chars@.len() as int) =~= content@);
    digits
}

/// Whether no number in the text has more than nine digits.
fn are_numbers_short(content: &str) -> (r: bool)
    ensures
        r == has_short_numbers(content@),
{
    if count_digits(content) <= 9 {
        return true;
    }
    let chars = text::chars_of(content);
    let mut run: usize = 0;
    for i in 0..chars.len()
        invariant
            chars@ == content@,
            digit_count(content@) > 9,
            run <= i,
            run <= 9,
            forall|j: int| 0 <= j < i ==> !is_wildcard(#[trigger] content@[j]),
            forall|j: int| i - run <= j < i ==> is_digit(#[trigger] content@[j]),
            run < i ==> !is_digit(content@[i - run - 1]),
            forall|at: int| at + 10 <= i ==> !#[trigger] is_long_run(content@, at),
    {
        let c = chars[i];
        if c == '*' || c == 'x' || c == 'X' {
            assert(is_wildcard(content@[i as int]));
            return false;
        }
        if '0' <= c && c <= '9' {
            if run == 9 {
                assert(is_long_run(content@, i - 9));
                return false;
            }
            run += 1;
            proof {
                if run <= i {
                    assert(!is_digit(content@[i - run]));
                }
                assert forall|at: int| at + 10 <= i + 1 implies !#[trigger] is_long_run(
                    content@,
                    at,
                ) by {
                    if at + 10 == i + 1 && is_long_run(content@, at) {
                        assert(is_digit(content@[i - run]));
                    }
                }
            }
        } else {
            run = 0;
            proof {
                assert forall|at: int| at + 10 <= i + 1 implies !#[trigger] is_long_run(
                    content@,
                    at,
                ) by {
                    if at + 10 == i + 1 && is_long_run(content@, at) {
                        assert(is_digit(content@[i as int]));
                    }
                }
            }
        }
    }
    true
}

/// Whether nothing may be left of the text once wildcards are taken out.
fn can_vanish(content: &str) -> (r: bool)
    ensures
        r == may_vanish(content@),
{
    let chars = text::chars_of(content);
    for i in 0..chars.len()
        invariant
            chars@ == content@,
            forall|j: int|
                0 <= j < i ==> {
                    ||| is_wildcard(#[trigger] content@[j])
                    ||| content@[j] == '.'
                    ||| content@[j] == '-'
                },
    {
        let c = chars[i];
        if c != '*' && c != 'x' && c != 'X' && c != '.' && c != '-' {
            assert(!is_wildcard(content@[i as int]));
            return false;
        }
    }
    true
}

/// Whether a text can be read as a version requirement.
pub fn is_readable_requirement(content: &str) -> (r: bool)
    ensures
        r == is_readable(content@),
{
    let pieces = text::split_text(content, '|');
    let ghost all = text::split(content@, '|');
    let total: usize = pieces.len();
    assert(all.len() == text::views(pieces@).len());
    let mut first: Option<usize> = None;
    let mut few = true;
    let mut short = true;
    for i in 0..total
        invariant
            all == text::views(pieces@),
            total == pieces@.len(),
            match first {
                Some(at) => {
                    &&& at < i
                    &&& is_gap(all, at as int)
                    &&& forall|j: int| #[trigger] is_gap(all, j) ==> j >= at
                    &&& few == (forall|j: int| #[trigger] is_gap(all, j) && j < i ==> j <= at + 1)
                },
                None => few && forall|j: int| 0 <= j < i ==> !#[trigger] is_gap(all, j),
            },
            short == (forall|j: int| 0 <= j < i ==> has_short_numbers(#[trigger] all[j])),
    {
        let piece = pieces[i].as_str();
        assert(all[i as int] == piece@);
        if !are_numbers_short(piece) {
            short = false;
        }
        if i > 0 && i < total - 1 && can_vanish(piece) {
            assert(is_gap(all, i as int));
            match first {
                Some(at) => {
                    if i - at > 1 {
                        few = false;
                    }
                },
                None => {
                    first = Some(i);
                },
            }
        } else {
            assert(!is_gap(all, i as int));
        }
    }
    proof {
        if first is Some {
            let at = first->Some_0 as int;
            if !few {
                let far = choose|j: int| #[trigger] is_gap(all, j) && j < total && j > at + 1;
                assert(is_gap(all, at) && is_gap(all, far) && at < far);
            } else {
                assert forall|i: int, j: int| #[trigger] is_gap(all, i) && #[trigger] is_gap(all, j)
                    && i < j implies j == i + 1 by {
                    assert(i >= at && j <= at + 1);
                }
            }
        } else {
            assert forall|i: int| !#[trigger] is_gap(all, i) by {
                if is_gap(all, i) {
                    assert(i < total);
                }
            }
        }
    }
    first.is_none() || (few && short)
}

/// `moon_config::VersionSpec::parse`: reads a version, and fails on exactly the texts
/// that denote none. What a text denotes depends on the text alone.
#[verifier::external_body]
fn parse_version(content: &str) -> (r: Option<moon_config::VersionSpec>)
    ensures
        r == version_of(content@),
{
    moon_config::VersionSpec::parse(content).ok()
}

/// `moon_config::UnresolvedVersionSpec::parse`: reads a version requirement, and fails
/// on exactly the texts that denote none. What a text denotes depends on the text
/// alone. Texts whose alternatives cannot be sorted without fail are left out.
#[verifier::external_body]
fn parse_requirement(content: &str) -> (r: Option<moon_config::UnresolvedVersionSpec>)
    requires
        is_readable(content@),
    ensures
        r == requirement_of(content@),
{
    moon_config::UnresolvedVersionSpec::parse(content).ok()
}

/// `==` of `Option<moon_config::VersionSpec>`, which is derived: two versions are equal
/// exactly where they are the same version.
#[verifier::external_body]
fn same_version(
    a: &Option<moon_config::VersionSpec>,
    b: &Option<moon_config::VersionSpec>,
) -> (r: bool)
    ensures
        r == (*a == *b),
{
    a == b
}

// ---------------------------------------------------------------------------
// Lock files
// ---------------------------------------------------------------------------

/// One entry of a lock file.
#[derive(Debug, PartialEq, Eq)]
pub struct LockEntry {
    /// `Direct`, `Transitive`, `CentralTransitive` or `Project`.
    pub dep_type: String,
    /// The version range that was asked for.
    pub requested: Option<String>,
    /// The version that was found.
    pub resolved: Option<String>,
    pub content_hash: Option<String>,
}

/// What a [`LockEntry`] says.
pub struct LockEntryView {
    pub dep_type: Seq<char>,
    pub requested: Option<Seq<char>>,
    pub resolved: Option<Seq<char>>,
    pub content_hash: Option<Seq<char>>,
}

impl DeepView for LockEntry {
    type V = LockEntryView;

    open spec fn deep_view(&self) -> LockEntryView {
        LockEntryView {
            dep_type: self.dep_type@,
            requested: self.requested.deep_view(),
            resolved: self.resolved.deep_view(),
            content_hash: self.content_hash.deep_view(),
        }
    }
}

/// A locked package, as moon knows it.
#[derive(Debug, PartialEq, Eq)]
pub struct LockDependency {
    pub hash: Option<String>,
    /// The version that was asked for, where it is a moon version requirement.
    pub req: Option<moon_config::UnresolvedVersionSpec>,
    /// The version that was found, where it is a moon version.
    pub version: Option<moon_config::VersionSpec>,
}

/// What a [`LockDependency`] says.
pub struct LockView {
    pub hash: Option<Seq<char>>,
    pub req: Option<moon_config::UnresolvedVersionSpec>,
    pub version: Option<moon_config::VersionSpec>,
}

impl DeepView for LockDependency {
    type V = LockView;

    open spec fn deep_view(&self) -> LockView {
        LockView { hash: self.hash.deep_view(), req: self.req, version: self.version }
    }
}

/// The locked package that an entry stands for. NuGet ranges like `[13.0.3, )` may be
/// no version requirement of moon's; they are omitted then.
pub open spec fn locked_package(entry: LockEntryView) -> LockView {
    LockView {
        hash: entry.content_hash,
        req: match entry.requested {
            Some(requested) => requirement_of(requested),
            None => None,
        },
        version: match entry.resolved {
            Some(resolved) => version_of(resolved),
            None => None,
        },
    }
}

/// One of the packages has that version and that hash.
pub open spec fn is_listed(list: Seq<LockView>, package: LockView) -> bool {
    exists|i: int|
        0 <= i < list.len() && (#[trigger] list[i]).version == package.version && list[i].hash
            == package.hash
}

/// The list with one package more, unless that is in it already.
pub open spec fn with_package(list: Seq<LockView>, package: LockView) -> Seq<LockView> {
    if is_listed(list, package) {
        list
    } else {
        list.push(package)
    }
}

/// The entry of that name is a package. Project-type entries are in-repo
/// ProjectReferences, not packages.
pub open spec fn is_package(entries: Map<Seq<char>, LockEntryView>, name: Seq<char>) -> bool {
    entries.contains_key(name) && !text::same_ignoring_ascii_case(
        entries[name].dep_type,
        "Project"@,
    )
}

/// The list under that name, or the empty one.
pub open spec fn listed(
    packages: Map<Seq<char>, Seq<LockView>>,
    name: Seq<char>,
) -> Seq<LockView> {
    if packages.contains_key(name) {
        packages[name]
    } else {
        Seq::empty()
    }
}

/// The packages after those of one target framework more.
pub open spec fn with_framework(
    packages: Map<Seq<char>, Seq<LockView>>,
    entries: Map<Seq<char>, LockEntryView>,
) -> Map<Seq<char>, Seq<LockView>> {
    Map::new(
        |name: Seq<char>| packages.contains_key(name) || is_package(entries, name),
        |name: Seq<char>|
            if is_package(entries, name) {
                with_package(listed(packages, name), locked_package(entries[name]))
            } else {
                packages[name]
            },
    )
}

/// The packages of the given target frameworks, in that order.
pub open spec fn locked_packages(
    lock: Map<Seq<char>, Map<Seq<char>, LockEntryView>>,
    frameworks: Seq<Seq<char>>,
) -> Map<Seq<char>, Seq<LockView>>
    decreases frameworks.len(),
{
    if frameworks.len() == 0 {
        Map::empty()
    } else {
        with_framework(
            locked_packages(lock, frameworks.drop_last()),
            lock[frameworks.last()],
        )
    }
}

/// The range that an entry asks for, if any, can be read.
pub open spec fn is_readable_entry(entry: LockEntryView) -> bool {
    entry.requested is Some ==> is_readable(entry.requested->Some_0)
}

/// The entry of that name adds a package: it is one, and none like it is listed.
pub open spec fn is_new(
    packages: Map<Seq<char>, Seq<LockView>>,
    entries: Map<Seq<char>, LockEntryView>,
    name: Seq<char>,
) -> bool {
    is_package(entries, name) && !is_listed(listed(packages, name), locked_package(entries[name]))
}

/// Every range that an entry asks for which adds a package can be read. No other range is
/// looked at.
pub open spec fn has_readable_ranges(
    packages: Map<Seq<char>, Seq<LockView>>,
    entries: Map<Seq<char>, LockEntryView>,
) -> bool {
    forall|name: Seq<char>| #[trigger]
        is_new(packages, entries, name) ==> is_readable_entry(entries[name])
}

/// Every range that is looked at for the given target frameworks, in that order, can be
/// read.
pub open spec fn are_readable(
    lock: Map<Seq<char>, Map<Seq<char>, LockEntryView>>,
    frameworks: Seq<Seq<char>>,
) -> bool
    decreases frameworks.len(),
{
    frameworks.len() == 0 || (are_readable(lock, frameworks.drop_last()) && has_readable_ranges(
        locked_packages(lock, frameworks.drop_last()),
        lock[frameworks.last()],
    ))
}

/// Every range of a lock file that is looked at can be read.
pub open spec fn is_readable_lock(lock: Map<Seq<char>, Map<Seq<char>, LockEntryView>>) -> bool {
    exists|frameworks: Seq<Seq<char>>|
        crate::str_map::enumerates(frameworks, lock.dom()) && #[trigger] are_readable(
            lock,
            frameworks,
        )
}

/// Whether two optional texts are the same.
fn same_optional(a: &Option<String>, b: &Option<String>) -> (r: bool)
    ensures
        r == (a.deep_view() == b.deep_view()),
{
    match (a, b) {
        (Some(x), Some(y)) => text::same_text(x.as_str(), y.as_str()),
        (None, None) => true,
        _ => false,
    }
}

/// A copy of an optional text.
fn copied_optional(a: &Option<String>) -> (r: Option<String>)
    ensures
        r.deep_view() == a.deep_view(),
{
    match a {
        Some(x) => Some(x.clone()),
        None => None,
    }
}

/// Adds the package that an entry stands for, unless it is in the list already. Says
/// whether that could be done: a range that cannot be read adds nothing.
fn push_package(list: &mut Vec<LockDependency>, entry: &LockEntry) -> (r: bool)
    ensures
        r == (is_listed(old(list).deep_view(), locked_package(entry.deep_view()))
            || is_readable_entry(entry.deep_view())),
        r ==> final(list).deep_view() == with_package(
            old(list).deep_view(),
            locked_package(entry.deep_view()),
        ),
{
    let ghost was = list.deep_view();
    let ghost package = locked_package(entry.deep_view());
    let version = match &entry.resolved {
        Some(resolved) => parse_version(resolved.as_str()),
        None => None,
    };
    for i in 0..list.len()
        invariant
            was == old(list).deep_view(),
            was == list.deep_view(),
            package == locked_package(entry.deep_view()),
            version == package.version,
            package.hash == entry.content_hash.deep_view(),
            forall|j: int|
                0 <= j < i ==> !((#[trigger] was[j]).version == package.version && was[j].hash
                    == package.hash),
    {
        assert(was[i as int] == list@[i as int].deep_view());
        if same_version(&list[i].version, &version) && same_optional(
            &list[i].hash,
            &entry.content_hash,
        ) {
            assert(is_listed(was, package));
            return true;
        }
    }
    let req = match &entry.requested {
        Some(requested) => {
            if !is_readable_requirement(requested.as_str()) {
                return false;
            }
            parse_requirement(requested.as_str())
        },
        None => None,
    };
    list.push(LockDependency { hash: copied_optional(&entry.content_hash), req, version });
    assert(list.deep_view() =~= was.push(package));
    true
}

/// Adds the packages of one target framework. Says whether every range could be read.
fn push_framework(packages: &mut StrMap<Vec<LockDependency>>, entries: &StrMap<LockEntry>) -> (r:
    bool)
    ensures
        r == has_readable_ranges(old(packages)@, entries@),
        r ==> final(packages)@ == with_framework(old(packages)@, entries@),
{
    let names = entries.keys();
    let ghost ns = text::views(names@);
    let ghost start = packages@;
    let ghost done = with_framework(start, entries@);
    assert(ns.take(0) =~= Seq::empty());
    for i in 0..names.len()
        invariant
            start == old(packages)@,
            ns == text::views(names@),
            crate::str_map::enumerates(ns, entries@.dom()),
            done == with_framework(start, entries@),
            forall|j: int|
                0 <= j < i && is_new(start, entries@, #[trigger] ns[j]) ==> is_readable_entry(
                    entries@[ns[j]],
                ),
            forall|name: Seq<char>| #[trigger] packages@.contains_key(name) <==> (
            start.contains_key(name) || (ns.take(i as int).contains(name) && is_package(
                entries@,
                name,
            ))),
            forall|name: Seq<char>| #[trigger] packages@.contains_key(name) ==> packages@[name] == (
            if ns.take(i as int).contains(name) {
                done[name]
            } else {
                start[name]
            }),
    {
        let name = names[i].as_str();
        assert(ns[i as int] == name@);
        assert(ns.contains(name@));
        assert(entries@.dom().contains(name@));
        proof {
            if ns.take(i as int).contains(name@) {
                let j = choose|j: int| 0 <= j < i && ns.take(i as int)[j] == name@;
                text::lemma_before_irreflexive(name@);
                assert(text::before(ns[j], ns[i as int]));
            }
            assert forall|k: Seq<char>| #[trigger] ns.take(i + 1).contains(k) <==> (ns.take(
                i as int,
            ).contains(k) || k == name@) by {
                text::lemma_take_contains(ns, i as int, k);
            }
        }
        if let Some(entry) = entries.get(name) {
            if !text::eq_ignore_ascii_case(entry.dep_type.as_str(), "Project") {
                let mut list = match packages.remove(name) {
                    Some(list) => list,
                    None => {
                        let none: Vec<LockDependency> = Vec::new();
                        assert(none.deep_view() =~= Seq::empty());
                        none
                    },
                };
                assert(list.deep_view() == listed(start, name@));
                if !push_package(&mut list, entry) {
                    assert(is_new(start, entries@, name@));
                    return false;
                }
                packages.insert(text::owned(name), list);
            }
        }
    }
    assert(ns.take(ns.len() as int) =~= ns);
    assert forall|name: Seq<char>| is_package(entries@, name) implies ns.contains(name) by {
        assert(entries@.dom().contains(name));
    }
    assert forall|name: Seq<char>| #[trigger]
        is_new(start, entries@, name) implies is_readable_entry(entries@[name]) by {
        assert(ns.contains(name));
        let j = choose|j: int| 0 <= j < ns.len() && ns[j] == name;
        assert(is_new(start, entries@, ns[j]));
    }
    assert(packages@ =~= done);
    true
}

/// What cannot be read for some target frameworks cannot be read for more.
proof fn lemma_unreadable_stays(
    lock: Map<Seq<char>, Map<Seq<char>, LockEntryView>>,
    frameworks: Seq<Seq<char>>,
    i: int,
)
    requires
        0 <= i <= frameworks.len(),
        !are_readable(lock, frameworks.take(i)),
    ensures
        !are_readable(lock, frameworks),
    decreases frameworks.len(),
{
    if i == frameworks.len() {
        assert(frameworks.take(i) =~= frameworks);
    } else {
        assert(frameworks.drop_last().take(i) =~= frameworks.take(i));
        lemma_unreadable_stays(lock, frameworks.drop_last(), i);
    }
}

/// The packages of a lock file, where every range that is looked at can be read.
fn list_packages(lock: &StrMap<StrMap<LockEntry>>) -> (r: Option<StrMap<Vec<LockDependency>>>)
    ensures
        match r {
            Some(packages) => is_readable_lock(lock@) && exists|frameworks: Seq<Seq<char>>|
                crate::str_map::enumerates(frameworks, lock@.dom()) && packages@
                    == #[trigger] locked_packages(lock@, frameworks),
            None => !is_readable_lock(lock@),
        },
{
    let keys = lock.keys();
    let ghost frameworks = text::views(keys@);
    let mut r: StrMap<Vec<LockDependency>> = StrMap::new();
    assert(frameworks.take(0) =~= Seq::empty());
    for i in 0..keys.len()
        invariant
            frameworks == text::views(keys@),
            crate::str_map::enumerates(frameworks, lock@.dom()),
            are_readable(lock@, frameworks.take(i as int)),
            r@ == locked_packages(lock@, frameworks.take(i as int)),
    {
        let framework = keys[i].as_str();
        assert(frameworks[i as int] == framework@);
        assert(frameworks.contains(framework@));
        assert(lock@.dom().contains(framework@));
        assert(lock@.contains_key(framework@));
        assert(frameworks.take(i + 1).drop_last() =~= frameworks.take(i as int));
        assert(frameworks.take(i + 1).last() == framework@);
        if let Some(entries) = lock.get(framework) {
            if !push_framework(&mut r, entries) {
                proof {
                    lemma_unreadable_stays(lock@, frameworks, i + 1);
                    assert forall|others: Seq<Seq<char>>| crate::str_map::enumerates(
                        others,
                        lock@.dom(),
                    ) implies !#[trigger] are_readable(lock@, others) by {
                        crate::str_map::lemma_enumerates_unique(frameworks, others, lock@.dom());
                    }
                }
                return None;
            }
        }
    }
    assert(frameworks.take(frameworks.len() as int) =~= frameworks);
    Some(r)
}

/// Whether every range of a lock file that is looked at can be read.
pub fn is_readable_lock_file(lock: &StrMap<StrMap<LockEntry>>) -> (r: bool)
    ensures
        r == is_readable_lock(lock@),
{
    list_packages(lock).is_some()
}

/// The packages of a lock file, by name. Entries that are identical across target
/// frameworks are listed once; the frameworks count in the order of their names.
pub fn parse_lock(lock: &StrMap<StrMap<LockEntry>>) -> (r: StrMap<Vec<LockDependency>>)
    requires
        is_readable_lock(lock@),
    ensures
        exists|frameworks: Seq<Seq<char>>|
            crate::str_map::enumerates(frameworks, lock@.dom()) && r@ == #[trigger] locked_packages(
                lock@,
                frameworks,
            ),
{
    match list_packages(lock) {
        Some(packages) => packages,
        None => StrMap::new(),
    }
}

/// No two of the packages have the same version and the same hash.
pub open spec fn is_distinct(list: Seq<LockView>) -> bool {
    forall|i: int, j: int|
        0 <= i < j < list.len() ==> !((#[trigger] list[i]).version == (#[trigger] list[j]).version
            && list[i].hash == list[j].hash)
}

/// Every package of a lock file is listed, and listed once: for each target framework
/// that locks a package there is an entry with its version and its hash, no two entries
/// of a package are alike, and entries of projects are not listed at all.
pub proof fn law_locked_packages_are_listed_once(
    lock: Map<Seq<char>, Map<Seq<char>, LockEntryView>>,
    frameworks: Seq<Seq<char>>,
    name: Seq<char>,
)
    ensures
        locked_packages(lock, frameworks).contains_key(name) <==> exists|i: int|
            0 <= i < frameworks.len() && is_package(lock[#[trigger] frameworks[i]], name),
        locked_packages(lock, frameworks).contains_key(name) ==> is_distinct(
            locked_packages(lock, frameworks)[name],
        ),
        forall|i: int|
            0 <= i < frameworks.len() && is_package(lock[#[trigger] frameworks[i]], name)
                ==> is_listed(
                locked_packages(lock, frameworks)[name],
                locked_package(lock[frameworks[i]][name]),
            ),
    decreases frameworks.len(),
{
    if frameworks.len() > 0 {
        let fewer = frameworks.drop_last();
        let last = frameworks.last();
        law_locked_packages_are_listed_once(lock, fewer, name);
        let some = locked_packages(lock, fewer);
        let all = locked_packages(lock, frameworks);
        let before = listed(some, name);
        assert(frameworks[frameworks.len() - 1] == last);
        assert forall|i: int| 0 <= i < fewer.len() implies #[trigger] fewer[i] == frameworks[i] by {}
        if is_package(lock[last], name) {
            let package = locked_package(lock[last][name]);
            let now = with_package(before, package);
            assert(all[name] == now);
            if is_listed(before, package) {
                assert(now == before);
            } else {
                assert(now[before.len() as int] == package);
                assert(is_listed(now, package));
                assert forall|i: int, j: int| 0 <= i < j < now.len() implies !((
                #[trigger] now[i]).version == (#[trigger] now[j]).version && now[i].hash
                    == now[j].hash) by {
                    assert(now[i] == before[i]);
                    if j < before.len() {
                        assert(now[j] == before[j]);
                    }
                }
            }
            assert forall|i: int|
                0 <= i < frameworks.len() && is_package(lock[#[trigger] frameworks[i]], name) implies is_listed(
                now, locked_package(lock[frameworks[i]][name])) by {
                if i < fewer.len() {
                    assert(fewer[i] == frameworks[i]);
                    let earlier = locked_package(lock[frameworks[i]][name]);
                    assert(is_listed(before, earlier));
                    let k = choose|k: int|
                        0 <= k < before.len() && (#[trigger] before[k]).version == earlier.version
                            && before[k].hash == earlier.hash;
                    assert(now[k] == before[k]);
                } else {
                    assert(is_listed(now, package));
                }
            }
        } else {
            if all.contains_key(name) {
                assert(all[name] == some[name]);
            }
            assert forall|i: int|
                0 <= i < frameworks.len() && is_package(lock[#[trigger] frameworks[i]], name) implies is_listed(
                all[name], locked_package(lock[frameworks[i]][name])) by {
                assert(i < fewer.len());
                assert(fewer[i] == frameworks[i]);
            }
        }
        if exists|i: int|
            0 <= i < fewer.len() && is_package(lock[#[trigger] fewer[i]], name) {
            let i = choose|i: int| 0 <= i < fewer.len() && is_package(lock[#[trigger] fewer[i]], name);
            assert(frameworks[i] == fewer[i]);
        }
        if exists|i: int|
            0 <= i < frameworks.len() && is_package(lock[#[trigger] frameworks[i]], name) {
            let i = choose|i: int|
                0 <= i < frameworks.len() && is_package(lock[#[trigger] frameworks[i]], name);
            if i < fewer.len() {
                assert(fewer[i] == frameworks[i]);
            }
        }
    }
}

// ---------------------------------------------------------------------------
// Reading a lock file
// ---------------------------------------------------------------------------

/// The text under `name`, if there is one.
pub open spec fn optional_text(
    texts: Map<Seq<char>, Seq<char>>,
    name: Seq<char>,
) -> Option<Seq<char>> {
    if texts.contains_key(name) {
        Some(texts[name])
    } else {
        None
    }
}

/// The lock file entry that a JSON value holds. Only members that are strings count.
pub open spec fn entry_of(value: Json) -> LockEntryView {
    let texts = json::string_members(value);
    LockEntryView {
        dep_type: crate::msbuild::text_under(texts, "type"@),
        requested: optional_text(texts, "requested"@),
        resolved: optional_text(texts, "resolved"@),
        content_hash: optional_text(texts, "contentHash"@),
    }
}

/// The entries of one target framework.
pub open spec fn entries_of(framework: Json) -> Map<Seq<char>, LockEntryView> {
    framework->Object_0.map_values(|value: Json| entry_of(value))
}

/// The entries of a JSON document: an object of objects under `dependencies`, by target
/// framework. A document without that member has none.
pub open spec fn lock_of(document: Json) -> Option<
    Map<Seq<char>, Map<Seq<char>, LockEntryView>>,
> {
    if !(document is Object) {
        None
    } else if !document->Object_0.contains_key("dependencies"@) {
        Some(Map::empty())
    } else {
        frameworks_of(document->Object_0["dependencies"@])
    }
}

/// The entries of an object of objects.
pub open spec fn frameworks_of(document: Json) -> Option<
    Map<Seq<char>, Map<Seq<char>, LockEntryView>>,
> {
    if document is Object && forall|name: Seq<char>| #[trigger]
        document->Object_0.contains_key(name) ==> document->Object_0[name] is Object {
        Some(document->Object_0.map_values(|framework: Json| entries_of(framework)))
    } else {
        None
    }
}

/// Why a lock file could not be read.
#[derive(Debug)]
pub enum LockError {
    /// The file is no JSON.
    Json(serde_json::Error),
    /// The JSON document is no lock file.
    Shape,
    /// The lock file asks for a range that cannot be read.
    Range,
}

/// A copy of the string member under `name`.
fn read_text(value: &serde_json::Value, name: &str) -> (r: Option<String>)
    ensures
        r.deep_view() == optional_text(json::string_members(json::json_of(*value)), name@),
{
    match json::text_member(value, name) {
        Some(content) => Some(text::owned(content)),
        None => None,
    }
}

/// Reads one entry.
fn read_entry(value: &serde_json::Value) -> (r: LockEntry)
    ensures
        r.deep_view() == entry_of(json::json_of(*value)),
{
    LockEntry {
        dep_type: match read_text(value, "type") {
            Some(dep_type) => dep_type,
            None => String::new(),
        },
        requested: read_text(value, "requested"),
        resolved: read_text(value, "resolved"),
        content_hash: read_text(value, "contentHash"),
    }
}

/// Reads the entries of one target framework.
fn read_entries(value: &serde_json::Value) -> (r: Option<StrMap<LockEntry>>)
    ensures
        match r {
            Some(entries) => json::json_of(*value) is Object && entries@ == entries_of(
                json::json_of(*value),
            ),
            None => !(json::json_of(*value) is Object),
        },
{
    let ghost members = json::json_of(*value)->Object_0;
    let names = match json::member_names(value) {
        Some(names) => names,
        None => {
            return None;
        },
    };
    let ghost ns = text::views(names@);
    let mut r: StrMap<LockEntry> = StrMap::new();
    assert(ns.take(0) =~= Seq::empty());
    for i in 0..names.len()
        invariant
            json::json_of(*value) is Object,
            members == json::json_of(*value)->Object_0,
            ns == text::views(names@),
            ns.to_set() == members.dom(),
            forall|name: Seq<char>| #[trigger] r@.contains_key(name) <==> ns.take(i as int).contains(
                name,
            ),
            forall|name: Seq<char>| #[trigger] r@.contains_key(name) ==> r@[name] == entry_of(
                members[name],
            ),
    {
        let name = names[i].as_str();
        assert(ns[i as int] == name@);
        assert(ns.to_set().contains(name@));
        assert(members.contains_key(name@));
        if let Some(inner) = json::member(value, name) {
            r.insert(text::owned(name), read_entry(inner));
        }
        assert forall|k: Seq<char>| #[trigger] ns.take(i + 1).contains(k) <==> (ns.take(
            i as int,
        ).contains(k) || k == name@) by {
            text::lemma_take_contains(ns, i as int, k);
        }
    }
    assert(ns.take(ns.len() as int) =~= ns);
    assert forall|name: Seq<char>| #[trigger] members.contains_key(name) <==> ns.contains(name) by {
        assert(ns.to_set().contains(name) <==> ns.contains(name));
    }
    assert(r@ =~= entries_of(json::json_of(*value)));
    Some(r)
}

/// Reads the entries of all target frameworks.
fn read_frameworks(value: &serde_json::Value) -> (r: Option<StrMap<StrMap<LockEntry>>>)
    ensures
        match r {
            Some(lock) => frameworks_of(json::json_of(*value)) == Some(lock@),
            None => frameworks_of(json::json_of(*value)) is None,
        },
{
    let ghost members = json::json_of(*value)->Object_0;
    let names = match json::member_names(value) {
        Some(names) => names,
        None => {
            return None;
        },
    };
    let ghost ns = text::views(names@);
    let mut r: StrMap<StrMap<LockEntry>> = StrMap::new();
    assert(ns.take(0) =~= Seq::empty());
    for i in 0..names.len()
        invariant
            json::json_of(*value) is Object,
            members == json::json_of(*value)->Object_0,
            ns == text::views(names@),
            ns.to_set() == members.dom(),
            forall|j: int| 0 <= j < i ==> members[#[trigger] ns[j]] is Object,
            forall|name: Seq<char>| #[trigger] r@.contains_key(name) <==> ns.take(i as int).contains(
                name,
            ),
            forall|name: Seq<char>| #[trigger] r@.contains_key(name) ==> r@[name] == entries_of(
                members[name],
            ),
    {
        let name = names[i].as_str();
        assert(ns[i as int] == name@);
        assert(ns.to_set().contains(name@));
        assert(members.contains_key(name@));
        if let Some(inner) = json::member(value, name) {
            match read_entries(inner) {
                Some(entries) => {
                    r.insert(text::owned(name), entries);
                },
                None => {
                    return None;
                },
            }
        }
        assert forall|k: Seq<char>| #[trigger] ns.take(i + 1).contains(k) <==> (ns.take(
            i as int,
        ).contains(k) || k == name@) by {
            text::lemma_take_contains(ns, i as int, k);
        }
    }
    assert(ns.take(ns.len() as int) =~= ns);
    assert forall|name: Seq<char>| #[trigger] members.contains_key(name) <==> ns.contains(name) by {
        assert(ns.to_set().contains(name) <==> ns.contains(name));
    }
    assert forall|name: Seq<char>| #[trigger] members.contains_key(
        name,
    ) implies members[name] is Object by {
        let j = choose|j: int| 0 <= j < ns.len() && ns[j] == name;
        assert(members[ns[j]] is Object);
    }
    assert(r@ =~= members.map_values(|framework: Json| entries_of(framework)));
    Some(r)
}

/// Reads a lock file out of a parsed JSON document.
pub fn read_lock(value: &serde_json::Value) -> (r: Option<StrMap<StrMap<LockEntry>>>)
    ensures
        match r {
            Some(lock) => lock_of(json::json_of(*value)) == Some(lock@),
            None => lock_of(json::json_of(*value)) is None,
        },
{
    if json::member_names(value).is_none() {
        return None;
    }
    match json::member(value, "dependencies") {
        Some(inner) => read_frameworks(inner),
        None => Some(StrMap::new()),
    }
}

/// Reads the text of a lock file: its entries by target framework and name.
pub fn parse_lock_file(content: &str) -> (r: Result<StrMap<StrMap<LockEntry>>, LockError>)
    ensures
        match r {
            Ok(lock) => json::json_in(content@) is Some && lock_of(
                json::json_in(content@)->Some_0,
            ) == Some(lock@),
            Err(LockError::Json(_)) => json::json_in(content@) is None,
            Err(LockError::Shape) => json::json_in(content@) is Some && lock_of(
                json::json_in(content@)->Some_0,
            ) is None,
            Err(LockError::Range) => false,
        },
{
    match json::parse(content) {
        Ok(value) => match read_lock(&value) {
            Some(lock) => Ok(lock),
            None => Err(LockError::Shape),
        },
        Err(error) => Err(LockError::Json(error)),
    }
}

/// Reads the packages of a lock file out of its text. Where the text is a lock file with
/// a range that cannot be read, which no NuGet range is, that is the error.
pub fn read_locked_packages(content: &str) -> (r: Result<
    StrMap<Vec<LockDependency>>,
    LockError,
>)
    ensures
        match json::json_in(content@) {
            None => r is Err && r->Err_0 is Json,
            Some(document) => match lock_of(document) {
                None => r is Err && r->Err_0 is Shape,
                Some(lock) => if is_readable_lock(lock) {
                    r is Ok && exists|frameworks: Seq<Seq<char>>|
                        crate::str_map::enumerates(frameworks, lock.dom()) && r->Ok_0@
                            == #[trigger] locked_packages(lock, frameworks)
                } else {
                    r is Err && r->Err_0 is Range
                },
            },
        },
{
    match parse_lock_file(content) {
        Ok(lock) => {
            if is_readable_lock_file(&lock) {
                Ok(parse_lock(&lock))
            } else {
                Err(LockError::Range)
            }
        },
        Err(error) => Err(error),
    }
}

// ---------------------------------------------------------------------------
// Manifests
// ---------------------------------------------------------------------------

/// A package that a manifest declares.
#[derive(Debug, PartialEq, Eq)]
pub enum ManifestDependency {
    /// The version is inherited from the workspace manifest.
    Inherited,
    /// The version that is asked for.
    Version(moon_config::UnresolvedVersionSpec),
    /// What is asked for, where that is no moon version requirement.
    Reference(String),
}

/// What a [`ManifestDependency`] says.
pub enum ManifestView {
    Inherited,
    Version(moon_config::UnresolvedVersionSpec),
    Reference(Seq<char>),
}

impl DeepView for ManifestDependency {
    type V = ManifestView;

    open spec fn deep_view(&self) -> ManifestView {
        match *self {
            ManifestDependency::Inherited => ManifestView::Inherited,
            ManifestDependency::Version(version) => ManifestView::Version(version),
            ManifestDependency::Reference(reference) => ManifestView::Reference(reference@),
        }
    }
}

/// The packages that a manifest declares.
#[derive(Debug, PartialEq, Eq)]
pub struct Manifest {
    pub dependencies: StrMap<ManifestDependency>,
    /// Whether the project can be published as a package.
    pub publishable: bool,
}

/// The package that a declared version stands for. NuGet range syntax (`[13.0.3]`,
/// `(1.0,2.0)`) is not a moon version spec; the raw text is kept as a reference, so
/// that the dependency is still listed (it just won't contribute a version to
/// fingerprints).
pub open spec fn declared(version: Seq<char>) -> ManifestView {
    match requirement_of(version) {
        Some(requirement) => ManifestView::Version(requirement),
        None => ManifestView::Reference(version),
    }
}

/// The package that a referenced version stands for. Without a version, it is inherited
/// from the workspace manifest.
pub open spec fn referenced(version: Seq<char>) -> ManifestView {
    if version == "*"@ {
        ManifestView::Inherited
    } else {
        declared(version)
    }
}

/// The file is the manifest of Central Package Management.
pub open spec fn is_packages_props(name: Seq<char>) -> bool {
    text::same_ignoring_ascii_case(name, "Directory.Packages.props"@)
}

/// The packages that a manifest declares, before their versions are read.
pub open spec fn declared_versions(name: Seq<char>, evaluation: EvalView) -> Map<
    Seq<char>,
    Seq<char>,
> {
    if is_packages_props(name) {
        evaluation.package_versions()
    } else {
        evaluation.package_references()
    }
}

/// `manifest` holds what an evaluated file declares: each package with its version, and
/// whether the project can be packed.
pub open spec fn is_manifest(
    file_name: Seq<char>,
    evaluation: EvalView,
    manifest: Manifest,
) -> bool {
    &&& manifest.dependencies@ == declared_versions(file_name, evaluation).map_values(
        |version: Seq<char>|
            if is_packages_props(file_name) {
                declared(version)
            } else {
                referenced(version)
            },
    )
    &&& manifest.publishable == (!is_packages_props(file_name) && text::same_ignoring_ascii_case(
        evaluation.property("IsPackable"@),
        "true"@,
    ))
}

/// Every version can be read.
pub open spec fn has_readable_versions(versions: Map<Seq<char>, Seq<char>>) -> bool {
    forall|name: Seq<char>| #[trigger] versions.contains_key(name) ==> is_readable(versions[name])
}

/// Reads the version of a declared package.
fn read_declared(version: &str, inherits: bool) -> (r: ManifestDependency)
    requires
        is_readable(version@),
    ensures
        r.deep_view() == (if inherits {
            referenced(version@)
        } else {
            declared(version@)
        }),
{
    if inherits && text::same_text(version, "*") {
        return ManifestDependency::Inherited;
    }
    match parse_requirement(version) {
        Some(requirement) => ManifestDependency::Version(requirement),
        None => ManifestDependency::Reference(text::owned(version)),
    }
}

/// Whether every version that an evaluated manifest declares can be read.
pub fn is_readable_manifest(file_name: &str, evaluation: &MsbuildEvaluation) -> (r: bool)
    ensures
        r == has_readable_versions(declared_versions(file_name@, evaluation@)),
{
    let versions = if text::eq_ignore_ascii_case(file_name, "Directory.Packages.props") {
        evaluation.package_versions()
    } else {
        evaluation.package_references()
    };
    let names = versions.keys();
    let ghost ns = text::views(names@);
    for i in 0..names.len()
        invariant
            versions@ == declared_versions(file_name@, evaluation@),
            ns == text::views(names@),
            crate::str_map::enumerates(ns, versions@.dom()),
            forall|j: int| 0 <= j < i ==> is_readable(versions@[#[trigger] ns[j]]),
    {
        let name = names[i].as_str();
        assert(ns[i as int] == name@);
        assert(ns.contains(name@));
        assert(versions@.dom().contains(name@));
        assert(versions@.contains_key(name@));
        if let Some(version) = versions.get(name) {
            if !is_readable_requirement(version.as_str()) {
                assert(!is_readable(versions@[name@]));
                return false;
            }
        }
    }
    assert forall|name: Seq<char>| #[trigger] versions@.contains_key(name) implies is_readable(
        versions@[name],
    ) by {
        assert(versions@.dom().contains(name));
        let j = choose|j: int| 0 <= j < ns.len() && ns[j] == name;
        assert(is_readable(versions@[ns[j]]));
    }
    true
}

/// The packages that an evaluated manifest declares.
///
/// `Directory.Packages.props` declares the workspace-level versions that versionless
/// PackageReferences inherit (Central Package Management): its PackageVersion items
/// count. Of a project file its PackageReference items count, and it says whether the
/// project can be packed.
pub fn parse_manifest(file_name: &str, evaluation: &MsbuildEvaluation) -> (r: Manifest)
    requires
        has_readable_versions(declared_versions(file_name@, evaluation@)),
    ensures
        is_manifest(file_name@, evaluation@, r),
{
    let central = text::eq_ignore_ascii_case(file_name, "Directory.Packages.props");
    let versions = if central {
        evaluation.package_versions()
    } else {
        evaluation.package_references()
    };
    let ghost given = versions@;
    let ghost wanted = given.map_values(
        |version: Seq<char>|
            if central {
                declared(version)
            } else {
                referenced(version)
            },
    );
    let names = versions.keys();
    let ghost ns = text::views(names@);
    let mut dependencies: StrMap<ManifestDependency> = StrMap::new();
    assert(ns.take(0) =~= Seq::empty());
    for i in 0..names.len()
        invariant
            given == versions@,
            has_readable_versions(given),
            ns == text::views(names@),
            crate::str_map::enumerates(ns, given.dom()),
            wanted == given.map_values(
                |version: Seq<char>|
                    if central {
                        declared(version)
                    } else {
                        referenced(version)
                    },
            ),
            forall|name: Seq<char>| #[trigger] dependencies@.contains_key(name) <==> ns.take(
                i as int,
            ).contains(name),
            forall|name: Seq<char>| #[trigger] dependencies@.contains_key(name)
                ==> dependencies@[name] == wanted[name],
    {
        let name = names[i].as_str();
        assert(ns[i as int] == name@);
        assert(ns.contains(name@));
        assert(given.dom().contains(name@));
        assert(given.contains_key(name@));
        if let Some(version) = versions.get(name) {
            dependencies.insert(text::owned(name), read_declared(version.as_str(), !central));
        }
        assert forall|k: Seq<char>| #[trigger] ns.take(i + 1).contains(k) <==> (ns.take(
            i as int,
        ).contains(k) || k == name@) by {
            text::lemma_take_contains(ns, i as int, k);
        }
    }
    assert(ns.take(ns.len() as int) =~= ns);
    assert forall|name: Seq<char>| #[trigger] given.contains_key(name) <==> ns.contains(name) by {
        assert(given.dom().contains(name) <==> ns.contains(name));
    }
    assert(dependencies@ =~= wanted);
    Manifest {
        dependencies,
        publishable: !central && text::eq_ignore_ascii_case(
            evaluation.property("IsPackable"),
            "true",
        ),
    }
}

/// The packages that an evaluated manifest declares, where every version can be read.
pub fn read_manifest(file_name: &str, evaluation: &MsbuildEvaluation) -> (r: Option<Manifest>)
    ensures
        match r {
            Some(manifest) => has_readable_versions(declared_versions(file_name@, evaluation@))
                && is_manifest(file_name@, evaluation@, manifest),
            None => !has_readable_versions(declared_versions(file_name@, evaluation@)),
        },
{
    if is_readable_manifest(file_name, evaluation) {
        Some(parse_manifest(file_name, evaluation))
    } else {
        None
    }
}

// ---------------------------------------------------------------------------
// What is locked and declared
// ---------------------------------------------------------------------------

/// Every locked package is listed with the version that was found for it and with its
/// hash, whatever else its entry says; entries of projects list nothing.
pub proof fn law_locked_versions_are_listed(
    lock: Map<Seq<char>, Map<Seq<char>, LockEntryView>>,
    frameworks: Seq<Seq<char>>,
    f: int,
    name: Seq<char>,
)
    requires
        0 <= f < frameworks.len(),
        lock[frameworks[f]].contains_key(name),
        !text::same_ignoring_ascii_case(lock[frameworks[f]][name].dep_type, "Project"@),
    ensures
        locked_packages(lock, frameworks).contains_key(name),
        exists|k: int|
            0 <= k < locked_packages(lock, frameworks)[name].len() && (#[trigger] locked_packages(
                lock,
                frameworks,
            )[name][k]).hash == lock[frameworks[f]][name].content_hash && locked_packages(
                lock,
                frameworks,
            )[name][k].version == (match lock[frameworks[f]][name].resolved {
                Some(resolved) => version_of(resolved),
                None => None,
            }),
{
    law_locked_packages_are_listed_once(lock, frameworks, name);
    assert(is_package(lock[frameworks[f]], name));
    let list = locked_packages(lock, frameworks)[name];
    let package = locked_package(lock[frameworks[f]][name]);
    assert(is_listed(list, package));
}

/// `package` is what an entry of that name locks for one of the frameworks: its version,
/// its hash, and the range that was asked for.
pub open spec fn is_locked_by(
    lock: Map<Seq<char>, Map<Seq<char>, LockEntryView>>,
    frameworks: Seq<Seq<char>>,
    name: Seq<char>,
    package: LockView,
) -> bool {
    exists|f: int|
        0 <= f < frameworks.len() && lock[#[trigger] frameworks[f]].contains_key(name)
            && !text::same_ignoring_ascii_case(lock[frameworks[f]][name].dep_type, "Project"@)
            && package.hash == lock[frameworks[f]][name].content_hash && package.version == (
        match lock[frameworks[f]][name].resolved {
            Some(resolved) => version_of(resolved),
            None => None,
        }) && package.req == (match lock[frameworks[f]][name].requested {
            Some(requested) => requirement_of(requested),
            None => None,
        })
}

/// Nothing is listed that no entry locks, and a package that is listed was asked for as its
/// entry says.
pub proof fn law_listed_versions_are_locked(
    lock: Map<Seq<char>, Map<Seq<char>, LockEntryView>>,
    frameworks: Seq<Seq<char>>,
    name: Seq<char>,
    k: int,
)
    requires
        locked_packages(lock, frameworks).contains_key(name),
        0 <= k < locked_packages(lock, frameworks)[name].len(),
    ensures
        is_locked_by(lock, frameworks, name, locked_packages(lock, frameworks)[name][k]),
    decreases frameworks.len(),
{
    let fewer = frameworks.drop_last();
    let last = frameworks.len() - 1;
    let some = locked_packages(lock, fewer);
    let all = locked_packages(lock, frameworks);
    let package = all[name][k];
    let before = listed(some, name);
    if k < before.len() {
        assert(all[name][k] == before[k]);
        law_listed_versions_are_locked(lock, fewer, name, k);
        let f = choose|f: int|
            0 <= f < fewer.len() && lock[#[trigger] fewer[f]].contains_key(name)
                && !text::same_ignoring_ascii_case(lock[fewer[f]][name].dep_type, "Project"@)
                && package.hash == lock[fewer[f]][name].content_hash && package.version == (
            match lock[fewer[f]][name].resolved {
                Some(resolved) => version_of(resolved),
                None => None,
            }) && package.req == (match lock[fewer[f]][name].requested {
                Some(requested) => requirement_of(requested),
                None => None,
            });
        assert(frameworks[f] == fewer[f]);
    } else {
        assert(is_package(lock[frameworks[last]], name));
        assert(package == locked_package(lock[frameworks[last]][name]));
    }
}

/// The text that a member of a JSON object holds, if it holds one.
pub open spec fn text_in(value: Json, name: Seq<char>) -> Option<Seq<char>> {
    match value {
        Json::Object(members) => if members.contains_key(name) && members[name] is Text {
            Some(members[name]->Text_0)
        } else {
            None
        },
        _ => None,
    }
}

/// How the entries of a lock file stand in its document: by target framework and name under
/// `dependencies`, with their type, their range, their version and their hash.
pub proof fn law_lock_entries_stand_under_dependencies(
    document: Json,
    framework: Seq<char>,
    name: Seq<char>,
)
    requires
        lock_of(document) is Some,
    ensures
        ({
            let lock = lock_of(document)->Some_0;
            let there = document->Object_0.contains_key("dependencies"@)
                && document->Object_0["dependencies"@]->Object_0.contains_key(framework);
            let entries = document->Object_0["dependencies"@]->Object_0[framework]->Object_0;
            &&& document is Object
            &&& lock.contains_key(framework) <==> there
            &&& there ==> (lock[framework].contains_key(name) <==> entries.contains_key(name))
            &&& there && entries.contains_key(name) ==> {
                let entry = lock[framework][name];
                &&& entry.dep_type == (match text_in(entries[name], "type"@) {
                    Some(content) => content,
                    None => Seq::empty(),
                })
                &&& entry.requested == text_in(entries[name], "requested"@)
                &&& entry.resolved == text_in(entries[name], "resolved"@)
                &&& entry.content_hash == text_in(entries[name], "contentHash"@)
            }
        }),
{
}

/// A document is a lock file exactly where it is an object and what stands under
/// `dependencies`, if anything, is an object of objects.
pub proof fn law_lock_documents_have_a_shape(document: Json)
    ensures
        lock_of(document) is Some <==> document is Object && (
        document->Object_0.contains_key("dependencies"@) ==> ({
            let dependencies = document->Object_0["dependencies"@];
            dependencies is Object && forall|framework: Seq<char>| #[trigger]
                dependencies->Object_0.contains_key(framework)
                    ==> dependencies->Object_0[framework] is Object
        })),
{
}

/// What a manifest declares: of a project file each referenced package, of
/// `Directory.Packages.props` each central one. A version that moon can read is kept as
/// such and any other as it is written; a project file inherits what it gives no version.
pub proof fn law_manifests_declare_each_package(
    file_name: Seq<char>,
    evaluation: EvalView,
    manifest: Manifest,
    name: Seq<char>,
)
    requires
        is_manifest(file_name, evaluation, manifest),
    ensures
        ({
            let central = text::same_ignoring_ascii_case(
                file_name,
                "Directory.Packages.props"@,
            );
            let versions = if central {
                evaluation.package_versions()
            } else {
                evaluation.package_references()
            };
            &&& manifest.dependencies@.contains_key(name) <==> versions.contains_key(name)
            &&& versions.contains_key(name) ==> manifest.dependencies@[name] == (if !central
                && versions[name] == "*"@ {
                ManifestView::Inherited
            } else if requirement_of(versions[name]) is Some {
                ManifestView::Version(requirement_of(versions[name])->Some_0)
            } else {
                ManifestView::Reference(versions[name])
            })
            &&& manifest.publishable <==> !central && text::same_ignoring_ascii_case(
                evaluation.property("IsPackable"@),
                "true"@,
            )
        }),
{
}

/// Texts without bars next to each other, and two alternatives whose numbers are short, can
/// be read; three alternatives, or a long number in one of two, cannot.
pub proof fn law_short_alternatives_are_readable(
    a: Seq<char>,
    b: Seq<char>,
    c: Seq<char>,
)
    requires
        text::is_free_of(a, '|'),
        text::is_free_of(b, '|'),
        text::is_free_of(c, '|'),
    ensures
        is_readable(a),
        is_readable(a.push('|') + b),
        digit_count(a) <= 9 && digit_count(b) <= 9 ==> is_readable(a.push('|').push('|') + b),
        has_short_numbers(a) && has_short_numbers(b) <==> is_readable(
            a.push('|').push('|') + b,
        ),
        !is_readable((a.push('|').push('|') + b).push('|').push('|') + c) || may_vanish(b),
{
    let none = Seq::<char>::empty();
    reveal(Seq::filter);
    text::lemma_split_whole(a, '|');
    text::lemma_split_after(a, b, '|');
    text::lemma_split_after(a, none, '|');
    text::lemma_split_after(a.push('|'), b, '|');
    assert(a.push('|') + none =~= a.push('|'));
    let two = a.push('|').push('|') + b;
    let pair = text::split(two, '|');
    assert(pair =~= seq![a, none, b]);
    assert(is_gap(pair, 1));
    assert(digit_count(none) == 0);
    assert forall|i: int, j: int| #[trigger] is_gap(pair, i) && #[trigger] is_gap(pair, j) && i
        < j implies j == i + 1 by {}
    if has_short_numbers(a) && has_short_numbers(b) {
        assert forall|i: int| 0 <= i < pair.len() implies has_short_numbers(#[trigger] pair[i]) by {}
    }
    if is_readable(two) {
        assert(has_short_numbers(pair[0]) && has_short_numbers(pair[2]));
    }
    text::lemma_split_after(two, none, '|');
    text::lemma_split_after(two.push('|'), c, '|');
    assert(two.push('|') + none =~= two.push('|'));
    let three = two.push('|').push('|') + c;
    let all = text::split(three, '|');
    assert(all =~= seq![a, none, b, none, c]);
    assert(is_gap(all, 1) && is_gap(all, 3));
    assert(text::split(a.push('|') + b, '|') =~= seq![a, b]);
}

/// Ten digits in a row are too many, nine are not.
pub proof fn law_short_numbers_have_nine_digits(content: Seq<char>, at: int)
    requires
        0 <= at,
        at + 10 <= content.len(),
        forall|i: int| at <= i < at + 10 ==> '0' <= #[trigger] content[i] <= '9',
    ensures
        !has_short_numbers(content),
{
    assert(is_long_run(content, at));
    lemma_digits_in(content, at, at + 10);
}

/// A stretch of digits counts for as many as it is long.
proof fn lemma_digits_in(content: Seq<char>, from: int, to: int)
    requires
        0 <= from <= to <= content.len(),
        forall|i: int| from <= i < to ==> '0' <= #[trigger] content[i] <= '9',
    ensures
        digit_count(content) >= to - from,
    decreases content.len(),
{
    reveal(Seq::filter);
    if content.len() > 0 {
        let fewer = content.drop_last();
        if to == content.len() && to > from {
            let end = to - 1;
            assert forall|i: int| from <= i < end implies '0' <= #[trigger] fewer[i] <= '9' by {
                assert(content[i] == fewer[i]);
            }
            lemma_digits_in(fewer, from, end);
            assert('0' <= content[content.len() - 1] <= '9');
        } else if to < content.len() {
            assert forall|i: int| from <= i < to implies '0' <= #[trigger] fewer[i] <= '9' by {
                assert(content[i] == fewer[i]);
            }
            lemma_digits_in(fewer, from, to);
        }
    }
}

/// Entries, packages and declarations say what they hold.
pub proof fn law_packages_say_what_they_hold(
    entry: LockEntry,
    package: LockDependency,
    declared: ManifestDependency,
)
    ensures
        entry.deep_view().dep_type == entry.dep_type@,
        entry.requested is Some ==> entry.deep_view().requested == Some(
            entry.requested->Some_0@,
        ),
        entry.requested is None ==> entry.deep_view().requested is None,
        entry.resolved is Some ==> entry.deep_view().resolved == Some(entry.resolved->Some_0@),
        entry.resolved is None ==> entry.deep_view().resolved is None,
        entry.content_hash is Some ==> entry.deep_view().content_hash == Some(
            entry.content_hash->Some_0@,
        ),
        entry.content_hash is None ==> entry.deep_view().content_hash is None,
        package.hash is Some ==> package.deep_view().hash == Some(package.hash->Some_0@),
        package.hash is None ==> package.deep_view().hash is None,
        package.deep_view().req == package.req,
        package.deep_view().version == package.version,
        declared is Inherited <==> declared.deep_view() is Inherited,
        declared is Version <==> declared.deep_view() is Version,
        declared is Version ==> declared.deep_view()->Version_0 == declared->Version_0,
        declared is Reference ==> declared.deep_view()->Reference_0 == declared->Reference_0@,
{
}

/// Without wildcards a text has short numbers where no ten digits stand in a row.
pub proof fn law_numbers_count_apart_without_wildcards(content: Seq<char>)
    requires
        forall|i: int|
            0 <= i < content.len() ==> (#[trigger] content[i]) != '*' && content[i] != 'x'
                && content[i] != 'X',
        forall|at: int|
            0 <= at <= content.len() - 10 ==> exists|i: int|
                0 <= i < 10 && !('0' <= (#[trigger] (#[trigger] content.skip(at))[i]) <= '9'),
    ensures
        has_short_numbers(content),
{
    assert forall|at: int| !#[trigger] is_long_run(content, at) by {
        if is_long_run(content, at) {
            let rest = content.skip(at);
            let i = choose|i: int| 0 <= i < 10 && !('0' <= (#[trigger] rest[i]) <= '9');
            assert(rest[i] == content[at + i]);
            assert(is_digit(content[at + i]));
        }
    }
}

/// With a wildcard anywhere all digits count together, and ten are too many.
pub proof fn law_wildcards_make_digits_count_together(
    a: Seq<char>,
    wildcard: char,
    b: Seq<char>,
)
    requires
        wildcard == '*' || wildcard == 'x' || wildcard == 'X',
    ensures
        has_short_numbers(a.push(wildcard) + b) <==> digit_count(a) + digit_count(b) <= 9,
{
    let whole = a.push(wildcard) + b;
    let digit = |c: char| '0' <= c && c <= '9';
    reveal(Seq::filter);
    Seq::filter_distributes_over_add(a.push(wildcard), b, digit);
    assert(a.push(wildcard).drop_last() =~= a);
    assert(whole[a.len() as int] == wildcard);
    assert(is_wildcard(whole[a.len() as int]));
}

/// Digits are counted one by one.
pub proof fn law_digits_are_counted(a: Seq<char>, c: char)
    ensures
        digit_count(Seq::empty()) == 0,
        '0' <= c <= '9' ==> digit_count(a.push(c)) == digit_count(a) + 1,
        !('0' <= c <= '9') ==> digit_count(a.push(c)) == digit_count(a),
{
    reveal(Seq::filter);
    assert(a.push(c).drop_last() =~= a);
}

/// Only wildcards, dots and hyphens can vanish.
pub proof fn law_what_can_vanish(a: Seq<char>, c: char, b: Seq<char>)
    ensures
        may_vanish(Seq::empty()),
        may_vanish(a.push(c) + b) <==> may_vanish(a) && may_vanish(b) && (c == '*' || c == 'x' || c
            == 'X' || c == '.' || c == '-'),
{
    let whole = a.push(c) + b;
    let at = a.len() as int;
    assert(whole[at] == c);
    assert forall|i: int| 0 <= i < at implies #[trigger] a[i] == whole[i] by {}
    assert forall|i: int| 0 <= i < b.len() implies #[trigger] b[i] == whole[at + 1 + i] by {}
    if may_vanish(a) && may_vanish(b) {
        assert forall|i: int| 0 <= i < whole.len() && i != at implies {
            ||| is_wildcard(#[trigger] whole[i])
            ||| whole[i] == '.'
            ||| whole[i] == '-'
        } by {
            if i < at {
                assert(a[i] == whole[i]);
            } else {
                assert(b[i - at - 1] == whole[i]);
            }
        }
    }
}

/// A lock can be read where every requested range in it can.
pub proof fn law_locks_are_readable_where_ranges_are(
    lock: Map<Seq<char>, Map<Seq<char>, LockEntryView>>,
    frameworks: Seq<Seq<char>>,
)
    requires
        forall|f: int, name: Seq<char>|
            0 <= f < frameworks.len() && #[trigger] lock[frameworks[f]].contains_key(name)
                && lock[frameworks[f]][name].requested is Some ==> is_readable(
                lock[frameworks[f]][name].requested->Some_0,
            ),
    ensures
        are_readable(lock, frameworks),
    decreases frameworks.len(),
{
    if frameworks.len() > 0 {
        let fewer = frameworks.drop_last();
        assert forall|f: int, name: Seq<char>|
            0 <= f < fewer.len() && #[trigger] lock[fewer[f]].contains_key(name)
                && lock[fewer[f]][name].requested is Some implies is_readable(
            lock[fewer[f]][name].requested->Some_0,
        ) by {
            assert(fewer[f] == frameworks[f]);
            assert(lock[frameworks[f]].contains_key(name));
        }
        law_locks_are_readable_where_ranges_are(lock, fewer);
        let entries = lock[frameworks.last()];
        assert(frameworks.last() == frameworks[frameworks.len() - 1]);
        assert forall|name: Seq<char>| #[trigger]
            is_new(
                locked_packages(lock, fewer),
                entries,
                name,
            ) implies is_readable_entry(entries[name]) by {
            assert(lock[frameworks[frameworks.len() - 1]].contains_key(name));
        }
    }
}

/// A package of the first framework whose range cannot be read keeps a lock from being read.
pub proof fn law_unreadable_ranges_are_noticed(
    lock: Map<Seq<char>, Map<Seq<char>, LockEntryView>>,
    frameworks: Seq<Seq<char>>,
    name: Seq<char>,
)
    requires
        frameworks.len() > 0,
        lock[frameworks[0]].contains_key(name),
        !text::same_ignoring_ascii_case(lock[frameworks[0]][name].dep_type, "project"@),
        lock[frameworks[0]][name].requested is Some,
        !is_readable(lock[frameworks[0]][name].requested->Some_0),
    ensures
        !are_readable(lock, frameworks),
    decreases frameworks.len(),
{
    if frameworks.len() > 1 {
        law_unreadable_ranges_are_noticed(lock, frameworks.drop_last(), name);
    } else {
        let none = frameworks.drop_last();
        let entries = lock[frameworks.last()];
        reveal_strlit("project");
        reveal_strlit("Project");
        assert(text::ascii_lower("project"@) =~= text::ascii_lower("Project"@));
        assert(listed(locked_packages(lock, none), name).len() == 0);
        assert(is_new(locked_packages(lock, none), entries, name));
    }
}

} // verus!
