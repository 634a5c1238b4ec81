//! Strings as sequences of characters: the specification vocabulary that the
//! rest of the crate is written in, and the verified routines that compute it.

use vstd::prelude::*;

verus! {

// ---------------------------------------------------------------------------
// Vocabulary
// ---------------------------------------------------------------------------

/// `c` with an ASCII capital letter replaced by its small counterpart.
pub open spec fn ascii_lower_char(c: char) -> char {
    if 'A' <= c && c <= 'Z' {
        ((c as u8) + 32) as char
    } else {
        c
    }
}

/// Every ASCII capital letter of `s` replaced by its small counterpart.
pub open spec fn ascii_lower(s: Seq<char>) -> Seq<char> {
    s.map_values(|c: char| ascii_lower_char(c))
}

/// Equality up to the case of ASCII letters.
pub open spec fn same_ignoring_ascii_case(a: Seq<char>, b: Seq<char>) -> bool {
    ascii_lower(a) == ascii_lower(b)
}

/// Every occurrence of `from` replaced by `to`.
pub open spec fn replaced(s: Seq<char>, from: char, to: char) -> Seq<char> {
    s.map_values(|c: char| if c == from { to } else { c })
}

/// The position of the first `c` in `s`, if there is one.
pub open spec fn first_index(s: Seq<char>, c: char) -> Option<int>
    decreases s.len(),
{
    if s.len() == 0 {
        None
    } else if s[0] == c {
        Some(0)
    } else {
        match first_index(s.drop_first(), c) {
            Some(i) => Some(i + 1),
            None => None,
        }
    }
}

/// The position of the last `c` in `s`, if there is one.
pub open spec fn last_index(s: Seq<char>, c: char) -> Option<int>
    decreases s.len(),
{
    if s.len() == 0 {
        None
    } else if s.last() == c {
        Some(s.len() - 1)
    } else {
        last_index(s.drop_last(), c)
    }
}

/// `s` without the run of `c` that it ends in.
pub open spec fn trimmed_end(s: Seq<char>, c: char) -> Seq<char>
    decreases s.len(),
{
    if s.len() > 0 && s.last() == c {
        trimmed_end(s.drop_last(), c)
    } else {
        s
    }
}

/// `s` without the run of `c` that it begins with.
pub open spec fn trimmed_start(s: Seq<char>, c: char) -> Seq<char>
    decreases s.len(),
{
    if s.len() > 0 && s[0] == c {
        trimmed_start(s.drop_first(), c)
    } else {
        s
    }
}

/// The pieces of `s` between the occurrences of `sep`. There is always one
/// more piece than there are separators.
pub open spec fn split(s: Seq<char>, sep: char) -> Seq<Seq<char>>
    decreases s.len(),
{
    if s.len() == 0 {
        seq![Seq::empty()]
    } else {
        let before = split(s.drop_last(), sep);
        if s.last() == sep {
            before.push(Seq::empty())
        } else {
            before.drop_last().push(before.last().push(s.last()))
        }
    }
}

/// The pieces joined with `sep` between neighbours.
pub open spec fn joined(parts: Seq<Seq<char>>, sep: char) -> Seq<char>
    decreases parts.len(),
{
    if parts.len() == 0 {
        Seq::empty()
    } else if parts.len() == 1 {
        parts[0]
    } else {
        joined(parts.drop_last(), sep).push(sep) + parts.last()
    }
}

/// `c` does not occur in `s`.
pub open spec fn is_free_of(s: Seq<char>, c: char) -> bool {
    forall|i: int| 0 <= i < s.len() ==> s[i] != c
}

/// A piece after a separator is a piece of its own.
pub proof fn lemma_split_after(s: Seq<char>, piece: Seq<char>, sep: char)
    requires
        is_free_of(piece, sep),
    ensures
        split(s.push(sep) + piece, sep) == split(s, sep).push(piece),
    decreases piece.len(),
{
    let whole = s.push(sep) + piece;
    if piece.len() == 0 {
        assert(whole =~= s.push(sep));
        assert(whole.drop_last() =~= s);
        assert(piece =~= Seq::empty());
    } else {
        lemma_split_after(s, piece.drop_last(), sep);
        assert(whole.drop_last() =~= s.push(sep) + piece.drop_last());
        assert(whole.last() == piece.last());
        let before = split(whole.drop_last(), sep);
        assert(before.drop_last() =~= split(s, sep));
        assert(piece.drop_last().push(piece.last()) =~= piece);
    }
}

/// There is always a piece, and no piece holds the separator.
pub proof fn lemma_split_pieces(s: Seq<char>, sep: char)
    ensures
        split(s, sep).len() > 0,
        forall|i: int| 0 <= i < split(s, sep).len() ==> is_free_of(#[trigger] split(s, sep)[i], sep),
    decreases s.len(),
{
    if s.len() > 0 {
        let before = split(s.drop_last(), sep);
        lemma_split_pieces(s.drop_last(), sep);
        assert forall|i: int| 0 <= i < split(s, sep).len() implies is_free_of(
            #[trigger] split(s, sep)[i],
            sep,
        ) by {
            if i < before.len() {
                assert(is_free_of(before[i], sep));
            }
        }
    }
}

/// A text is split at a separator before it is split elsewhere.
pub proof fn lemma_split_between(a: Seq<char>, b: Seq<char>, sep: char)
    ensures
        split(a.push(sep) + b, sep) == split(a, sep) + split(b, sep),
    decreases b.len(),
{
    let whole = a.push(sep) + b;
    if b.len() == 0 {
        assert(whole =~= a.push(sep));
        assert(whole.drop_last() =~= a);
        assert(split(whole, sep) =~= split(a, sep) + split(b, sep));
    } else {
        let before = split(b.drop_last(), sep);
        lemma_split_between(a, b.drop_last(), sep);
        lemma_split_pieces(b.drop_last(), sep);
        assert(whole.drop_last() =~= a.push(sep) + b.drop_last());
        assert(whole.last() == b.last());
        assert((split(a, sep) + before).drop_last() =~= split(a, sep) + before.drop_last());
        assert(split(whole, sep) =~= split(a, sep) + split(b, sep));
    }
}

/// A text without the separator is one piece.
pub proof fn lemma_split_whole(s: Seq<char>, sep: char)
    requires
        is_free_of(s, sep),
    ensures
        split(s, sep) == seq![s],
    decreases s.len(),
{
    if s.len() == 0 {
        assert(s =~= Seq::empty());
    } else {
        lemma_split_whole(s.drop_last(), sep);
        assert(s.drop_last().push(s.last()) =~= s);
        assert(split(s, sep) =~= seq![s]);
    }
}

/// Splitting takes apart what joining put together.
pub proof fn lemma_split_joined(parts: Seq<Seq<char>>, sep: char)
    requires
        parts.len() > 0,
        forall|i: int| 0 <= i < parts.len() ==> is_free_of(#[trigger] parts[i], sep),
    ensures
        split(joined(parts, sep), sep) == parts,
    decreases parts.len(),
{
    if parts.len() == 1 {
        lemma_split_whole(parts[0], sep);
        assert(parts =~= seq![parts[0]]);
    } else {
        let fewer = parts.drop_last();
        assert forall|i: int| 0 <= i < fewer.len() implies is_free_of(#[trigger] fewer[i], sep) by {
            assert(is_free_of(parts[i], sep));
        }
        lemma_split_joined(fewer, sep);
        lemma_split_after(joined(fewer, sep), parts.last(), sep);
        assert(fewer.push(parts.last()) =~= parts);
    }
}

/// All the pieces, one after the other.
pub open spec fn concatenated(parts: Seq<Seq<char>>) -> Seq<char>
    decreases parts.len(),
{
    if parts.len() == 0 {
        Seq::empty()
    } else {
        concatenated(parts.drop_last()) + parts.last()
    }
}

/// One piece more.
pub proof fn lemma_concatenated_step(parts: Seq<Seq<char>>, i: int)
    requires
        0 <= i < parts.len(),
    ensures
        concatenated(parts.take(i + 1)) == concatenated(parts.take(i)) + parts[i],
{
    assert(parts.take(i + 1).drop_last() =~= parts.take(i));
}

/// The first piece, then the others.
pub proof fn lemma_concatenated_front(parts: Seq<Seq<char>>)
    requires
        parts.len() > 0,
    ensures
        concatenated(parts) == parts[0] + concatenated(parts.drop_first()),
    decreases parts.len(),
{
    if parts.len() == 1 {
        assert(concatenated(parts.drop_last()) =~= Seq::empty());
        assert(concatenated(parts.drop_first()) =~= Seq::empty());
        assert(concatenated(parts) =~= parts[0]);
    } else {
        let fewer = parts.drop_last();
        lemma_concatenated_front(fewer);
        assert(fewer.drop_first() =~= parts.drop_first().drop_last());
        assert(concatenated(parts) =~= parts[0] + concatenated(parts.drop_first()));
    }
}

/// Every piece occurs in what the pieces make up together.
pub proof fn lemma_concatenated_contains(parts: Seq<Seq<char>>, i: int)
    requires
        0 <= i < parts.len(),
    ensures
        contains_text(concatenated(parts), parts[i]),
    decreases parts.len(),
{
    let whole = concatenated(parts);
    let head = concatenated(parts.drop_last());
    if i == parts.len() - 1 {
        assert(whole.subrange(head.len() as int, (head.len() + parts[i].len()) as int) =~= parts[i]);
        assert(occurs_at(whole, parts[i], head.len() as int));
    } else {
        lemma_concatenated_contains(parts.drop_last(), i);
        let at = choose|at: int| occurs_at(head, parts[i], at);
        assert(whole.subrange(at, at + parts[i].len()) =~= head.subrange(
            at,
            at + parts[i].len(),
        ));
        assert(occurs_at(whole, parts[i], at));
    }
}

/// What occurs in the middle of a text occurs in the text.
pub proof fn lemma_contains_inside(
    before_it: Seq<char>,
    middle: Seq<char>,
    after_it: Seq<char>,
    needle: Seq<char>,
)
    requires
        contains_text(middle, needle),
    ensures
        contains_text(before_it + middle + after_it, needle),
{
    let whole = before_it + middle + after_it;
    let at = choose|at: int| occurs_at(middle, needle, at);
    let there = before_it.len() + at;
    assert(whole.subrange(there, there + needle.len()) =~= middle.subrange(
        at,
        at + needle.len(),
    ));
    assert(occurs_at(whole, needle, there));
}

/// Every character is an ASCII character.
pub open spec fn is_ascii(s: Seq<char>) -> bool {
    forall|i: int| 0 <= i < s.len() ==> (#[trigger] s[i] as u32) < 128
}

/// `needle` occurs in `s` at position `at`.
pub open spec fn occurs_at(s: Seq<char>, needle: Seq<char>, at: int) -> bool {
    0 <= at && at + needle.len() <= s.len() && s.subrange(at, at + needle.len()) == needle
}

/// `needle` occurs somewhere in `s`.
pub open spec fn contains_text(s: Seq<char>, needle: Seq<char>) -> bool {
    exists|at: int| occurs_at(s, needle, at)
}

/// How often `needle` occurs in `s`.
pub open spec fn occurrences(s: Seq<char>, needle: Seq<char>) -> nat
    decreases s.len(),
{
    if s.len() == 0 {
        0
    } else {
        occurrences(s.drop_first(), needle) + (if occurs_at(s, needle, 0) {
            1nat
        } else {
            0nat
        })
    }
}

/// Where nothing begins in the first part of a text, all occurrences lie in the second.
pub proof fn lemma_occurrences_skip(a: Seq<char>, b: Seq<char>, needle: Seq<char>)
    requires
        forall|i: int| 0 <= i < a.len() ==> !#[trigger] occurs_at(a + b, needle, i),
    ensures
        occurrences(a + b, needle) == occurrences(b, needle),
    decreases a.len(),
{
    if a.len() == 0 {
        assert(a + b =~= b);
    } else {
        let rest = a.drop_first();
        assert((a + b).drop_first() =~= rest + b);
        assert(!occurs_at(a + b, needle, 0));
        assert forall|i: int| 0 <= i < rest.len() implies !#[trigger] occurs_at(
            rest + b,
            needle,
            i,
        ) by {
            if occurs_at(rest + b, needle, i) {
                assert((a + b).subrange(i + 1, i + 1 + needle.len()) =~= (rest + b).subrange(
                    i,
                    i + needle.len(),
                ));
                assert(occurs_at(a + b, needle, i + 1));
            }
        }
        lemma_occurrences_skip(rest, b, needle);
    }
}

/// Lexicographic order by code point: the order in which text is sorted.
pub open spec fn before(a: Seq<char>, b: Seq<char>) -> bool
    decreases a.len(),
{
    if b.len() == 0 {
        false
    } else if a.len() == 0 {
        true
    } else if a[0] != b[0] {
        a[0] < b[0]
    } else {
        before(a.drop_first(), b.drop_first())
    }
}

/// The views of a sequence of strings.
pub open spec fn views(parts: Seq<String>) -> Seq<Seq<char>> {
    parts.map_values(|s: String| s@)
}

// ---------------------------------------------------------------------------
// Between strings and characters
// ---------------------------------------------------------------------------

/// `String::push` appends one character.
pub assume_specification[ String::push ](s: &mut String, c: char)
    ensures
        final(s)@ == old(s)@.push(c),
;

/// The characters of `s`.
pub fn chars_of(s: &str) -> (r: Vec<char>)
    ensures
        r@ == s@,
{
    let mut r: Vec<char> = Vec::new();
    for c in it: s.chars()
        invariant
            r@ == it.seq().take(it.index() as int),
            it.seq() == s@,
    {
        r.push(c);
    }
    r
}

/// The string that `chars` spells.
pub fn string_of(chars: &[char]) -> (r: String)
    ensures
        r@ == chars@,
{
    let mut r = String::new();
    for i in 0..chars.len()
        invariant
            r@ == chars@.take(i as int),
    {
        r.push(chars[i]);
        assert(chars@.take(i as int).push(chars@[i as int]) =~= chars@.take(i + 1));
    }
    assert(chars@.take(chars@.len() as int) =~= chars@);
    r
}

/// A copy of `s` as an owned string.
pub fn owned(s: &str) -> (r: String)
    ensures
        r@ == s@,
{
    s.to_owned()
}

/// Whether two strings spell the same text.
pub fn same_text(a: &str, b: &str) -> (r: bool)
    ensures
        r == (a@ == b@),
{
    let x = chars_of(a);
    let y = chars_of(b);
    same_chars(&x, &y)
}

/// Whether two character sequences are equal.
pub fn same_chars(a: &[char], b: &[char]) -> (r: bool)
    ensures
        r == (a@ == b@),
{
    if a.len() != b.len() {
        return false;
    }
    for i in 0..a.len()
        invariant
            a@.len() == b@.len(),
            forall|j: int| 0 <= j < i ==> a@[j] == b@[j],
    {
        if a[i] != b[i] {
            assert(a@[i as int] != b@[i as int]);
            return false;
        }
    }
    assert(a@ =~= b@);
    true
}

// ---------------------------------------------------------------------------
// Case
// ---------------------------------------------------------------------------

/// One character in ASCII lower case.
pub fn to_ascii_lower_char(c: char) -> (r: char)
    ensures
        r == ascii_lower_char(c),
{
    if 'A' <= c && c <= 'Z' {
        ((c as u8) + 32) as char
    } else {
        c
    }
}

/// A string in ASCII lower case.
pub fn to_ascii_lower(s: &str) -> (r: Vec<char>)
    ensures
        r@ == ascii_lower(s@),
{
    let chars = chars_of(s);
    let mut r: Vec<char> = Vec::new();
    for i in 0..chars.len()
        invariant
            chars@ == s@,
            r@.len() == i,
            forall|j: int| 0 <= j < i ==> r@[j] == ascii_lower_char(s@[j]),
    {
        r.push(to_ascii_lower_char(chars[i]));
    }
    assert(r@ =~= ascii_lower(s@));
    r
}

/// Equality up to the case of ASCII letters.
pub fn eq_ignore_ascii_case(a: &str, b: &str) -> (r: bool)
    ensures
        r == same_ignoring_ascii_case(a@, b@),
{
    let x = to_ascii_lower(a);
    let y = to_ascii_lower(b);
    same_chars(&x, &y)
}

/// The characters that a character has for its lower case, by the tables of Unicode.
pub uninterp spec fn char_lowercase(c: char) -> Seq<char>;

/// `char::to_lowercase`: the lower case of one character. An ASCII character has one
/// character for it.
#[verifier::external_body]
pub(crate) fn to_lowercase_char(c: char) -> (r: Vec<char>)
    ensures
        r@ == char_lowercase(c),
        (c as u32) < 128 ==> r@ == seq![ascii_lower_char(c)],
{
    c.to_lowercase().collect()
}

/// The lower case of one character.
pub open spec fn lowered_char(c: char) -> Seq<char> {
    if (c as u32) < 128 {
        seq![ascii_lower_char(c)]
    } else {
        char_lowercase(c)
    }
}

/// The lower case of one character after the other.
pub open spec fn lowered(s: Seq<char>) -> Seq<char> {
    concatenated(s.map_values(|c: char| lowered_char(c)))
}

/// The text in lower case, by the tables of Unicode.
pub uninterp spec fn lowercase(content: Seq<char>) -> Seq<char>;

/// The text in lower case: character by character, unless a Greek capital sigma is
/// among them, which has another lower case at the end of a word than within it. Which
/// of the two does not depend on the case of the letters around it.
pub open spec fn in_lower_case(s: Seq<char>) -> Seq<char> {
    if is_free_of(s, '\u{3a3}') {
        lowered(s)
    } else {
        lowercase(ascii_lower(s))
    }
}

/// `str::to_lowercase`: the lower case of a text, which is that of the text with its
/// ASCII capital letters replaced. Without a Greek capital sigma in it, that is the lower
/// case of each character. No ASCII capital letter is left, no backslash comes up that
/// was not there, and a text in lower case is its own lower case.
#[verifier::external_body]
pub(crate) fn to_lowercase(content: &str) -> (r: String)
    ensures
        r@ == lowercase(content@),
        r@ == lowercase(ascii_lower(content@)),
        is_free_of(content@, '\u{3a3}') ==> r@ == lowered(content@),
        forall|i: int| 0 <= i < r@.len() ==> !('A' <= #[trigger] r@[i] && r@[i] <= 'Z'),
        is_free_of(content@, '\\') ==> is_free_of(r@, '\\'),
        in_lower_case(r@) == r@,
{
    content.to_lowercase()
}

/// The lower case of ASCII text is the text with each capital letter replaced.
pub proof fn lemma_lowered_ascii(s: Seq<char>)
    requires
        is_ascii(s),
    ensures
        in_lower_case(s) == ascii_lower(s),
    decreases s.len(),
{
    let parts = s.map_values(|c: char| lowered_char(c));
    assert(is_free_of(s, '\u{3a3}'));
    if s.len() == 0 {
        assert(lowered(s) =~= ascii_lower(s));
    } else {
        let fewer = s.drop_last();
        assert(is_ascii(fewer)) by {
            assert forall|i: int| 0 <= i < fewer.len() implies (#[trigger] fewer[i] as u32)
                < 128 by {
                assert((s[i] as u32) < 128);
            }
        }
        lemma_lowered_ascii(fewer);
        assert(is_free_of(fewer, '\u{3a3}'));
        assert(parts.drop_last() =~= fewer.map_values(|c: char| lowered_char(c)));
        assert((s[s.len() - 1] as u32) < 128);
        assert(parts.last() == seq![ascii_lower_char(s.last())]);
        assert(lowered(s) =~= ascii_lower(s));
    }
}

/// Two texts that differ in the case of ASCII letters alone have one lower case.
pub proof fn lemma_lowered_ignores_ascii_case(a: Seq<char>, b: Seq<char>)
    requires
        same_ignoring_ascii_case(a, b),
    ensures
        in_lower_case(a) == in_lower_case(b),
{
    let f = |c: char| lowered_char(c);
    assert(a.len() == ascii_lower(a).len() == ascii_lower(b).len() == b.len());
    assert forall|i: int| 0 <= i < a.len() implies lowered_char(#[trigger] a[i]) == lowered_char(
        b[i],
    ) && (a[i] == '\u{3a3}' <==> b[i] == '\u{3a3}') by {
        assert(ascii_lower(a)[i] == ascii_lower(b)[i]);
        assert(ascii_lower_char(a[i]) == ascii_lower_char(b[i]));
    }
    assert(is_free_of(a, '\u{3a3}') <==> is_free_of(b, '\u{3a3}')) by {
        if is_free_of(a, '\u{3a3}') {
            assert forall|i: int| 0 <= i < b.len() implies b[i] != '\u{3a3}' by {
                assert(a[i] != '\u{3a3}');
            }
        }
        if is_free_of(b, '\u{3a3}') {
            assert forall|i: int| 0 <= i < a.len() implies a[i] != '\u{3a3}' by {
                assert(b[i] != '\u{3a3}');
            }
        }
    }
    assert(a.map_values(f) =~= b.map_values(f));
}

/// Every `from` replaced by `to`.
pub fn replace_char(s: &str, from: char, to: char) -> (r: String)
    ensures
        r@ == replaced(s@, from, to),
{
    let chars = chars_of(s);
    let mut r: Vec<char> = Vec::new();
    for i in 0..chars.len()
        invariant
            chars@ == s@,
            r@.len() == i,
            forall|j: int| 0 <= j < i ==> r@[j] == (if s@[j] == from {
                to
            } else {
                s@[j]
            }),
    {
        let c = chars[i];
        r.push(if c == from {
            to
        } else {
            c
        });
    }
    assert(r@ =~= replaced(s@, from, to));
    string_of(&r)
}

// ---------------------------------------------------------------------------
// Searching
// ---------------------------------------------------------------------------

/// Where `first_index` points, said without recursion.
pub proof fn lemma_first_index(s: Seq<char>, c: char)
    ensures
        match first_index(s, c) {
            Some(i) => 0 <= i < s.len() && s[i] == c && (forall|j: int|
                0 <= j < i ==> s[j] != c),
            None => forall|j: int| 0 <= j < s.len() ==> s[j] != c,
        },
    decreases s.len(),
{
    if s.len() > 0 && s[0] != c {
        let tail = s.drop_first();
        lemma_first_index(tail, c);
        assert forall|j: int| 0 < j < s.len() implies s[j] == tail[j - 1] by {}
    }
}

/// Where `last_index` points, said without recursion.
pub proof fn lemma_last_index(s: Seq<char>, c: char)
    ensures
        match last_index(s, c) {
            Some(i) => 0 <= i < s.len() && s[i] == c && (forall|j: int|
                i < j < s.len() ==> s[j] != c),
            None => forall|j: int| 0 <= j < s.len() ==> s[j] != c,
        },
    decreases s.len(),
{
    if s.len() > 0 && s.last() != c {
        let head = s.drop_last();
        lemma_last_index(head, c);
        assert forall|j: int| 0 <= j < head.len() implies s[j] == head[j] by {}
    }
}

/// The position of the first `c`.
pub fn find_char(s: &[char], c: char) -> (r: Option<usize>)
    ensures
        match r {
            Some(i) => first_index(s@, c) == Some(i as int) && i < s@.len(),
            None => first_index(s@, c) is None,
        },
{
    proof {
        lemma_first_index(s@, c);
    }
    for i in 0..s.len()
        invariant
            forall|j: int| 0 <= j < i ==> s@[j] != c,
            match first_index(s@, c) {
                Some(k) => 0 <= k < s.len() && s@[k] == c && (forall|j: int|
                    0 <= j < k ==> s@[j] != c),
                None => forall|j: int| 0 <= j < s.len() ==> s@[j] != c,
            },
    {
        if s[i] == c {
            return Some(i);
        }
    }
    None
}

/// The position of the last `c`.
pub fn rfind_char(s: &[char], c: char) -> (r: Option<usize>)
    ensures
        match r {
            Some(i) => last_index(s@, c) == Some(i as int) && i < s@.len(),
            None => last_index(s@, c) is None,
        },
{
    let mut i: usize = s.len();
    assert(s@.take(s@.len() as int) =~= s@);
    while i > 0
        invariant
            i <= s@.len(),
            last_index(s@, c) == last_index(s@.take(i as int), c),
        decreases i,
    {
        assert(s@.take(i as int).drop_last() =~= s@.take(i - 1));
        assert(s@.take(i as int).last() == s@[i - 1]);
        if s[i - 1] == c {
            return Some(i - 1);
        }
        i -= 1;
    }
    None
}

/// Whether `needle` occurs at `at`.
pub fn occurs(s: &[char], needle: &[char], at: usize) -> (r: bool)
    ensures
        r == occurs_at(s@, needle@, at as int),
{
    if at > s.len() || needle.len() > s.len() - at {
        return false;
    }
    let total: usize = s.len();
    for i in 0..needle.len()
        invariant
            total == s@.len(),
            at + needle@.len() <= total,
            forall|j: int| 0 <= j < i ==> s@[at + j] == needle@[j],
    {
        if s[at + i] != needle[i] {
            assert(s@.subrange(at as int, at + needle@.len())[i as int] != needle@[i as int]);
            return false;
        }
    }
    assert(s@.subrange(at as int, at + needle@.len()) =~= needle@);
    true
}

/// Whether `needle` occurs anywhere.
pub fn contains(s: &[char], needle: &[char]) -> (r: bool)
    ensures
        r == contains_text(s@, needle@),
{
    if needle.len() > s.len() {
        return false;
    }
    let limit: usize = s.len() - needle.len();
    let mut at: usize = 0;
    while at <= limit
        invariant
            limit == s@.len() - needle@.len(),
            at <= limit + 1,
            forall|j: int| 0 <= j < at ==> !occurs_at(s@, needle@, j),
        decreases limit + 1 - at,
    {
        if occurs(s, needle, at) {
            return true;
        }
        if at == limit {
            assert(forall|j: int| occurs_at(s@, needle@, j) ==> j <= limit);
            return false;
        }
        at += 1;
    }
    false
}

/// Whether `s` begins with `prefix`.
pub fn starts_with(s: &[char], prefix: &[char]) -> (r: bool)
    ensures
        r == prefix@.is_prefix_of(s@),
{
    let r = occurs(s, prefix, 0);
    assert(prefix@.len() <= s@.len() ==> s@.subrange(0, prefix@.len() as int) =~= s@.take(
        prefix@.len() as int,
    ));
    r
}

/// Whether `s` ends with `suffix`.
pub fn ends_with(s: &[char], suffix: &[char]) -> (r: bool)
    ensures
        r == suffix@.is_suffix_of(s@),
{
    if suffix.len() > s.len() {
        return false;
    }
    occurs(s, suffix, s.len() - suffix.len())
}

// ---------------------------------------------------------------------------
// Taking apart and putting together
// ---------------------------------------------------------------------------

/// How much of `s` is left when the run of `c` at its end is dropped.
pub fn trimmed_end_len(s: &[char], c: char) -> (r: usize)
    ensures
        r <= s@.len(),
        trimmed_end(s@, c) == s@.take(r as int),
{
    let mut n: usize = s.len();
    assert(s@.take(s@.len() as int) =~= s@);
    while n > 0 && s[n - 1] == c
        invariant
            n <= s@.len(),
            trimmed_end(s@, c) == trimmed_end(s@.take(n as int), c),
        decreases n,
    {
        assert(s@.take(n as int).drop_last() =~= s@.take(n - 1));
        n -= 1;
    }
    n
}

/// How long the run of `c` at the start of `s` is.
pub fn run_at_start(s: &[char], c: char) -> (r: usize)
    ensures
        r <= s@.len(),
        trimmed_start(s@, c) == s@.skip(r as int),
{
    let mut n: usize = 0;
    assert(s@.skip(0) =~= s@);
    while n < s.len() && s[n] == c
        invariant
            n <= s@.len(),
            trimmed_start(s@, c) == trimmed_start(s@.skip(n as int), c),
        decreases s@.len() - n,
    {
        assert(s@.skip(n as int).drop_first() =~= s@.skip(n + 1));
        n += 1;
    }
    n
}

/// `s` without the runs of `c` at both ends.
pub open spec fn trimmed(s: Seq<char>, c: char) -> Seq<char> {
    trimmed_start(trimmed_end(s, c), c)
}

/// `s` without the runs of `c` at both ends.
pub fn trim_char(s: &str, c: char) -> (r: Vec<char>)
    ensures
        r@ == trimmed(s@, c),
{
    let chars = chars_of(s);
    let end = trimmed_end_len(&chars, c);
    let head = slice_of(&chars, 0, end);
    assert(head@ =~= trimmed_end(s@, c));
    let start = run_at_start(&head, c);
    let total: usize = head.len();
    let r = slice_of(&head, start, total);
    assert(r@ =~= head@.skip(start as int));
    r
}

/// The part of `s` from `from` up to `to`, as characters.
pub fn slice_of(s: &[char], from: usize, to: usize) -> (r: Vec<char>)
    requires
        from <= to <= s@.len(),
    ensures
        r@ == s@.subrange(from as int, to as int),
{
    let mut r: Vec<char> = Vec::new();
    let mut i: usize = from;
    while i < to
        invariant
            from <= i <= to <= s@.len(),
            r@ == s@.subrange(from as int, i as int),
        decreases to - i,
    {
        r.push(s[i]);
        assert(s@.subrange(from as int, i as int).push(s@[i as int]) =~= s@.subrange(
            from as int,
            i + 1,
        ));
        i += 1;
    }
    r
}

/// The pieces of `s` between the occurrences of `sep`.
pub fn split_on(s: &[char], sep: char) -> (r: Vec<Vec<char>>)
    ensures
        r@.map_values(|p: Vec<char>| p@) == split(s@, sep),
{
    let mut done: Vec<Vec<char>> = Vec::new();
    let mut current: Vec<char> = Vec::new();
    let ghost view = |p: Vec<char>| p@;
    assert(s@.take(0) =~= Seq::empty());
    assert(done@.map_values(view).push(current@) =~= split(s@.take(0), sep));
    for i in 0..s.len()
        invariant
            view == (|p: Vec<char>| p@),
            done@.map_values(view).push(current@) == split(s@.take(i as int), sep),
    {
        let ghost seen = done@.map_values(view).push(current@);
        assert(s@.take(i + 1).drop_last() =~= s@.take(i as int));
        assert(seen.drop_last() =~= done@.map_values(view));
        if s[i] == sep {
            done.push(current);
            assert(done@.map_values(view) =~= seen);
            current = Vec::new();
        } else {
            current.push(s[i]);
        }
        assert(done@.map_values(view).push(current@) =~= split(s@.take(i + 1), sep));
    }
    assert(s@.take(s@.len() as int) =~= s@);
    let ghost seen = done@.map_values(view).push(current@);
    done.push(current);
    assert(done@.map_values(view) =~= seen);
    done
}

/// The pieces of `s` between the occurrences of `sep`, as strings.
pub fn split_text(s: &str, sep: char) -> (r: Vec<String>)
    ensures
        views(r@) == split(s@, sep),
{
    let chars = chars_of(s);
    let pieces = split_on(&chars, sep);
    let ghost parts = split(s@, sep);
    let mut r: Vec<String> = Vec::new();
    for i in 0..pieces.len()
        invariant
            pieces@.map_values(|p: Vec<char>| p@) == parts,
            views(r@) == parts.take(i as int),
    {
        let piece = string_of(&pieces[i]);
        assert(piece@ == pieces@.map_values(|p: Vec<char>| p@)[i as int]);
        proof {
            lemma_views_push(r@, piece);
        }
        r.push(piece);
        assert(views(r@) =~= parts.take(i + 1));
    }
    assert(parts.len() == pieces@.map_values(|p: Vec<char>| p@).len());
    assert(parts.take(parts.len() as int) =~= parts);
    r
}

/// Appends `more` to `s`.
pub fn push_chars(s: &mut Vec<char>, more: &[char])
    ensures
        final(s)@ == old(s)@ + more@,
{
    let ghost start = s@;
    for i in 0..more.len()
        invariant
            s@ == start + more@.take(i as int),
    {
        s.push(more[i]);
        assert(s@ =~= start + more@.take(i + 1));
    }
    assert(more@.take(more@.len() as int) =~= more@);
}

/// Appends the text of `more` to `s`.
pub fn push_text(s: &mut Vec<char>, more: &str)
    ensures
        final(s)@ == old(s)@ + more@,
{
    let chars = chars_of(more);
    push_chars(s, &chars);
}

/// `a` followed by `b`.
pub fn concat(a: &str, b: &str) -> (r: String)
    ensures
        r@ == a@ + b@,
{
    let mut chars = chars_of(a);
    push_text(&mut chars, b);
    string_of(&chars)
}

/// The pieces joined with `sep` between neighbours.
pub fn join(parts: &[String], sep: char) -> (r: String)
    ensures
        r@ == joined(views(parts@), sep),
{
    let ghost all = views(parts@);
    let mut r: Vec<char> = Vec::new();
    for i in 0..parts.len()
        invariant
            all == views(parts@),
            r@ == joined(all.take(i as int), sep),
    {
        assert(all.take(i + 1).drop_last() =~= all.take(i as int));
        assert(all.take(i + 1).last() == parts@[i as int]@);
        if i > 0 {
            r.push(sep);
        }
        push_text(&mut r, parts[i].as_str());
        if i == 0 {
            assert(r@ =~= all.take(1)[0]);
        }
    }
    assert(all.take(all.len() as int) =~= all);
    string_of(&r)
}

/// The views of a list that grew by one string.
pub proof fn lemma_views_push(parts: Seq<String>, s: String)
    ensures
        views(parts.push(s)) == views(parts).push(s@),
{
    assert(views(parts.push(s)) =~= views(parts).push(s@));
}

/// What the first `i + 1` members of a list hold.
pub proof fn lemma_take_contains(list: Seq<Seq<char>>, i: int, k: Seq<char>)
    requires
        0 <= i < list.len(),
    ensures
        list.take(i + 1).contains(k) <==> (list.take(i).contains(k) || k == list[i]),
{
    let fewer = list.take(i);
    let more = list.take(i + 1);
    if more.contains(k) {
        let j = choose|j: int| 0 <= j < more.len() && more[j] == k;
        if j < i {
            assert(fewer[j] == k);
        }
    }
    if fewer.contains(k) {
        let j = choose|j: int| 0 <= j < fewer.len() && fewer[j] == k;
        assert(more[j] == k);
    }
    if k == list[i] {
        assert(more[i] == k);
    }
}

/// Appends a copy of `s` to `list`.
pub fn push_owned(list: &mut Vec<String>, s: &str)
    ensures
        views(final(list)@) == views(old(list)@).push(s@),
{
    let more = owned(s);
    proof {
        lemma_views_push(list@, more);
    }
    list.push(more);
}

/// Whether `list` holds `s`.
pub fn list_contains(list: &[String], s: &str) -> (r: bool)
    ensures
        r == views(list@).contains(s@),
{
    let ghost all = views(list@);
    assert(all.take(0) =~= Seq::empty());
    let mut found = false;
    for i in 0..list.len()
        invariant
            all == views(list@),
            found == all.take(i as int).contains(s@),
    {
        proof {
            lemma_take_contains(all, i as int, s@);
        }
        let here = same_text(list[i].as_str(), s);
        assert(all[i as int] == list@[i as int]@);
        found = found || here;
    }
    assert(all.take(all.len() as int) =~= all);
    found
}

/// A copy of a list of strings.
pub fn copied(list: &[String]) -> (r: Vec<String>)
    ensures
        views(r@) == views(list@),
{
    let mut r: Vec<String> = Vec::new();
    for i in 0..list.len()
        invariant
            views(r@) == views(list@).take(i as int),
    {
        proof {
            lemma_views_push(r@, list@[i as int]);
        }
        r.push(list[i].clone());
        assert(views(r@) =~= views(list@).take(i + 1));
    }
    assert(views(r@) =~= views(list@));
    r
}

/// Appends copies of `more` to `list`.
pub fn extend(list: &mut Vec<String>, more: &[String])
    ensures
        views(final(list)@) == views(old(list)@) + views(more@),
{
    let ghost start = views(list@);
    for i in 0..more.len()
        invariant
            views(list@) == start + views(more@).take(i as int),
    {
        proof {
            lemma_views_push(list@, more@[i as int]);
        }
        list.push(more[i].clone());
        assert(views(list@) =~= start + views(more@).take(i + 1));
    }
    assert(views(more@).take(more@.len() as int) =~= views(more@));
}

// ---------------------------------------------------------------------------
// Numbers
// ---------------------------------------------------------------------------

/// The decimal digits of a number.
pub open spec fn digits(n: nat) -> Seq<char>
    decreases n,
{
    if n < 10 {
        seq![((48 + n) as u8) as char]
    } else {
        digits(n / 10).push(((48 + n % 10) as u8) as char)
    }
}

/// A number in decimal notation.
pub open spec fn decimal(n: int) -> Seq<char> {
    if n < 0 {
        seq!['-'] + digits((-n) as nat)
    } else {
        digits(n as nat)
    }
}

/// The number that a hexadecimal digit stands for.
pub open spec fn hex_digit_value(c: char) -> Option<int> {
    if '0' <= c <= '9' {
        Some(c as int - 48)
    } else if 'A' <= c <= 'F' {
        Some(c as int - 55)
    } else if 'a' <= c <= 'f' {
        Some(c as int - 87)
    } else {
        None
    }
}

/// A number has at least one digit, and nothing but digits.
pub proof fn lemma_digits(n: nat)
    ensures
        digits(n).len() > 0,
        forall|i: int| 0 <= i < digits(n).len() ==> '0' <= #[trigger] digits(n)[i] <= '9',
    decreases n,
{
    if n >= 10 {
        lemma_digits(n / 10);
        assert forall|i: int| 0 <= i < digits(n).len() implies '0' <= #[trigger] digits(n)[i]
            <= '9' by {
            if i < digits(n).len() - 1 {
                assert(digits(n)[i] == digits(n / 10)[i]);
            }
        }
    }
}

/// Two numbers with the same digits are the same number.
pub proof fn lemma_digits_injective(a: nat, b: nat)
    requires
        digits(a) == digits(b),
    ensures
        a == b,
    decreases a,
{
    lemma_digits(a / 10);
    lemma_digits(b / 10);
    assert(digits(a).last() == ((48 + a % 10) as u8) as char);
    assert(digits(b).last() == ((48 + b % 10) as u8) as char);
    assert(a % 10 == b % 10);
    if a >= 10 && b >= 10 {
        assert(digits(a).drop_last() =~= digits(a / 10));
        assert(digits(b).drop_last() =~= digits(b / 10));
        lemma_digits_injective(a / 10, b / 10);
    }
}

/// Appends the decimal digits of `n`.
pub fn push_digits(s: &mut Vec<char>, n: u64)
    ensures
        final(s)@ == old(s)@ + digits(n as nat),
    decreases n,
{
    let ghost was = s@;
    if n < 10 {
        let last: u8 = 48 + (n as u8);
        s.push(last as char);
        assert(s@ =~= was + digits(n as nat));
    } else {
        push_digits(s, n / 10);
        let last: u8 = 48 + ((n % 10) as u8);
        s.push(last as char);
        assert(s@ =~= was + digits(n as nat));
    }
}

/// A number in decimal notation.
pub fn to_decimal(n: i32) -> (r: String)
    ensures
        r@ == decimal(n as int),
{
    let mut r: Vec<char> = Vec::new();
    if n < 0 {
        r.push('-');
        let magnitude: i64 = -(n as i64);
        push_digits(&mut r, magnitude as u64);
        assert(r@ =~= decimal(n as int));
    } else {
        push_digits(&mut r, n as u64);
        assert(r@ =~= decimal(n as int));
    }
    string_of(&r)
}

// ---------------------------------------------------------------------------
// Order
// ---------------------------------------------------------------------------

/// No text comes before itself.
pub proof fn lemma_before_irreflexive(a: Seq<char>)
    ensures
        !before(a, a),
    decreases a.len(),
{
    if a.len() > 0 {
        lemma_before_irreflexive(a.drop_first());
    }
}

/// Of two texts that each come before the other there are none.
pub proof fn lemma_before_asymmetric(a: Seq<char>, b: Seq<char>)
    requires
        before(a, b),
    ensures
        !before(b, a),
        a != b,
    decreases a.len(),
{
    lemma_before_irreflexive(a);
    if a.len() > 0 && b.len() > 0 && a[0] == b[0] {
        lemma_before_asymmetric(a.drop_first(), b.drop_first());
    }
}

/// The order is transitive.
pub proof fn lemma_before_transitive(a: Seq<char>, b: Seq<char>, c: Seq<char>)
    requires
        before(a, b),
        before(b, c),
    ensures
        before(a, c),
    decreases a.len(),
{
    if a.len() > 0 && a[0] == b[0] && b[0] == c[0] {
        lemma_before_transitive(a.drop_first(), b.drop_first(), c.drop_first());
    }
}

/// Two different texts are ordered one way or the other.
pub proof fn lemma_before_total(a: Seq<char>, b: Seq<char>)
    ensures
        a == b || before(a, b) || before(b, a),
    decreases a.len(),
{
    if a.len() == 0 && b.len() == 0 {
        assert(a =~= b);
    } else if a.len() > 0 && b.len() > 0 && a[0] == b[0] {
        lemma_before_total(a.drop_first(), b.drop_first());
        if a.drop_first() == b.drop_first() {
            assert(a =~= seq![a[0]] + a.drop_first());
            assert(b =~= seq![b[0]] + b.drop_first());
        }
    }
}

/// Whether `a` comes before `b`.
pub fn comes_before(a: &str, b: &str) -> (r: bool)
    ensures
        r == before(a@, b@),
{
    let x = chars_of(a);
    let y = chars_of(b);
    let mut i: usize = 0;
    assert(x@.skip(0) =~= a@);
    assert(y@.skip(0) =~= b@);
    while i < x.len() && i < y.len() && x[i] == y[i]
        invariant
            x@ == a@,
            y@ == b@,
            i <= x@.len(),
            i <= y@.len(),
            before(a@, b@) == before(x@.skip(i as int), y@.skip(i as int)),
        decreases x@.len() - i,
    {
        assert(x@.skip(i as int).drop_first() =~= x@.skip(i + 1));
        assert(y@.skip(i as int).drop_first() =~= y@.skip(i + 1));
        i += 1;
    }
    if i >= y.len() {
        false
    } else if i >= x.len() {
        true
    } else {
        x[i] < y[i]
    }
}

/// No text of the list comes before an earlier one.
pub open spec fn ascending(list: Seq<Seq<char>>) -> bool {
    forall|i: int, j: int| 0 <= i < j < list.len() ==> !before(#[trigger] list[j], #[trigger] list[i])
}

/// `r` holds those of `names` that satisfy `chosen`, each as often, ascending.
pub open spec fn sorted_choice(
    r: Seq<Seq<char>>,
    names: Seq<Seq<char>>,
    chosen: spec_fn(Seq<char>) -> bool,
) -> bool {
    ascending(r) && r.to_multiset() == names.filter(chosen).to_multiset()
}

/// The texts of the list in ascending order.
pub open spec fn sorted(list: Seq<Seq<char>>) -> Seq<Seq<char>> {
    list.sort_by(|a: Seq<char>, b: Seq<char>| !before(b, a))
}

/// Ascending order is a total order.
proof fn lemma_total_order()
    ensures
        vstd::relations::total_ordering(|a: Seq<char>, b: Seq<char>| !before(b, a)),
{
    let leq = |a: Seq<char>, b: Seq<char>| !before(b, a);
    assert(vstd::relations::total_ordering(leq)) by {
        assert forall|x: Seq<char>| #[trigger] leq(x, x) by {
            lemma_before_irreflexive(x);
        }
        assert forall|x: Seq<char>, y: Seq<char>| #[trigger] leq(x, y) && #[trigger] leq(
            y,
            x,
        ) implies x == y by {
            lemma_before_total(x, y);
        }
        assert forall|x: Seq<char>, y: Seq<char>| #[trigger] leq(x, y) || #[trigger] leq(y, x) by {
            if before(x, y) {
                lemma_before_asymmetric(x, y);
            }
        }
        assert forall|x: Seq<char>, y: Seq<char>, z: Seq<char>| #[trigger] leq(x, y)
            && #[trigger] leq(y, z) implies leq(x, z) by {
            if before(z, x) {
                lemma_before_total(x, y);
                if x != y {
                    lemma_before_transitive(z, x, y);
                }
            }
        }
    }
}

/// The ascending list with the same texts is the sorted one.
pub proof fn lemma_sorted_choice(
    r: Seq<Seq<char>>,
    names: Seq<Seq<char>>,
    chosen: spec_fn(Seq<char>) -> bool,
)
    requires
        sorted_choice(r, names, chosen),
    ensures
        r == sorted(names.filter(chosen)),
{
    let leq = |a: Seq<char>, b: Seq<char>| !before(b, a);
    lemma_total_order();
    let list = names.filter(chosen);
    list.lemma_sort_by_ensures(leq);
    assert(vstd::relations::sorted_by(r, leq)) by {
        assert forall|i: int, j: int| 0 <= i < j < r.len() implies #[trigger] leq(r[i], r[j]) by {
            assert(!before(r[j], r[i]));
        }
    }
    vstd::seq_lib::lemma_sorted_unique(r, list.sort_by(leq), leq);
}

/// Puts `name` into an ascending list, which stays ascending.
pub fn insert_sorted(list: &mut Vec<String>, name: String)
    requires
        ascending(views(old(list)@)),
    ensures
        ascending(views(final(list)@)),
        views(final(list)@).to_multiset() == views(old(list)@).to_multiset().insert(name@),
{
    let ghost was = views(list@);
    let mut i: usize = 0;
    while i < list.len() && !comes_before(name.as_str(), list[i].as_str())
        invariant
            i <= list@.len(),
            was == views(list@),
            forall|j: int| 0 <= j < i ==> !before(name@, #[trigger] was[j]),
        decreases list@.len() - i,
    {
        assert(was[i as int] == list@[i as int]@);
        i += 1;
    }
    let ghost k = name@;
    proof {
        if i < list@.len() {
            assert(was[i as int] == list@[i as int]@);
            assert(before(k, was[i as int]));
        }
    }
    list.insert(i, name);
    proof {
        let now = views(list@);
        assert(now =~= was.insert(i as int, k));
        assert(now.remove(i as int) =~= was);
        broadcast use vstd::seq_lib::group_to_multiset_ensures;

        assert(now[i as int] == k);
        assert(now.contains(k));
        vstd::seq_lib::to_multiset_remove(now, i as int);
        assert(now.to_multiset() =~= was.to_multiset().insert(k));
        assert forall|a: int, b: int| 0 <= a < b < now.len() implies !before(
            #[trigger] now[b],
            #[trigger] now[a],
        ) by {
            let x = if a < i { was[a] } else if a == i { k } else { was[a - 1] };
            let y = if b < i { was[b] } else if b == i { k } else { was[b - 1] };
            assert(now[a] == x && now[b] == y);
            if a == i {
                if before(y, k) {
                    lemma_before_transitive(y, k, was[i as int]);
                    if b - 1 > i {
                        assert(!before(was[b - 1], was[i as int]));
                    } else {
                        lemma_before_irreflexive(was[i as int]);
                    }
                }
            }
        }
    }
}

// ---------------------------------------------------------------------------
// What holds of the vocabulary
// ---------------------------------------------------------------------------

/// Two texts are the same up to ASCII case exactly where they are equally long and, place
/// by place, hold the same character or the two forms of one ASCII letter.
pub proof fn law_ascii_case_is_of_letters(a: Seq<char>, b: Seq<char>)
    ensures
        same_ignoring_ascii_case(a, b) <==> (a.len() == b.len() && forall|i: int|
            0 <= i < a.len() ==> {
                ||| #[trigger] a[i] == b[i]
                ||| 'A' <= a[i] <= 'Z' && b[i] as int == a[i] as int + 32
                ||| 'A' <= b[i] <= 'Z' && a[i] as int == b[i] as int + 32
            }),
{
    if same_ignoring_ascii_case(a, b) {
        assert(a.len() == ascii_lower(a).len() == ascii_lower(b).len() == b.len());
        assert forall|i: int| 0 <= i < a.len() implies {
            ||| #[trigger] a[i] == b[i]
            ||| 'A' <= a[i] <= 'Z' && b[i] as int == a[i] as int + 32
            ||| 'A' <= b[i] <= 'Z' && a[i] as int == b[i] as int + 32
        } by {
            assert(ascii_lower(a)[i] == ascii_lower(b)[i]);
        }
    }
    if a.len() == b.len() && forall|i: int|
        0 <= i < a.len() ==> {
            ||| #[trigger] a[i] == b[i]
            ||| 'A' <= a[i] <= 'Z' && b[i] as int == a[i] as int + 32
            ||| 'A' <= b[i] <= 'Z' && a[i] as int == b[i] as int + 32
        } {
        assert forall|i: int| 0 <= i < a.len() implies ascii_lower(a)[i] == ascii_lower(b)[i] by {
            assert(a[i] == b[i] || a[i] != b[i]);
        }
        assert(ascii_lower(a) =~= ascii_lower(b));
    }
}

/// Splitting and joining undo each other: the pieces of a text hold no separator, and
/// joined they are the text.
pub proof fn law_pieces_make_up_the_text(s: Seq<char>, sep: char)
    ensures
        split(s, sep).len() > 0,
        forall|i: int| 0 <= i < split(s, sep).len() ==> is_free_of(#[trigger] split(s, sep)[i], sep),
        joined(split(s, sep), sep) == s,
    decreases s.len(),
{
    lemma_split_pieces(s, sep);
    let parts = split(s, sep);
    if s.len() == 0 {
        assert(joined(parts, sep) =~= s);
    } else {
        let fewer = s.drop_last();
        let before = split(fewer, sep);
        law_pieces_make_up_the_text(fewer, sep);
        if s.last() == sep {
            assert(parts.drop_last() =~= before);
            assert(joined(parts, sep) =~= s);
        } else if before.len() == 1 {
            assert(parts =~= seq![before[0].push(s.last())]);
            assert(joined(parts, sep) =~= s);
        } else {
            assert(parts.drop_last() =~= before.drop_last());
            assert(joined(before, sep) == joined(before.drop_last(), sep).push(sep)
                + before.last());
            assert(parts.len() > 1 && parts.last() == before.last().push(s.last()));
            assert(fewer.push(s.last()) =~= s);
            assert(joined(parts, sep) =~= joined(before, sep).push(s.last()));
        }
    }
}

/// Texts are ordered by the first place at which they differ; a text comes before every
/// longer one that begins with it.
pub proof fn law_first_difference_decides(a: Seq<char>, b: Seq<char>)
    ensures
        before(a, b) <==> exists|k: int|
            #![trigger a.take(k)]
            0 <= k <= a.len() && k < b.len() && a.take(k) == b.take(k) && (k == a.len() || a[k]
                < b[k]),
    decreases a.len(),
{
    if b.len() > 0 && a.len() > 0 && a[0] == b[0] {
        let x = a.drop_first();
        let y = b.drop_first();
        law_first_difference_decides(x, y);
        if before(a, b) {
            let k = choose|k: int|
                #![trigger x.take(k)]
                0 <= k <= x.len() && k < y.len() && x.take(k) == y.take(k) && (k == x.len() || x[k]
                    < y[k]);
            assert(a.take(k + 1) =~= seq![a[0]] + x.take(k));
            assert(b.take(k + 1) =~= seq![b[0]] + y.take(k));
            assert(a.take(k + 1) == b.take(k + 1));
            assert(k + 1 < a.len() ==> a[k + 1] == x[k] && b[k + 1] == y[k]);
        }
        if exists|k: int|
            #![trigger a.take(k)]
            0 <= k <= a.len() && k < b.len() && a.take(k) == b.take(k) && (k == a.len() || a[k]
                < b[k]) {
            let k = choose|k: int|
                #![trigger a.take(k)]
                0 <= k <= a.len() && k < b.len() && a.take(k) == b.take(k) && (k == a.len() || a[k]
                    < b[k]);
            assert(k > 0);
            assert(x.take(k - 1) =~= a.take(k).drop_first());
            assert(y.take(k - 1) =~= b.take(k).drop_first());
            assert(x.take(k - 1) == y.take(k - 1));
            assert(k < a.len() ==> a[k] == x[k - 1] && b[k] == y[k - 1]);
        }
    } else if b.len() > 0 {
        if before(a, b) {
            assert(a.take(0) =~= b.take(0));
        }
        if exists|k: int|
            #![trigger a.take(k)]
            0 <= k <= a.len() && k < b.len() && a.take(k) == b.take(k) && (k == a.len() || a[k]
                < b[k]) {
            let k = choose|k: int|
                #![trigger a.take(k)]
                0 <= k <= a.len() && k < b.len() && a.take(k) == b.take(k) && (k == a.len() || a[k]
                    < b[k]);
            if k > 0 {
                assert(a.take(k)[0] == b.take(k)[0]);
            }
        }
    }
}

/// A sorted list ascends and holds the texts of the list, each as often.
pub proof fn law_sorting_keeps_the_texts(list: Seq<Seq<char>>)
    ensures
        ascending(sorted(list)),
        sorted(list).to_multiset() == list.to_multiset(),
        forall|x: Seq<char>| #[trigger] sorted(list).contains(x) <==> list.contains(x),
{
    let leq = |a: Seq<char>, b: Seq<char>| !before(b, a);
    lemma_total_order();
    list.lemma_sort_by_ensures(leq);
    let r = list.sort_by(leq);
    assert forall|i: int, j: int| 0 <= i < j < r.len() implies !before(
        #[trigger] r[j],
        #[trigger] r[i],
    ) by {
        assert(leq(r[i], r[j]));
    }
    assert forall|x: Seq<char>| #[trigger] sorted(list).contains(x) <==> list.contains(x) by {
        vstd::seq_lib::to_multiset_contains(list, x);
        vstd::seq_lib::to_multiset_contains(r, x);
    }
}

/// Filtering keeps exactly what satisfies the filter.
pub proof fn lemma_filter_members(
    list: Seq<Seq<char>>,
    chosen: spec_fn(Seq<char>) -> bool,
    x: Seq<char>,
)
    ensures
        list.filter(chosen).contains(x) <==> list.contains(x) && chosen(x),
    decreases list.len(),
{
    reveal(Seq::filter);
    if list.len() > 0 {
        let fewer = list.drop_last();
        let last = list.last();
        lemma_filter_members(fewer, chosen, x);
        let kept = fewer.filter(chosen);
        let all = list.filter(chosen);
        assert(all == if chosen(last) { kept.push(last) } else { kept });
        if list.contains(x) {
            let j = choose|j: int| 0 <= j < list.len() && list[j] == x;
            if j < fewer.len() {
                assert(fewer[j] == x);
            }
        }
        if fewer.contains(x) {
            let j = choose|j: int| 0 <= j < fewer.len() && fewer[j] == x;
            assert(list[j] == x);
        }
        if kept.contains(x) {
            let j = choose|j: int| 0 <= j < kept.len() && kept[j] == x;
            assert(all[j] == x);
        }
        if all.contains(x) {
            let j = choose|j: int| 0 <= j < all.len() && all[j] == x;
            if j < kept.len() {
                assert(kept[j] == x);
            } else {
                assert(list[list.len() - 1] == x);
            }
        }
        if chosen(last) && x == last {
            assert(all[kept.len() as int] == x);
            assert(list[list.len() - 1] == x);
        }
    }
}

/// A text is the trimmed text with runs of the character round it, and the trimmed text
/// neither begins nor ends with the character.
pub proof fn law_trimming_takes_the_runs(s: Seq<char>, c: char)
    ensures
        exists|before_it: Seq<char>, after_it: Seq<char>|
            #![trigger before_it + trimmed(s, c) + after_it]
            s == before_it + trimmed(s, c) + after_it && (forall|i: int|
                0 <= i < before_it.len() ==> before_it[i] == c) && (forall|i: int|
                0 <= i < after_it.len() ==> after_it[i] == c),
        trimmed(s, c).len() > 0 ==> trimmed(s, c)[0] != c && trimmed(s, c).last() != c,
{
    let head = trimmed_end(s, c);
    let tail = lemma_trimmed_end(s, c);
    let lead = lemma_trimmed_start(head, c);
    assert(s =~= lead + trimmed(s, c) + tail);
}

/// What trimming takes from the end.
pub proof fn lemma_trimmed_end(s: Seq<char>, c: char) -> (run: Seq<char>)
    ensures
        s == trimmed_end(s, c) + run,
        forall|i: int| 0 <= i < run.len() ==> run[i] == c,
        trimmed_end(s, c).len() > 0 ==> trimmed_end(s, c).last() != c,
    decreases s.len(),
{
    if s.len() > 0 && s.last() == c {
        let run = lemma_trimmed_end(s.drop_last(), c);
        assert(s =~= s.drop_last().push(c));
        assert(trimmed_end(s, c) == trimmed_end(s.drop_last(), c));
        assert(s =~= trimmed_end(s, c) + run.push(c));
        run.push(c)
    } else {
        assert(s =~= trimmed_end(s, c) + Seq::empty());
        Seq::empty()
    }
}

/// What trimming takes from the start.
proof fn lemma_trimmed_start(s: Seq<char>, c: char) -> (run: Seq<char>)
    ensures
        s == run + trimmed_start(s, c),
        forall|i: int| 0 <= i < run.len() ==> run[i] == c,
        trimmed_start(s, c).len() > 0 ==> trimmed_start(s, c)[0] != c && trimmed_start(s, c).last()
            == s.last(),
    decreases s.len(),
{
    if s.len() > 0 && s[0] == c {
        let run = lemma_trimmed_start(s.drop_first(), c);
        assert(s =~= seq![c] + s.drop_first());
        assert(trimmed_start(s, c) == trimmed_start(s.drop_first(), c));
        assert(s =~= (seq![c] + run) + trimmed_start(s, c));
        seq![c] + run
    } else {
        assert(s =~= Seq::empty() + trimmed_start(s, c));
        Seq::empty()
    }
}

/// The number that decimal digits spell.
pub open spec fn numeral(s: Seq<char>) -> int
    decreases s.len(),
{
    if s.len() == 0 {
        0
    } else {
        10 * numeral(s.drop_last()) + (s.last() as int - 48)
    }
}

/// A number in decimal notation spells that number, behind a sign where it is negative,
/// and without leading zeros.
pub proof fn law_decimal_spells_the_number(n: int)
    ensures
        n >= 0 ==> numeral(decimal(n)) == n,
        n < 0 ==> decimal(n)[0] == '-' && numeral(decimal(n).drop_first()) == -n,
        n > 0 ==> decimal(n)[0] != '0',
{
    if n >= 0 {
        lemma_digits_spell(n as nat);
    } else {
        lemma_digits_spell((-n) as nat);
        assert(decimal(n).drop_first() =~= digits((-n) as nat));
    }
}

proof fn lemma_digits_spell(n: nat)
    ensures
        numeral(digits(n)) == n,
        n > 0 ==> digits(n)[0] != '0',
    decreases n,
{
    lemma_digits(n);
    if n < 10 {
        assert(digits(n).drop_last() =~= Seq::empty());
        assert(numeral(Seq::<char>::empty()) == 0);
        assert(digits(n).last() as int == 48 + n);
    } else {
        lemma_digits(n / 10);
        lemma_digits_spell(n / 10);
        assert(digits(n).drop_last() =~= digits(n / 10));
        assert(digits(n).last() as int == 48 + n % 10);
    }
}

/// Replacing changes each occurrence of a character and nothing else.
pub proof fn law_replacing_changes_one_character(s: Seq<char>, from: char, to: char, i: int)
    requires
        0 <= i < s.len(),
    ensures
        replaced(s, from, to).len() == s.len(),
        s[i] == from ==> replaced(s, from, to)[i] == to,
        s[i] != from ==> replaced(s, from, to)[i] == s[i],
{
}

/// A list of strings says what its strings say, in order.
pub proof fn law_lists_say_what_their_strings_say(parts: Seq<String>, i: int)
    requires
        0 <= i < parts.len(),
    ensures
        views(parts).len() == parts.len(),
        views(parts)[i] == parts[i]@,
{
}

/// The first and the last place of a character are places of it, and there is none before
/// or after.
pub proof fn law_places_are_first_and_last(s: Seq<char>, c: char, i: int)
    requires
        0 <= i < s.len(),
        s[i] == c,
    ensures
        first_index(s, c) is Some,
        last_index(s, c) is Some,
        s[first_index(s, c)->Some_0] == c,
        s[last_index(s, c)->Some_0] == c,
        first_index(s, c)->Some_0 <= i <= last_index(s, c)->Some_0,
{
    lemma_first_index(s, c);
    lemma_last_index(s, c);
}

/// Sixteen digits are hexadecimal, in either case.
pub proof fn law_hex_digits_have_either_case(c: char)
    ensures
        hex_digit_value(c) == hex_digit_value(ascii_lower_char(c)),
        '0' <= c <= '9' ==> hex_digit_value(c) == Some(c as int - '0' as int),
        'a' <= c <= 'f' ==> hex_digit_value(c) == Some(10 + c as int - 'a' as int),
        'f' < c || c < '0' ==> hex_digit_value(c) is None,
{
}

/// Trimming leaves what neither begins nor ends with the character.
pub proof fn law_trimming_leaves_the_rest(s: Seq<char>, c: char)
    requires
        s.len() > 0,
        s[0] != c,
        s.last() != c,
    ensures
        trimmed(s, c) == s,
        trimmed(seq![c] + s + seq![c], c) == s,
        trimmed(seq![c], c) == Seq::<char>::empty(),
        trimmed(Seq::empty(), c) == Seq::<char>::empty(),
{
    let none = Seq::<char>::empty();
    let lead = seq![c] + s;
    let wide = lead + seq![c];
    assert(trimmed_end(s, c) == s);
    assert(trimmed_start(s, c) == s);
    assert(lead.last() == s.last());
    assert(trimmed_end(lead, c) == lead);
    assert(wide.last() == c);
    assert(wide.drop_last() =~= lead);
    assert(trimmed_end(wide, c) == lead);
    assert(lead[0] == c);
    assert(lead.drop_first() =~= s);
    assert(trimmed_start(lead, c) == s);
    assert(trimmed_end(none, c) == none);
    assert(trimmed_start(none, c) == none);
    assert(seq![c].drop_last() =~= none);
    assert(trimmed_end(seq![c], c) == trimmed_end(seq![c].drop_last(), c));
}

} // verus!
