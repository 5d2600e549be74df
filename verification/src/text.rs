//! Character-sequence helpers used by the whitelist checks.
use vstd::prelude::*;

verus! {

broadcast use vstd::string::axiom_spec_iter;

/// ASCII lower-casing of one character; every other character is kept.
pub open spec fn ascii_lower(c: char) -> char {
    if 'A' <= c && c <= 'Z' {
        ((c as u32) + 32) as char
    } else {
        c
    }
}

/// ASCII lower-casing of a whole text.
pub open spec fn ascii_lowercase(s: Seq<char>) -> Seq<char> {
    s.map_values(|c: char| ascii_lower(c))
}

/// `needle` occurs somewhere in `hay` as a contiguous run.
pub open spec fn occurs_in(needle: Seq<char>, hay: Seq<char>) -> bool {
    exists|i: int|
        0 <= i && i + needle.len() <= hay.len() && #[trigger] hay.subrange(i, i + needle.len())
            == needle
}

/// A percent-encoded `/` (`%2f`) or `\\` (`%5c`) occurs in `path`, in either case.
pub open spec fn has_encoded_separator(path: Seq<char>) -> bool {
    ||| occurs_in(seq!['%', '2', 'f'], ascii_lowercase(path))
    ||| occurs_in(seq!['%', '5', 'c'], ascii_lowercase(path))
}

/// Whether the three characters of `path` from `i` on read `%2f` or `%5c`, ignoring ASCII case.
spec fn separator_at(path: Seq<char>, i: int) -> bool {
    &&& path[i] == '%'
    &&& (ascii_lower(path[i + 1]) == '2' && ascii_lower(path[i + 2]) == 'f'
        || ascii_lower(path[i + 1]) == '5' && ascii_lower(path[i + 2]) == 'c')
}

proof fn lemma_occurrence_is_separator_at(path: Seq<char>, j: int, needle: Seq<char>)
    requires
        0 <= j,
        j + 3 <= path.len(),
        needle.len() == 3,
        ascii_lowercase(path).subrange(j, j + 3) == needle,
        needle == seq!['%', '2', 'f'] || needle == seq!['%', '5', 'c'],
    ensures
        separator_at(path, j),
{
    let low = ascii_lowercase(path);
    assert(low.subrange(j, j + 3)[0] == low[j]);
    assert(low.subrange(j, j + 3)[1] == low[j + 1]);
    assert(low.subrange(j, j + 3)[2] == low[j + 2]);
    assert(ascii_lower(path[j]) == '%');
}

/// ASCII lower-casing leaves digits and `%` alone and maps a character to a
/// lower-case letter only from that letter or its upper-case form.
pub proof fn lemma_ascii_lower_letters(c: char)
    ensures
        (ascii_lower(c) == '%') == (c == '%'),
        (ascii_lower(c) == '2') == (c == '2'),
        (ascii_lower(c) == '5') == (c == '5'),
        (ascii_lower(c) == 'f') == (c == 'f' || c == 'F'),
        (ascii_lower(c) == 'c') == (c == 'c' || c == 'C'),
{
    if 'A' <= c && c <= 'Z' {
        let code: int = (c as u32) + 32;
        assert(97 <= code <= 122);
        assert((code as char) as u32 == code);
    }
}

/// An encoded separator is a percent escape and nothing else: a `%` followed
/// by `2f` or `5c`, each letter in either case. In particular a path without
/// `%` never holds one.
pub proof fn lemma_encoded_separator_is_percent_escape(path: Seq<char>)
    ensures
        has_encoded_separator(path) <==> exists|i: int|
            0 <= i && i + 2 < path.len() && #[trigger] path[i] == '%' && (path[i + 1] == '2' && (
            path[i + 2] == 'f' || path[i + 2] == 'F') || path[i + 1] == '5' && (path[i + 2] == 'c'
                || path[i + 2] == 'C')),
        has_encoded_separator(path) ==> path.contains('%'),
{
    let low = ascii_lowercase(path);
    if has_encoded_separator(path) {
        let needle = if occurs_in(seq!['%', '2', 'f'], low) {
            seq!['%', '2', 'f']
        } else {
            seq!['%', '5', 'c']
        };
        let j = choose|j: int|
            0 <= j && j + needle.len() <= low.len() && #[trigger] low.subrange(j, j + needle.len())
                == needle;
        lemma_occurrence_is_separator_at(path, j, needle);
        lemma_ascii_lower_letters(path[j + 1]);
        lemma_ascii_lower_letters(path[j + 2]);
        assert(path[j] == '%');
    }
    if exists|i: int|
        0 <= i && i + 2 < path.len() && #[trigger] path[i] == '%' && (path[i + 1] == '2' && (path[i
            + 2] == 'f' || path[i + 2] == 'F') || path[i + 1] == '5' && (path[i + 2] == 'c' || path[i
            + 2] == 'C')) {
        let i = choose|i: int|
            0 <= i && i + 2 < path.len() && #[trigger] path[i] == '%' && (path[i + 1] == '2' && (
            path[i + 2] == 'f' || path[i + 2] == 'F') || path[i + 1] == '5' && (path[i + 2] == 'c'
                || path[i + 2] == 'C'));
        lemma_ascii_lower_letters(path[i]);
        lemma_ascii_lower_letters(path[i + 1]);
        lemma_ascii_lower_letters(path[i + 2]);
        if path[i + 1] == '2' {
            assert(low.subrange(i, i + 3) =~= seq!['%', '2', 'f']);
        } else {
            assert(low.subrange(i, i + 3) =~= seq!['%', '5', 'c']);
        }
    }
}

/// Whether `path` holds a percent-encoded path separator (`%2f` or `%5c`, in any case).
pub fn has_encoded_separator_in(path: &Vec<char>) -> (r: bool)
    ensures
        r == has_encoded_separator(path@),
{
    let ghost low = ascii_lowercase(path@);
    let mut i: usize = 0;
    while i < path.len() && path.len() - i >= 3
        invariant
            i <= path.len(),
            low == ascii_lowercase(path@),
            forall|j: int| 0 <= j < i ==> !separator_at(path@, j),
        decreases path.len() - i,
    {
        let second = lower_char(path[i + 1]);
        let third = lower_char(path[i + 2]);
        if path[i] == '%' && (second == '2' && third == 'f' || second == '5' && third == 'c') {
            let ghost ii = i as int;
            if second == '2' {
                assert(low.subrange(ii, ii + 3) =~= seq!['%', '2', 'f']);
            } else {
                assert(low.subrange(ii, ii + 3) =~= seq!['%', '5', 'c']);
            }
            return true;
        }
        i = i + 1;
    }
    assert forall|j: int|
        0 <= j && j + 3 <= low.len() implies #[trigger] low.subrange(j, j + 3) != seq!['%', '2', 'f']
        && low.subrange(j, j + 3) != seq!['%', '5', 'c'] by {
        if low.subrange(j, j + 3) == seq!['%', '2', 'f'] {
            lemma_occurrence_is_separator_at(path@, j, seq!['%', '2', 'f']);
        }
        if low.subrange(j, j + 3) == seq!['%', '5', 'c'] {
            lemma_occurrence_is_separator_at(path@, j, seq!['%', '5', 'c']);
        }
    }
    false
}

/// Whether `a` and `b` are the same text.
pub fn same_text(a: &str, b: &str) -> (same: bool)
    ensures
        same == (a@ == b@),
{
    a.to_owned() == b.to_owned()
}

/// The characters of `text`, in order.
pub fn chars_of(text: &str) -> (chars: Vec<char>)
    ensures
        chars@ == text@,
{
    let mut chars: Vec<char> = Vec::new();
    for c in it: text.chars()
        invariant
            chars@ == it.seq().take(it.index() as int),
    {
        chars.push(c);
    }
    chars
}

/// `c` lower-cased in the ASCII range.
pub fn lower_char(c: char) -> (r: char)
    ensures
        r == ascii_lower(c),
{
    if 'A' <= c && c <= 'Z' {
        let code: u32 = (c as u32) + 32;
        let lowered: u8 = code as u8;
        assert(lowered as u32 == code);
        lowered as char
    } else {
        c
    }
}

/// Whether `s` begins with `prefix`.
pub fn starts_with(s: &Vec<char>, prefix: &Vec<char>) -> (r: bool)
    ensures
        r == prefix@.is_prefix_of(s@),
{
    if prefix.len() > s.len() {
        return false;
    }
    let mut i: usize = 0;
    while i < prefix.len()
        invariant
            prefix.len() <= s.len(),
            i <= prefix.len(),
            forall|j: int| 0 <= j < i ==> s@[j] == prefix@[j],
        decreases prefix.len() - i,
    {
        if s[i] != prefix[i] {
            return false;
        }
        i = i + 1;
    }
    assert(prefix@ =~= s@.subrange(0, prefix@.len() as int));
    true
}

} // verus!
