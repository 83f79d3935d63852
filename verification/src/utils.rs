//! Case conversions of rule and label names.
use vstd::prelude::*;
use crate::text::{push_char, push_str};

verus! {

/// Whether `char::is_uppercase` holds of `c`.
pub uninterp spec fn char_is_uppercase(c: char) -> bool;

/// Whether `char::is_lowercase` holds of `c`.
pub uninterp spec fn char_is_lowercase(c: char) -> bool;

/// What `char::to_uppercase` yields for `c`.
pub uninterp spec fn char_uppercase(c: char) -> Seq<char>;

/// What `char::to_lowercase` yields for `c`.
pub uninterp spec fn char_lowercase(c: char) -> Seq<char>;

/// What `str::to_uppercase` returns for `s`.
pub uninterp spec fn str_uppercase(s: Seq<char>) -> Seq<char>;

/// Whether `c` is an ASCII character.
pub open spec fn ascii_char(c: char) -> bool {
    c <= '\x7f'
}

/// `char::is_uppercase`: whether `c` has the Unicode `Uppercase` property.
/// The contract names the result; of an ASCII character it states what the
/// documentation gives: exactly `A`-`Z` are uppercase.
#[verifier::external_body]
pub(crate) fn is_uppercase(c: char) -> (b: bool)
    ensures
        b == char_is_uppercase(c),
        ascii_char(c) ==> (b <==> 'A' <= c <= 'Z'),
{
    c.is_uppercase()
}

/// `char::is_lowercase`: whether `c` has the Unicode `Lowercase` property.
/// The contract names the result; of an ASCII character it states what the
/// documentation gives: exactly `a`-`z` are lowercase.
#[verifier::external_body]
pub(crate) fn is_lowercase(c: char) -> (b: bool)
    ensures
        b == char_is_lowercase(c),
        ascii_char(c) ==> (b <==> 'a' <= c <= 'z'),
{
    c.is_lowercase()
}

/// `char::to_uppercase`, collected: the uppercase mapping of `c`, which the
/// documentation says is `c` itself when it has none, so it is never empty.
/// The contract names the characters, states that there is one at least,
/// and of an ASCII character the documented mapping: `a`-`z` to
/// `A`-`Z`, the others to themselves.
#[verifier::external_body]
pub(crate) fn to_uppercase(c: char) -> (s: String)
    ensures
        s@ == char_uppercase(c),
        s@.len() >= 1,
        ascii_char(c) ==> s@ == seq![ascii_upper(c)],
{
    c.to_uppercase().collect()
}

/// `char::to_lowercase`, collected: the lowercase mapping of `c`, which the
/// documentation says is `c` itself when it has none, so it is never empty.
/// The contract names the characters, states that there is one at least,
/// and of an ASCII character the documented mapping: `A`-`Z` to
/// `a`-`z`, the others to themselves.
#[verifier::external_body]
pub(crate) fn to_lowercase(c: char) -> (s: String)
    ensures
        s@ == char_lowercase(c),
        s@.len() >= 1,
        ascii_char(c) ==> s@ == seq![ascii_lower(c)],
{
    c.to_lowercase().collect()
}

/// The ASCII uppercase of `c`: `a`-`z` to `A`-`Z`, any other character
/// unchanged.
pub open spec fn ascii_upper(c: char) -> char {
    if 'a' <= c <= 'z' { ((c as u32) - 32) as char } else { c }
}

/// The ASCII lowercase of `c`: `A`-`Z` to `a`-`z`, any other character
/// unchanged.
pub open spec fn ascii_lower(c: char) -> char {
    if 'A' <= c <= 'Z' { ((c as u32) + 32) as char } else { c }
}

/// `str::to_uppercase`: the uppercase equivalent of `s`. The contract names
/// the result; of an ASCII string it states the
/// documented mapping, character by character.
#[verifier::external_body]
pub(crate) fn str_to_uppercase(s: &str) -> (r: String)
    ensures
        r@ == str_uppercase(s@),
        (forall|i: int| 0 <= i < s@.len() ==> ascii_char(#[trigger] s@[i]))
            ==> r@ == s@.map_values(|c: char| ascii_upper(c)),
{
    s.to_uppercase()
}

/// `s` with its first character uppercased.
pub open spec fn first_uppercase(s: Seq<char>) -> Seq<char> {
    if s.len() == 0 {
        Seq::empty()
    } else {
        char_uppercase(s[0]) + s.drop_first()
    }
}

/// `s` with its first character lowercased.
pub open spec fn first_lowercase(s: Seq<char>) -> Seq<char> {
    if s.len() == 0 {
        Seq::empty()
    } else {
        char_lowercase(s[0]) + s.drop_first()
    }
}

/// The word separators of `to_pascal_case`.
pub open spec fn is_word_separator(c: char) -> bool {
    c == '_' || c == '-'
}

/// What `to_pascal_case` makes of the character at `i`: a separator is
/// dropped, the first character of a word is uppercased, others are kept.
pub open spec fn pascal_piece(s: Seq<char>, i: int) -> Seq<char> {
    if is_word_separator(s[i]) {
        Seq::empty()
    } else if i == 0 || is_word_separator(s[i - 1]) {
        char_uppercase(s[i])
    } else {
        seq![s[i]]
    }
}

/// The PascalCase form of the first `n` characters of `s`: the words between
/// `_` and `-` separators, each with its first character uppercased, joined.
pub open spec fn pascal_prefix(s: Seq<char>, n: nat) -> Seq<char>
    decreases n,
{
    if n == 0 {
        Seq::empty()
    } else {
        pascal_prefix(s, (n - 1) as nat) + pascal_piece(s, n - 1)
    }
}

/// The PascalCase form of `s`.
pub open spec fn pascal_case(s: Seq<char>) -> Seq<char> {
    pascal_prefix(s, s.len())
}

/// The snake_case form of the first `n` characters of `s`. An uppercase
/// character is lowercased (to the first character of its lowercase mapping),
/// and a `_` goes before it when it is not the first character, the output so
/// far does not end with `_`, and the character before or after it is lowercase.
/// Other characters are kept.
pub open spec fn snake_prefix(s: Seq<char>, n: nat) -> Seq<char>
    decreases n,
{
    if n == 0 {
        Seq::empty()
    } else {
        let i = n - 1;
        let r = snake_prefix(s, (n - 1) as nat);
        let c = s[i];
        if char_is_uppercase(c) {
            let prev_lower = i > 0 && char_is_lowercase(s[i - 1]);
            let next_lower = i + 1 < s.len() && char_is_lowercase(s[i + 1]);
            let boundary = i > 0 && !(r.len() > 0 && r.last() == '_') && (prev_lower || next_lower);
            (if boundary { r.push('_') } else { r }).push(char_lowercase(c)[0])
        } else {
            r.push(c)
        }
    }
}

/// The snake_case form of `s`.
pub open spec fn snake_case(s: Seq<char>) -> Seq<char> {
    snake_prefix(s, s.len())
}

/// `s` without its `_` characters.
pub open spec fn without_underscores(s: Seq<char>) -> Seq<char>
    decreases s.len(),
{
    if s.len() == 0 {
        Seq::empty()
    } else if s.last() == '_' {
        without_underscores(s.drop_last())
    } else {
        without_underscores(s.drop_last()).push(s.last())
    }
}

/// `s` with each of `A`-`Z` lowercased.
pub open spec fn ascii_lowercased(s: Seq<char>) -> Seq<char>
    decreases s.len(),
{
    if s.len() == 0 {
        Seq::empty()
    } else {
        ascii_lowercased(s.drop_last()).push(ascii_lower(s.last()))
    }
}

/// Whether every character of `s` is ASCII.
pub open spec fn ascii_text(s: Seq<char>) -> bool {
    forall|i: int| 0 <= i < s.len() ==> ascii_char(#[trigger] s[i])
}

/// Converts the first character of `s` to uppercase.
pub fn to_first_uppercase(s: &str) -> (r: String)
    ensures
        r@ == first_uppercase(s@),
{
    let n = s.unicode_len();
    if n == 0 {
        return String::new();
    }
    let mut r = to_uppercase(s.get_char(0));
    let rest = s.substring_char(1, n);
    push_str(&mut r, rest);
    r
}

/// Converts the first character of `s` to lowercase.
pub fn to_first_lowercase(s: &str) -> (r: String)
    ensures
        r@ == first_lowercase(s@),
{
    let n = s.unicode_len();
    if n == 0 {
        return String::new();
    }
    let mut r = to_lowercase(s.get_char(0));
    let rest = s.substring_char(1, n);
    push_str(&mut r, rest);
    r
}

/// Converts `s` to PascalCase: splits it at `_` and `-`, drops empty words,
/// uppercases the first character of each word, and joins the words.
pub fn to_pascal_case(s: &str) -> (r: String)
    ensures
        r@ == pascal_case(s@),
{
    let n = s.unicode_len();
    let mut r = String::new();
    let mut prev: char = '_';
    let mut i: usize = 0;
    while i < n
        invariant
            n == s@.len(),
            0 <= i <= n,
            r@ == pascal_prefix(s@, i as nat),
            i > 0 ==> prev == s@[i - 1],
            i == 0 ==> prev == '_',
        decreases n - i,
    {
        let c = s.get_char(i);
        if c == '_' || c == '-' {
        } else if prev == '_' || prev == '-' {
            let upper = to_uppercase(c);
            push_str(&mut r, upper.as_str());
        } else {
            push_char(&mut r, c);
        }
        assert(r@ =~= pascal_prefix(s@, (i + 1) as nat));
        prev = c;
        i += 1;
    }
    r
}

/// Converts `s` to snake_case by inserting `_` at word boundaries. For
/// PascalCase and camelCase, a boundary occurs where an uppercase letter
/// follows a lowercase one (`LineComment` -> `line_comment`). An uppercase run
/// stays one word (`WS` -> `ws`), and a boundary also goes where an uppercase
/// run ends before a lowercase letter (`HTMLParser` -> `html_parser`).
///
/// Of an ASCII name, the result holds no uppercase letter and differs from
/// the lowercased name only in the `_` inserted; a name without uppercase
/// letters comes back unchanged.
pub fn to_snake_case(s: &str) -> (r: String)
    ensures
        r@ == snake_case(s@),
        ascii_text(s@) ==> forall|k: int| 0 <= k < r@.len() ==> !('A' <= #[trigger] r@[k] <= 'Z'),
        ascii_text(s@) ==> without_underscores(r@) == without_underscores(ascii_lowercased(s@)),
        ascii_text(s@) && (forall|k: int| 0 <= k < s@.len() ==> !('A' <= #[trigger] s@[k] <= 'Z')) ==> r@ == s@,
{
    let n = s.unicode_len();
    let mut r = String::new();
    let mut i: usize = 0;
    while i < n
        invariant
            n == s@.len(),
            0 <= i <= n,
            r@ == snake_prefix(s@, i as nat),
            ascii_text(s@) ==> forall|k: int| 0 <= k < r@.len() ==> !('A' <= #[trigger] r@[k] <= 'Z'),
            ascii_text(s@) ==> without_underscores(r@) == without_underscores(ascii_lowercased(s@.take(i as int))),
            ascii_text(s@) && (forall|k: int| 0 <= k < s@.len() ==> !('A' <= #[trigger] s@[k] <= 'Z'))
                ==> r@ == s@.take(i as int),
        decreases n - i,
    {
        let c = s.get_char(i);
        let ghost before = r@;
        proof {
            let t = s@.take(i + 1);
            assert(t.drop_last() =~= s@.take(i as int));
            assert(t.last() == c);
            if ascii_text(s@) {
                assert(ascii_char(s@[i as int]));
            }
        }
        if is_uppercase(c) {
            let prev_lower = i > 0 && is_lowercase(s.get_char(i - 1));
            let next_lower = i + 1 < n && is_lowercase(s.get_char(i + 1));
            let ends_with_separator = ends_with_underscore(&r);
            if i > 0 && !ends_with_separator && (prev_lower || next_lower) {
                push_char(&mut r, '_');
            }
            let ghost marked = r@;
            let lower = to_lowercase(c);
            push_char(&mut r, lower.as_str().get_char(0));
            proof {
                if ascii_text(s@) {
                    let l = ascii_lower(c);
                    assert(r@ == marked.push(l));
                    assert(r@.drop_last() =~= marked);
                    assert(without_underscores(marked) == without_underscores(before)) by {
                        if marked != before {
                            assert(marked.drop_last() =~= before);
                        }
                    }
                    assert(forall|k: int| 0 <= k < marked.len() ==> !('A' <= #[trigger] marked[k] <= 'Z')) by {
                        if marked != before {
                            assert(forall|k: int| 0 <= k < before.len() ==> marked[k] == before[k]);
                        }
                    }
                }
            }
        } else {
            push_char(&mut r, c);
            proof {
                if ascii_text(s@) {
                    assert(r@.drop_last() =~= before);
                }
            }
        }
        proof {
            if ascii_text(s@) {
                let t = s@.take(i + 1);
                let lt = ascii_lowercased(t);
                assert(lt.drop_last() =~= ascii_lowercased(s@.take(i as int)));
                assert(lt.last() == ascii_lower(c));
                assert(r@.last() == ascii_lower(c));
                assert(r@.len() > 0);
                assert(without_underscores(r@.drop_last()) == without_underscores(before));
                assert(without_underscores(r@) == without_underscores(lt));
                if forall|k: int| 0 <= k < s@.len() ==> !('A' <= #[trigger] s@[k] <= 'Z') {
                    assert(!('A' <= s@[i as int] <= 'Z'));
                    assert(r@ =~= s@.take(i + 1));
                }
            }
        }
        assert(r@ =~= snake_prefix(s@, (i + 1) as nat));
        i += 1;
    }
    assert(s@.take(n as int) =~= s@);
    r
}

/// Whether `s` ends with `_`.
fn ends_with_underscore(s: &String) -> (b: bool)
    ensures
        b == (s@.len() > 0 && s@.last() == '_'),
{
    let t = s.as_str();
    let n = t.unicode_len();
    n > 0 && t.get_char(n - 1) == '_'
}

/// Strings without uppercase characters are already in snake_case: the
/// conversion gives them back unchanged.
pub proof fn snake_case_keeps_strings_without_uppercase(s: Seq<char>)
    requires
        forall|i: int| 0 <= i < s.len() ==> !char_is_uppercase(#[trigger] s[i]),
    ensures
        snake_case(s) == s,
{
    lemma_snake_prefix_identity(s, s.len());
    assert(s.take(s.len() as int) =~= s);
}

proof fn lemma_snake_prefix_identity(s: Seq<char>, n: nat)
    requires
        n <= s.len(),
        forall|i: int| 0 <= i < s.len() ==> !char_is_uppercase(#[trigger] s[i]),
    ensures
        snake_prefix(s, n) == s.take(n as int),
    decreases n,
{
    if n > 0 {
        lemma_snake_prefix_identity(s, (n - 1) as nat);
        assert(s.take(n as int) =~= s.take(n - 1).push(s[n - 1]));
    }
}

} // verus!
