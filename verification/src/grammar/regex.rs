//! Regular expressions of lexical rules.
use vstd::prelude::*;
use crate::grammar::symbols::{Identifier, SpecIdentifier};
use crate::text::{push_char, push_str};

verus! {

broadcast use vstd::std_specs::vec::axiom_vec_index_decreases;

/// An inclusive range of characters.
#[derive(Debug, Clone, Copy, PartialEq, Eq, Hash, Structural)]
pub struct CharRange {
    pub start: char,
    pub end: char,
}

/// A character class, a list of ranges, possibly negated.
#[derive(Debug)]
pub struct CharClass {
    pub ranges: Vec<CharRange>,
    pub negated: bool,
}

/// A regular expression of a lexical rule.
#[derive(Debug)]
pub enum Regex {
    Char(char),
    CharRange(CharRange),
    CharClass(CharClass),
    Sequence(Vec<Regex>),
    Alt(Vec<Regex>),
    Star(Box<Regex>),
    Plus(Box<Regex>),
    Opt(Box<Regex>),
    Epsilon,
    /// A reference to another named `@Regex` rule, inlined during grammar compilation.
    Identifier(Identifier),
}

pub struct SpecCharClass {
    pub ranges: Seq<CharRange>,
    pub negated: bool,
}

pub enum SpecRegex {
    Char(char),
    CharRange(CharRange),
    CharClass(SpecCharClass),
    Sequence(Seq<SpecRegex>),
    Alt(Seq<SpecRegex>),
    Star(Box<SpecRegex>),
    Plus(Box<SpecRegex>),
    Opt(Box<SpecRegex>),
    Epsilon,
    Identifier(SpecIdentifier),
}

impl View for CharClass {
    type V = SpecCharClass;

    open spec fn view(&self) -> SpecCharClass {
        SpecCharClass { ranges: self.ranges@, negated: self.negated }
    }
}

/// The view of a regex.
pub open spec fn regex_view(r: Regex) -> SpecRegex
    decreases r, 1int,
{
    match r {
        Regex::Char(c) => SpecRegex::Char(c),
        Regex::CharRange(range) => SpecRegex::CharRange(range),
        Regex::CharClass(cc) => SpecRegex::CharClass(cc@),
        Regex::Sequence(parts) => SpecRegex::Sequence(regexes_view(parts@)),
        Regex::Alt(parts) => SpecRegex::Alt(regexes_view(parts@)),
        Regex::Star(inner) => SpecRegex::Star(Box::new(regex_view(*inner))),
        Regex::Plus(inner) => SpecRegex::Plus(Box::new(regex_view(*inner))),
        Regex::Opt(inner) => SpecRegex::Opt(Box::new(regex_view(*inner))),
        Regex::Epsilon => SpecRegex::Epsilon,
        Regex::Identifier(id) => SpecRegex::Identifier(id@),
    }
}

/// The views of a sequence of regexes.
pub open spec fn regexes_view(parts: Seq<Regex>) -> Seq<SpecRegex>
    decreases parts, 0int,
{
    if parts.len() == 0 {
        Seq::empty()
    } else {
        regexes_view(parts.drop_last()).push(regex_view(parts.last()))
    }
}

impl View for Regex {
    type V = SpecRegex;

    open spec fn view(&self) -> SpecRegex {
        regex_view(*self)
    }
}

/// Indexing into the views of a sequence of regexes.
pub proof fn lemma_regexes_view(parts: Seq<Regex>)
    ensures
        regexes_view(parts).len() == parts.len(),
        forall|i: int| 0 <= i < parts.len() ==> #[trigger] regexes_view(parts)[i] == regex_view(parts[i]),
    decreases parts.len(),
{
    if parts.len() > 0 {
        lemma_regexes_view(parts.drop_last());
    }
}

/// Whether a regex mentions a named rule anywhere.
pub open spec fn mentions_identifier(r: SpecRegex) -> bool
    decreases r,
{
    match r {
        SpecRegex::Identifier(_) => true,
        SpecRegex::Sequence(parts) => exists|i: int| 0 <= i < parts.len() && mentions_identifier(#[trigger] parts[i]),
        SpecRegex::Alt(parts) => exists|i: int| 0 <= i < parts.len() && mentions_identifier(#[trigger] parts[i]),
        SpecRegex::Star(inner) => mentions_identifier(*inner),
        SpecRegex::Plus(inner) => mentions_identifier(*inner),
        SpecRegex::Opt(inner) => mentions_identifier(*inner),
        _ => false,
    }
}

/// Whether a regex can match the empty string.
pub open spec fn nullable(r: SpecRegex) -> bool
    decreases r,
{
    match r {
        SpecRegex::Sequence(parts) => forall|i: int| 0 <= i < parts.len() ==> nullable(#[trigger] parts[i]),
        SpecRegex::Alt(parts) => exists|i: int| 0 <= i < parts.len() && nullable(#[trigger] parts[i]),
        SpecRegex::Epsilon | SpecRegex::Star(_) | SpecRegex::Opt(_) => true,
        SpecRegex::Plus(inner) => nullable(*inner),
        _ => false,
    }
}

/// A sequence or alternation mentions a named rule when one of its parts does.
pub proof fn lemma_mentions_part(parts: Seq<SpecRegex>, j: int)
    requires
        0 <= j < parts.len(),
        mentions_identifier(parts[j]),
    ensures
        mentions_identifier(SpecRegex::Sequence(parts)),
        mentions_identifier(SpecRegex::Alt(parts)),
{
    reveal_with_fuel(mentions_identifier, 2);
    let r = SpecRegex::Sequence(parts);
    assert(r->Sequence_0[j] == parts[j]);
    assert(mentions_identifier(r));
    let a = SpecRegex::Alt(parts);
    assert(a->Alt_0[j] == parts[j]);
    assert(mentions_identifier(a));
}

/// A sequence is not nullable when one of its parts is not.
pub proof fn lemma_sequence_part_not_nullable(parts: Seq<SpecRegex>, j: int)
    requires
        0 <= j < parts.len(),
        !nullable(parts[j]),
    ensures
        !nullable(SpecRegex::Sequence(parts)),
{
    reveal_with_fuel(nullable, 2);
    let r = SpecRegex::Sequence(parts);
    assert(r->Sequence_0[j] == parts[j]);
}

/// An alternation is nullable when one of its choices is.
pub proof fn lemma_nullable_choice(parts: Seq<SpecRegex>, j: int)
    requires
        0 <= j < parts.len(),
        nullable(parts[j]),
    ensures
        nullable(SpecRegex::Alt(parts)),
{
    reveal_with_fuel(nullable, 2);
    let a = SpecRegex::Alt(parts);
    assert(a->Alt_0[j] == parts[j]);
    assert(nullable(a));
}

/// Whether a `Star`/`Plus`/`Opt` operand needs parentheses: a sequence of two
/// or more parts does; one-element sequences and alternations are seen through.
pub open spec fn spec_needs_grouping(r: SpecRegex) -> bool
    decreases r,
{
    match r {
        SpecRegex::Sequence(parts) => if parts.len() == 1 {
            spec_needs_grouping(parts[0])
        } else {
            true
        },
        SpecRegex::Alt(parts) => if parts.len() == 1 {
            spec_needs_grouping(parts[0])
        } else {
            false
        },
        _ => false,
    }
}

impl Regex {
    /// Whether this regex can match the empty string. References to named
    /// rules must be inlined first.
    #[verifier::loop_isolation(false)]
    pub fn is_nullable(&self) -> (b: bool)
        requires
            !mentions_identifier(self@),
        ensures
            b == nullable(self@),
        decreases self,
    {
        match self {
            Regex::Sequence(parts) => {
                proof {
                    lemma_regexes_view(parts@);
                    reveal_with_fuel(mentions_identifier, 2);
                    reveal_with_fuel(nullable, 2);
                }
                let ghost views = regexes_view(parts@);
                assert forall|j: int| 0 <= j < parts@.len() implies !mentions_identifier(#[trigger] views[j]) by {
                    if mentions_identifier(views[j]) {
                        lemma_mentions_part(views, j);
                    }
                }
                let mut i: usize = 0;
                while i < parts.len()
                    invariant
                        0 <= i <= parts@.len(),
                        views == regexes_view(parts@),
                        views.len() == parts@.len(),
                        forall|j: int| 0 <= j < parts@.len() ==> #[trigger] views[j] == parts@[j]@,
                        forall|j: int| 0 <= j < parts@.len() ==> !mentions_identifier(#[trigger] views[j]),
                        forall|j: int| 0 <= j < i ==> nullable(#[trigger] views[j]),
                    decreases parts@.len() - i,
                {
                    proof {
                        assert(decreases_to!(*parts => parts@[i as int]));
                        assert(views[i as int] == parts@[i as int]@);
                        assert(!mentions_identifier(views[i as int]));
                    }
                    if !parts[i].is_nullable() {
                        proof { lemma_sequence_part_not_nullable(views, i as int); }
                        return false;
                    }
                    i += 1;
                }
                true
            },
            Regex::Alt(parts) => {
                proof {
                    lemma_regexes_view(parts@);
                    reveal_with_fuel(mentions_identifier, 2);
                    reveal_with_fuel(nullable, 2);
                }
                let ghost views = regexes_view(parts@);
                assert forall|j: int| 0 <= j < parts@.len() implies !mentions_identifier(#[trigger] views[j]) by {
                    if mentions_identifier(views[j]) {
                        lemma_mentions_part(views, j);
                    }
                }
                let mut i: usize = 0;
                while i < parts.len()
                    invariant
                        0 <= i <= parts@.len(),
                        views == regexes_view(parts@),
                        views.len() == parts@.len(),
                        forall|j: int| 0 <= j < parts@.len() ==> #[trigger] views[j] == parts@[j]@,
                        forall|j: int| 0 <= j < parts@.len() ==> !mentions_identifier(#[trigger] views[j]),
                        forall|j: int| 0 <= j < i ==> !nullable(#[trigger] views[j]),
                    decreases parts@.len() - i,
                {
                    proof {
                        assert(decreases_to!(*parts => parts@[i as int]));
                        assert(views[i as int] == parts@[i as int]@);
                        assert(!mentions_identifier(views[i as int]));
                    }
                    if parts[i].is_nullable() {
                        proof {
                            lemma_nullable_choice(views, i as int);
                        }
                        return true;
                    }
                    i += 1;
                }
                false
            },
            Regex::Epsilon | Regex::Star(_) | Regex::Opt(_) => true,
            Regex::Plus(inner) => inner.is_nullable(),
            _ => false,
        }
    }

    /// The single character `c`.
    pub fn char(c: char) -> (r: Regex)
        ensures
            r@ == SpecRegex::Char(c),
    {
        Regex::Char(c)
    }

    /// The characters from `start` to `end`, inclusive.
    pub fn range(start: char, end: char) -> (r: Regex)
        ensures
            r@ == SpecRegex::CharRange(CharRange { start, end }),
    {
        Regex::CharRange(CharRange { start, end })
    }

    /// The concatenation of `parts`.
    pub fn seq(parts: Vec<Regex>) -> (r: Regex)
        ensures
            r@ == SpecRegex::Sequence(regexes_view(parts@)),
    {
        Regex::Sequence(parts)
    }

    /// The choice between `choices`.
    pub fn alt(choices: Vec<Regex>) -> (r: Regex)
        ensures
            r@ == SpecRegex::Alt(regexes_view(choices@)),
    {
        Regex::Alt(choices)
    }

    /// Zero or more repetitions of `regex`.
    pub fn star(regex: Regex) -> (r: Regex)
        ensures
            r@ == SpecRegex::Star(Box::new(regex@)),
    {
        Regex::Star(Box::new(regex))
    }

    /// One or more repetitions of `regex`.
    pub fn plus(regex: Regex) -> (r: Regex)
        ensures
            r@ == SpecRegex::Plus(Box::new(regex@)),
    {
        Regex::Plus(Box::new(regex))
    }

    /// The character class of `ranges`, negated if `negated`.
    pub fn char_class(ranges: Vec<CharRange>, negated: bool) -> (r: Regex)
        ensures
            r@ == SpecRegex::CharClass(SpecCharClass { ranges: ranges@, negated }),
    {
        Regex::CharClass(CharClass { ranges, negated })
    }

    /// The sequence of the characters of `s`.
    pub fn literal(s: &str) -> (r: Regex)
        ensures
            r@ == SpecRegex::Sequence(literal_parts(s@)),
    {
        let n = s.unicode_len();
        let mut parts: Vec<Regex> = Vec::new();
        assert(regexes_view(parts@) =~= literal_parts(s@.take(0)));
        let mut i: usize = 0;
        while i < n
            invariant
                n == s@.len(),
                0 <= i <= n,
                regexes_view(parts@) == literal_parts(s@.take(i as int)),
            decreases n - i,
        {
            let c = s.get_char(i);
            let ghost prev = parts@;
            parts.push(Regex::Char(c));
            proof {
                assert(parts@.drop_last() =~= prev);
                assert(parts@.last() == Regex::Char(c));
                assert(regexes_view(parts@) == regexes_view(parts@.drop_last()).push(regex_view(parts@.last())));
                assert(regexes_view(parts@.drop_last()) == regexes_view(prev));
                assert(regex_view(parts@.last()) == SpecRegex::Char(c));
                assert(regexes_view(parts@) == regexes_view(prev).push(SpecRegex::Char(c)));
                assert(s@.take(i + 1).drop_last() =~= s@.take(i as int));
                assert(s@.take(i + 1).last() == c);
            }
            i += 1;
        }
        assert(s@.take(n as int) =~= s@);
        Regex::Sequence(parts)
    }
}

/// The single-character regexes of the characters of `s`.
pub open spec fn literal_parts(s: Seq<char>) -> Seq<SpecRegex>
    decreases s.len(),
{
    if s.len() == 0 {
        Seq::empty()
    } else {
        literal_parts(s.drop_last()).push(SpecRegex::Char(s.last()))
    }
}

/// Whether a `Star`/`Plus`/`Opt` operand needs parentheses when printed.
pub fn needs_grouping(regex: &Regex) -> (b: bool)
    ensures
        b == spec_needs_grouping(regex@),
    decreases regex,
{
    match regex {
        Regex::Sequence(parts) => {
            proof { lemma_regexes_view(parts@); }
            if parts.len() == 1 {
                proof { assert(decreases_to!(*parts => parts@[0])); }
                needs_grouping(&parts[0])
            } else {
                true
            }
        },
        Regex::Alt(parts) => {
            proof { lemma_regexes_view(parts@); }
            if parts.len() == 1 {
                proof { assert(decreases_to!(*parts => parts@[0])); }
                needs_grouping(&parts[0])
            } else {
                false
            }
        },
        _ => false,
    }
}


// ---------------------------------------------------------------------------
// Rendering

/// What `char::escape_debug` yields for `c`.
pub uninterp spec fn escape_debug(c: char) -> Seq<char>;

/// Printable ASCII that `char::escape_debug` leaves as it is: from space to
/// `~`, but for the backslash and the quotes.
pub open spec fn plain_ascii(c: char) -> bool {
    ' ' <= c <= '~' && c != '\\' && c != '\'' && c != '"'
}

/// `c` escaped as `char::escape_debug` escapes it: the literal escape code of
/// the character as Rust's `Debug` formatting writes it. The contract names
/// the result, and states what the documentation gives of ASCII: printable
/// characters other than the backslash and the quotes stay, and the
/// backslash, the quotes, tab, newline and carriage return become their
/// backslash escapes.
#[verifier::external_body]
fn escape_debug_of(c: char) -> (s: String)
    ensures
        s@ == escape_debug(c),
        plain_ascii(c) ==> s@ == seq![c],
        c == '\\' ==> s@ == seq!['\\', '\\'],
        c == '\'' ==> s@ == seq!['\\', '\''],
        c == '"' ==> s@ == seq!['\\', '"'],
        c == '\t' ==> s@ == seq!['\\', 't'],
        c == '\n' ==> s@ == seq!['\\', 'n'],
        c == '\r' ==> s@ == seq!['\\', 'r'],
{
    c.escape_debug().to_string()
}

/// The text of a character range: `a` for a single character, `a-z` otherwise.
pub open spec fn range_text(r: CharRange) -> Seq<char> {
    if r.start == r.end {
        escape_debug(r.start)
    } else {
        escape_debug(r.start) + seq!['-'] + escape_debug(r.end)
    }
}

/// The texts of `ranges`, separated by a space.
pub open spec fn ranges_text(ranges: Seq<CharRange>) -> Seq<char>
    decreases ranges.len(),
{
    if ranges.len() == 0 {
        Seq::empty()
    } else if ranges.len() == 1 {
        range_text(ranges[0])
    } else {
        ranges_text(ranges.drop_last()) + seq![' '] + range_text(ranges.last())
    }
}

/// The text of a character class: `[a-z 0-9]`, or `![...]` when negated.
pub open spec fn class_text(cc: SpecCharClass) -> Seq<char> {
    (if cc.negated { seq!['!'] } else { Seq::empty() }) + seq!['['] + ranges_text(cc.ranges) + seq![']']
}

/// The text of a regex.
pub open spec fn regex_text(r: SpecRegex) -> Seq<char>
    decreases r, 1int,
{
    match r {
        SpecRegex::Char(c) => escape_debug(c),
        SpecRegex::CharRange(range) => range_text(range),
        SpecRegex::CharClass(cc) => class_text(cc),
        SpecRegex::Sequence(parts) => regexes_text(parts, Seq::empty()),
        SpecRegex::Alt(parts) => if parts.len() == 1 {
            regex_text(parts[0])
        } else {
            seq!['('] + regexes_text(parts, seq!['|']) + seq![')']
        },
        SpecRegex::Star(inner) => operator_text(*inner, '*'),
        SpecRegex::Plus(inner) => operator_text(*inner, '+'),
        SpecRegex::Opt(inner) => operator_text(*inner, '?'),
        SpecRegex::Epsilon => seq!['ε'],
        SpecRegex::Identifier(id) => id.name,
    }
}

/// The text of a postfix operator applied to `inner`, grouped when needed.
pub open spec fn operator_text(inner: SpecRegex, op: char) -> Seq<char>
    decreases inner, 2int,
{
    if spec_needs_grouping(inner) {
        seq!['('] + regex_text(inner) + seq![')', op]
    } else {
        regex_text(inner) + seq![op]
    }
}

/// The texts of `parts`, separated by `sep`.
pub open spec fn regexes_text(parts: Seq<SpecRegex>, sep: Seq<char>) -> Seq<char>
    decreases parts, 0int,
{
    if parts.len() == 0 {
        Seq::empty()
    } else if parts.len() == 1 {
        regex_text(parts[0])
    } else {
        regexes_text(parts.drop_last(), sep) + sep + regex_text(parts.last())
    }
}

/// Whether both ends of a range are plain printable ASCII.
pub open spec fn plain_range(r: CharRange) -> bool {
    plain_ascii(r.start) && plain_ascii(r.end)
}

/// Whether every character a regex names is plain printable ASCII; see
/// `plain_ascii`.
pub open spec fn all_plain(r: SpecRegex) -> bool
    decreases r, 1int,
{
    match r {
        SpecRegex::Char(c) => plain_ascii(c),
        SpecRegex::CharRange(range) => plain_range(range),
        SpecRegex::CharClass(cc) => forall|i: int| 0 <= i < cc.ranges.len() ==> plain_range(#[trigger] cc.ranges[i]),
        SpecRegex::Sequence(parts) => all_plain_parts(parts),
        SpecRegex::Alt(parts) => all_plain_parts(parts),
        SpecRegex::Star(inner) => all_plain(*inner),
        SpecRegex::Plus(inner) => all_plain(*inner),
        SpecRegex::Opt(inner) => all_plain(*inner),
        SpecRegex::Epsilon => true,
        SpecRegex::Identifier(_) => true,
    }
}

/// Whether every part is `all_plain`.
pub open spec fn all_plain_parts(parts: Seq<SpecRegex>) -> bool
    decreases parts, 0int,
{
    if parts.len() == 0 {
        true
    } else {
        all_plain_parts(parts.drop_last()) && all_plain(parts.last())
    }
}

/// The text of a range whose characters print as themselves.
pub open spec fn plain_range_text(r: CharRange) -> Seq<char> {
    if r.start == r.end {
        seq![r.start]
    } else {
        seq![r.start, '-', r.end]
    }
}

/// The texts of such ranges, separated by a space.
pub open spec fn plain_ranges_text(ranges: Seq<CharRange>) -> Seq<char>
    decreases ranges.len(),
{
    if ranges.len() == 0 {
        Seq::empty()
    } else if ranges.len() == 1 {
        plain_range_text(ranges[0])
    } else {
        plain_ranges_text(ranges.drop_last()) + seq![' '] + plain_range_text(ranges.last())
    }
}

/// The text of a regex whose characters print as themselves: `a`, `a-z`,
/// `[0-9 a-z]` (`![...]` negated), parts one after the other, `(a|b)`
/// choices, and `*`, `+`, `?` after their operand, grouped when needed.
pub open spec fn plain_regex_text(r: SpecRegex) -> Seq<char>
    decreases r, 1int,
{
    match r {
        SpecRegex::Char(c) => seq![c],
        SpecRegex::CharRange(range) => plain_range_text(range),
        SpecRegex::CharClass(cc) => (if cc.negated { seq!['!'] } else { Seq::empty() }) + seq!['['] + plain_ranges_text(cc.ranges) + seq![']'],
        SpecRegex::Sequence(parts) => plain_regexes_text(parts, Seq::empty()),
        SpecRegex::Alt(parts) => if parts.len() == 1 {
            plain_regex_text(parts[0])
        } else {
            seq!['('] + plain_regexes_text(parts, seq!['|']) + seq![')']
        },
        SpecRegex::Star(inner) => plain_operator_text(*inner, '*'),
        SpecRegex::Plus(inner) => plain_operator_text(*inner, '+'),
        SpecRegex::Opt(inner) => plain_operator_text(*inner, '?'),
        SpecRegex::Epsilon => seq!['ε'],
        SpecRegex::Identifier(id) => id.name,
    }
}

/// A postfix operator after its operand's plain text, grouped when needed.
pub open spec fn plain_operator_text(inner: SpecRegex, op: char) -> Seq<char>
    decreases inner, 2int,
{
    if spec_needs_grouping(inner) {
        seq!['('] + plain_regex_text(inner) + seq![')', op]
    } else {
        plain_regex_text(inner) + seq![op]
    }
}

/// The plain texts of `parts`, separated by `sep`.
pub open spec fn plain_regexes_text(parts: Seq<SpecRegex>, sep: Seq<char>) -> Seq<char>
    decreases parts, 0int,
{
    if parts.len() == 0 {
        Seq::empty()
    } else if parts.len() == 1 {
        plain_regex_text(parts[0])
    } else {
        plain_regexes_text(parts.drop_last(), sep) + sep + plain_regex_text(parts.last())
    }
}

impl CharRange {
    /// Appends the text of this range to `out`.
    pub fn push_text(&self, out: &mut String)
        ensures
            final(out)@ == old(out)@ + range_text(*self),
            plain_range(*self) ==> range_text(*self) == plain_range_text(*self),
    {
        let ghost start = out@;
        let first = escape_debug_of(self.start);
        push_str(out, first.as_str());
        if self.start != self.end {
            push_char(out, '-');
            let last = escape_debug_of(self.end);
            push_str(out, last.as_str());
        }
        assert(out@ =~= start + range_text(*self));
        assert(plain_range(*self) ==> range_text(*self) =~= plain_range_text(*self));
    }
}

impl CharClass {
    /// Appends the text of this class to `out`.
    pub fn push_text(&self, out: &mut String)
        ensures
            final(out)@ == old(out)@ + class_text(self@),
            (forall|i: int| 0 <= i < self@.ranges.len() ==> plain_range(#[trigger] self@.ranges[i]))
                ==> class_text(self@) == (if self@.negated { seq!['!'] } else { Seq::<char>::empty() }) + seq!['['] + plain_ranges_text(self@.ranges) + seq![']'],
    {
        let ghost start = out@;
        if self.negated {
            push_char(out, '!');
        }
        push_char(out, '[');
        let ghost mid = out@;
        let mut i: usize = 0;
        while i < self.ranges.len()
            invariant
                0 <= i <= self.ranges@.len(),
                out@ == mid + ranges_text(self.ranges@.take(i as int)),
                (forall|j: int| 0 <= j < self@.ranges.len() ==> plain_range(#[trigger] self@.ranges[j]))
                    ==> ranges_text(self.ranges@.take(i as int)) == plain_ranges_text(self.ranges@.take(i as int)),
            decreases self.ranges@.len() - i,
        {
            if i > 0 {
                push_char(out, ' ');
            }
            self.ranges[i].push_text(out);
            proof {
                let t = self.ranges@.take(i + 1);
                assert(t.drop_last() =~= self.ranges@.take(i as int));
                assert(t.last() == self.ranges@[i as int]);
                if i == 0 {
                    assert(t[0] == self.ranges@[0]);
                }
                assert(out@ =~= mid + ranges_text(t));
                if forall|j: int| 0 <= j < self@.ranges.len() ==> plain_range(#[trigger] self@.ranges[j]) {
                    assert(plain_range(self@.ranges[i as int]));
                    assert(ranges_text(t) =~= plain_ranges_text(t));
                }
            }
            i += 1;
        }
        assert(self.ranges@.take(self.ranges@.len() as int) =~= self.ranges@);
        push_char(out, ']');
        assert(out@ =~= start + class_text(self@));
        proof {
            if forall|j: int| 0 <= j < self@.ranges.len() ==> plain_range(#[trigger] self@.ranges[j]) {
                assert(class_text(self@) =~= (if self@.negated { seq!['!'] } else { Seq::<char>::empty() }) + seq!['['] + plain_ranges_text(self@.ranges) + seq![']']);
            }
        }
    }
}

/// Appends the texts of `parts`, separated by `sep`.
fn push_regexes(out: &mut String, parts: &Vec<Regex>, sep: &str)
    ensures
        final(out)@ == old(out)@ + regexes_text(regexes_view(parts@), sep@),
        all_plain_parts(regexes_view(parts@)) ==> regexes_text(regexes_view(parts@), sep@) == plain_regexes_text(regexes_view(parts@), sep@),
    decreases parts, 0int,
{
    proof {
        lemma_regexes_view(parts@);
    }
    let ghost start = out@;
    let ghost views = regexes_view(parts@);
    let mut i: usize = 0;
    while i < parts.len()
        invariant
            0 <= i <= parts@.len(),
            views == regexes_view(parts@),
            views.len() == parts@.len(),
            forall|j: int| 0 <= j < parts@.len() ==> #[trigger] views[j] == parts@[j]@,
            out@ == start + regexes_text(views.take(i as int), sep@),
            all_plain_parts(views) ==> regexes_text(views.take(i as int), sep@) == plain_regexes_text(views.take(i as int), sep@),
        decreases parts@.len() - i,
    {
        proof {
            assert(decreases_to!(*parts => parts@[i as int]));
            assert(views.take(i + 1).drop_last() =~= views.take(i as int));
        }
        if i > 0 {
            push_str(out, sep);
        }
        parts[i].push_text(out);
        proof {
            let t = views.take(i + 1);
            assert(t.last() == views[i as int]);
            if i == 0 {
                assert(t[0] == views[0]);
                assert(regexes_text(t, sep@) == regex_text(views[0]));
            } else {
                assert(regexes_text(t, sep@) == regexes_text(t.drop_last(), sep@) + sep@ + regex_text(t.last()));
            }
            assert(out@ =~= start + regexes_text(t, sep@));
            if all_plain_parts(views) {
                lemma_all_plain_parts(views, i as int);
                if i == 0 {
                    assert(plain_regexes_text(t, sep@) == plain_regex_text(views[0]));
                } else {
                    assert(plain_regexes_text(t, sep@) == plain_regexes_text(t.drop_last(), sep@) + sep@ + plain_regex_text(t.last()));
                }
            }
        }
        i += 1;
    }
    assert(views.take(parts@.len() as int) =~= views);
}

proof fn lemma_all_plain_parts(parts: Seq<SpecRegex>, j: int)
    requires
        all_plain_parts(parts),
        0 <= j < parts.len(),
    ensures
        all_plain(parts[j]),
    decreases parts.len(),
{
    if j < parts.len() - 1 {
        lemma_all_plain_parts(parts.drop_last(), j);
        assert(parts.drop_last()[j] == parts[j]);
    }
}

impl Regex {
    /// Appends the text of this regex to `out`.
    pub fn push_text(&self, out: &mut String)
        ensures
            final(out)@ == old(out)@ + regex_text(self@),
            all_plain(self@) ==> regex_text(self@) == plain_regex_text(self@),
        decreases self, 1int,
    {
        let ghost start = out@;
        match self {
            Regex::Char(c) => {
                let e = escape_debug_of(*c);
                push_str(out, e.as_str());
            },
            Regex::CharRange(range) => range.push_text(out),
            Regex::CharClass(cc) => cc.push_text(out),
            Regex::Sequence(parts) => {
                proof { reveal_strlit(""); }
                push_regexes(out, parts, "");
                assert(""@ =~= Seq::<char>::empty());
            },
            Regex::Alt(parts) => {
                proof {
                    lemma_regexes_view(parts@);
                    reveal_strlit("|");
                }
                if parts.len() == 1 {
                    proof { assert(decreases_to!(*parts => parts@[0])); }
                    parts[0].push_text(out);
                    proof {
                        if all_plain(self@) {
                            lemma_all_plain_parts(regexes_view(parts@), 0);
                        }
                    }
                } else {
                    push_char(out, '(');
                    push_regexes(out, parts, "|");
                    push_char(out, ')');
                    assert("|"@ =~= seq!['|']);
                    assert(out@ =~= start + regex_text(self@));
                    assert(all_plain(self@) ==> regex_text(self@) =~= plain_regex_text(self@));
                }
            },
            Regex::Star(inner) => push_operator_text(out, inner, '*'),
            Regex::Plus(inner) => push_operator_text(out, inner, '+'),
            Regex::Opt(inner) => push_operator_text(out, inner, '?'),
            Regex::Epsilon => push_char(out, 'ε'),
            Regex::Identifier(id) => push_str(out, id.name.as_str()),
        }
        assert(out@ =~= start + regex_text(self@));
    }

    /// The text of this regex, as grammar dumps print it; where every
    /// character it names is plain printable ASCII, each prints as itself.
    pub fn to_string(&self) -> (s: String)
        ensures
            s@ == regex_text(self@),
            all_plain(self@) ==> s@ == plain_regex_text(self@),
    {
        let mut s = String::new();
        self.push_text(&mut s);
        assert(s@ =~= regex_text(self@));
        s
    }
}

fn push_operator_text(out: &mut String, inner: &Regex, op: char)
    ensures
        final(out)@ == old(out)@ + operator_text(inner@, op),
        all_plain(inner@) ==> operator_text(inner@, op) == plain_operator_text(inner@, op),
    decreases inner, 2int,
{
    let ghost start = out@;
    if needs_grouping(inner) {
        push_char(out, '(');
        inner.push_text(out);
        push_char(out, ')');
        push_char(out, op);
    } else {
        inner.push_text(out);
        push_char(out, op);
    }
    assert(out@ =~= start + operator_text(inner@, op));
    assert(all_plain(inner@) ==> operator_text(inner@, op) =~= plain_operator_text(inner@, op));
}

// ---------------------------------------------------------------------------
// Copies

impl Clone for CharClass {
    fn clone(&self) -> (r: Self)
        ensures
            r@ == self@,
    {
        CharClass { ranges: self.ranges.clone(), negated: self.negated }
    }
}

/// A copy of a list of regexes.
pub fn clone_regexes(parts: &Vec<Regex>) -> (r: Vec<Regex>)
    ensures
        regexes_view(r@) == regexes_view(parts@),
    decreases parts, 0int,
{
    let mut out: Vec<Regex> = Vec::new();
    let mut i: usize = 0;
    while i < parts.len()
        invariant
            0 <= i <= parts@.len(),
            regexes_view(out@) == regexes_view(parts@.take(i as int)),
        decreases parts@.len() - i,
    {
        proof {
            assert(decreases_to!(*parts => parts@[i as int]));
        }
        let e = parts[i].clone();
        let ghost prev = out@;
        out.push(e);
        proof {
            assert(out@.drop_last() =~= prev);
            assert(parts@.take(i + 1).drop_last() =~= parts@.take(i as int));
        }
        i += 1;
    }
    assert(parts@.take(parts@.len() as int) =~= parts@);
    out
}

impl Clone for Regex {
    fn clone(&self) -> (r: Self)
        ensures
            r@ == self@,
        decreases self, 1int,
    {
        match self {
            Regex::Char(c) => Regex::Char(*c),
            Regex::CharRange(range) => Regex::CharRange(*range),
            Regex::CharClass(cc) => Regex::CharClass(cc.clone()),
            Regex::Sequence(parts) => Regex::Sequence(clone_regexes(parts)),
            Regex::Alt(parts) => Regex::Alt(clone_regexes(parts)),
            Regex::Star(inner) => Regex::Star(Box::new((**inner).clone())),
            Regex::Plus(inner) => Regex::Plus(Box::new((**inner).clone())),
            Regex::Opt(inner) => Regex::Opt(Box::new((**inner).clone())),
            Regex::Epsilon => Regex::Epsilon,
            Regex::Identifier(id) => Regex::Identifier(id.clone()),
        }
    }
}

} // verus!
