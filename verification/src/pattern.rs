//! Whole-word matching of a literal text inside a line, done by the `regex`
//! crate: the text is escaped, wrapped in word-boundary assertions, compiled
//! once and then matched against each line.
use vstd::prelude::*;

verus! {

#[verifier::external_type_specification]
#[verifier::external_body]
pub struct ExRegex(regex::Regex);

/// A regular expression meta character (`regex_syntax::is_meta_character`).
pub open spec fn is_meta_character(c: char) -> bool {
    c == '\\' || c == '.' || c == '+' || c == '*' || c == '?' || c == '(' || c == ')' || c == '|'
        || c == '[' || c == ']' || c == '{' || c == '}' || c == '^' || c == '$' || c == '#' || c
        == '&' || c == '-' || c == '~'
}

/// `text` with a backslash before each meta character: what `regex::escape`
/// returns.
pub open spec fn regex_escape_of(text: Seq<char>) -> Seq<char>
    decreases text.len(),
{
    if text.len() == 0 {
        seq![]
    } else if is_meta_character(text.last()) {
        regex_escape_of(text.drop_last()) + seq!['\\', text.last()]
    } else {
        regex_escape_of(text.drop_last()).push(text.last())
    }
}

/// Whether `regex::Regex::new` accepts `pattern` (it refuses invalid patterns
/// and patterns whose compiled form exceeds the default size limit).
pub uninterp spec fn regex_compiles(pattern: Seq<char>) -> bool;

/// What `regex::Regex::is_match` returns for the regex compiled from
/// `pattern` on `haystack`: whether it matches anywhere in it.
pub uninterp spec fn regex_is_match(pattern: Seq<char>, haystack: Seq<char>) -> bool;

/// A regular expression compiled by the `regex` crate, together with the
/// pattern it was compiled from. Only `compile` builds one.
pub struct CompiledPattern {
    source: String,
    regex: regex::Regex,
}

impl View for CompiledPattern {
    type V = Seq<char>;

    /// The pattern the regular expression was compiled from.
    closed spec fn view(&self) -> Seq<char> {
        self.source@
    }
}

/// `regex::escape` (which calls `regex_syntax::escape`): the claim is what its
/// source does, a backslash pushed before every meta character of the text
/// and every character kept in order.
#[verifier::external_body]
fn escape(text: &str) -> (escaped: String)
    ensures
        escaped@ == regex_escape_of(text@),
{
    regex::escape(text)
}

/// `regex::Regex::new`: the claim is that it succeeds exactly when
/// `regex_compiles` holds of the pattern, and that the compiled value
/// remembers the pattern it came from.
#[verifier::external_body]
fn compile(pattern: &str) -> (compiled: Option<CompiledPattern>)
    ensures
        compiled is Some <==> regex_compiles(pattern@),
        compiled matches Some(c) ==> c@ == pattern@,
{
    match regex::Regex::new(pattern) {
        Ok(regex) => Some(CompiledPattern { source: pattern.to_string(), regex }),
        Err(_) => None,
    }
}

/// `regex::Regex::is_match`: the claim is that the result is
/// `regex_is_match` of the compiled pattern and the haystack, and that a
/// whole-word pattern never matches the empty haystack (the documented `\b`
/// needs a word character on one side, and the empty haystack has none).
#[verifier::external_body]
fn is_match(compiled: &CompiledPattern, haystack: &str) -> (found: bool)
    ensures
        found == regex_is_match(compiled@, haystack@),
        is_word_pattern(compiled@) && haystack@.len() == 0 ==> !found,
{
    compiled.regex.is_match(haystack)
}

/// The pattern `\b<escaped>\b`: an already escaped text between two
/// word-boundary assertions.
pub open spec fn word_bounded(escaped: Seq<char>) -> Seq<char> {
    seq!['\\', 'b'] + escaped + seq!['\\', 'b']
}

/// The pattern is the whole-word pattern of some text.
pub open spec fn is_word_pattern(pattern: Seq<char>) -> bool {
    exists|text: Seq<char>| pattern == #[trigger] word_pattern(text)
}

/// The pattern that matches `text` literally as a whole word.
pub open spec fn word_pattern(text: Seq<char>) -> Seq<char> {
    word_bounded(regex_escape_of(text))
}

/// Whether a line contains `text` as a whole word, as the `regex` crate
/// decides it; false when the pattern does not compile, and false on the
/// empty line, where a word boundary cannot match.
pub open spec fn contains_word(text: Seq<char>, line: Seq<char>) -> bool {
    line.len() > 0 && regex_compiles(word_pattern(text)) && regex_is_match(word_pattern(text), line)
}

/// The pattern `\b<escaped>\b` for an already escaped text.
pub fn word_bounded_pattern(escaped: &str) -> (pattern: String)
    ensures
        pattern@ == word_bounded(escaped@),
{
    let mut chars: Vec<char> = Vec::new();
    chars.push('\\');
    chars.push('b');
    let body = crate::text::chars_of(escaped);
    crate::text::extend_chars(&mut chars, &body);
    chars.push('\\');
    chars.push('b');
    assert(chars@ =~= word_bounded(escaped@));
    crate::text::string_of(&chars)
}

/// Compiles the whole-word pattern for `text`; `None` when the `regex`
/// crate refuses it.
pub fn compile_word_pattern(text: &str) -> (compiled: Option<CompiledPattern>)
    ensures
        compiled is Some <==> regex_compiles(word_pattern(text@)),
        compiled matches Some(c) ==> c@ == word_pattern(text@),
{
    let escaped = escape(text);
    let pattern = word_bounded_pattern(escaped.as_str());
    compile(pattern.as_str())
}

/// Whether the compiled whole-word pattern matches anywhere in `line`
/// (never in the empty line).
pub fn matches_line(compiled: &CompiledPattern, line: &Vec<char>) -> (found: bool)
    requires
        is_word_pattern(compiled@),
    ensures
        found == regex_is_match(compiled@, line@),
        found == (line@.len() > 0 && regex_is_match(compiled@, line@)),
{
    let haystack = crate::text::string_of(line);
    is_match(compiled, haystack.as_str())
}

} // verus!

verus! {

/// The text that an escaped pattern stands for: a backslash makes the
/// character after it literal; every other character stands for itself.
pub open spec fn unescape(s: Seq<char>) -> Seq<char>
    decreases s.len(),
{
    if s.len() == 0 {
        seq![]
    } else if s[0] == '\\' && s.len() >= 2 {
        seq![s[1]] + unescape(s.skip(2))
    } else {
        seq![s[0]] + unescape(s.drop_first())
    }
}

/// Escaping a concatenation escapes each part.
proof fn lemma_escape_concat(a: Seq<char>, b: Seq<char>)
    ensures
        regex_escape_of(a + b) == regex_escape_of(a) + regex_escape_of(b),
    decreases b.len(),
{
    if b.len() == 0 {
        assert(a + b =~= a);
        assert(regex_escape_of(a) + seq![] =~= regex_escape_of(a));
    } else {
        let c = b.last();
        lemma_escape_concat(a, b.drop_last());
        assert((a + b).drop_last() =~= a + b.drop_last());
        assert((a + b).last() == c);
        if is_meta_character(c) {
            assert(regex_escape_of(a) + regex_escape_of(b.drop_last()) + seq!['\\', c] =~= regex_escape_of(a)
                + (regex_escape_of(b.drop_last()) + seq!['\\', c]));
        } else {
            assert(regex_escape_of(a) + regex_escape_of(b.drop_last()).push(c) =~= (regex_escape_of(a)
                + regex_escape_of(b.drop_last())).push(c));
        }
    }
}

/// Escaping is undone by reading the pattern literally: the escaped text
/// stands for exactly the original text.
pub proof fn law_escape_round_trip(t: Seq<char>)
    ensures
        unescape(regex_escape_of(t)) == t,
    decreases t.len(),
{
    if t.len() > 0 {
        let c = t[0];
        let rest = t.drop_first();
        assert(seq![c] + rest =~= t);
        lemma_escape_concat(seq![c], rest);
        law_escape_round_trip(rest);
        let ec = regex_escape_of(seq![c]);
        assert(seq![c].drop_last() =~= Seq::<char>::empty());
        assert(seq![c].last() == c);
        assert(regex_escape_of(seq![c].drop_last()) == Seq::<char>::empty());
        let e = ec + regex_escape_of(rest);
        if is_meta_character(c) {
            assert(ec == Seq::<char>::empty() + seq!['\\', c]);
            assert(ec =~= seq!['\\', c]);
            assert(e[0] == '\\' && e[1] == c);
            assert(e.skip(2) =~= regex_escape_of(rest));
        } else {
            assert(ec == Seq::<char>::empty().push(c));
            assert(ec =~= seq![c]);
            assert(c != '\\');
            assert(e[0] == c);
            assert(e.drop_first() =~= regex_escape_of(rest));
        }
    }
}

/// The line-mode pattern for `text` is the text read literally between two
/// word boundaries: it starts and ends with `\b`, and what stands between
/// them stands for exactly `text` (no flag, group or other operator).
pub proof fn law_word_pattern_is_literal(text: Seq<char>)
    ensures
        word_pattern(text).len() >= 4,
        word_pattern(text).take(2) == seq!['\\', 'b'],
        word_pattern(text).skip(word_pattern(text).len() - 2) == seq!['\\', 'b'],
        unescape(word_pattern(text).subrange(2, word_pattern(text).len() - 2)) == text,
{
    let p = word_pattern(text);
    let e = regex_escape_of(text);
    assert(p.take(2) =~= seq!['\\', 'b']);
    assert(p.skip(p.len() - 2) =~= seq!['\\', 'b']);
    assert(p.subrange(2, p.len() - 2) =~= e);
    law_escape_round_trip(text);
}

} // verus!
