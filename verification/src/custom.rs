//! Replacement rules (`OLD=NEW[:mode]`) and their application to a text,
//! line by line.
use vstd::prelude::*;

use crate::pattern::{
    compile_word_pattern, contains_word, is_word_pattern, matches_line, regex_compiles, word_pattern,
};
use crate::text::{
    chars_of, line_scan, strip_cr, join_lines, join_with_newlines, lines_of, replace_all, replace_chars, split_lines,
    string_of,
};

verus! {

broadcast use crate::text::lemma_char_vec_deep_view;

/// One replacement rule: `old` is replaced by `new`. In mode `"line"` every
/// line that contains `old` as a whole word becomes `new`; in any other mode
/// (`"token"` is the one the parser writes) every occurrence of `old` inside
/// a line becomes `new`.
#[derive(Debug, Clone)]
pub struct Replacement {
    pub old: String,
    pub new: String,
    pub mode: String,
}

/// `"line"`
pub open spec fn line_mode() -> Seq<char> {
    seq!['l', 'i', 'n', 'e']
}

/// `"token"`
pub open spec fn token_mode() -> Seq<char> {
    seq!['t', 'o', 'k', 'e', 'n']
}

/// `":line"`
pub open spec fn line_suffix() -> Seq<char> {
    seq![':'] + line_mode()
}

/// `":token"`
pub open spec fn token_suffix() -> Seq<char> {
    seq![':'] + token_mode()
}

/// The message of a rule without `'='`.
pub open spec fn missing_equals_message() -> Seq<char> {
    "invalid replace pair"@
}

/// The index of the first `c` in `s`; `s.len()` when `c` does not occur.
pub open spec fn first_index(s: Seq<char>, c: char) -> int
    decreases s.len(),
{
    if s.len() == 0 {
        0
    } else if s[0] == c {
        0
    } else {
        1 + first_index(s.drop_first(), c)
    }
}

/// `s` split at its first `c`: what stands before it and what stands after
/// it; `None` when `c` does not occur (`str::split_once`).
pub open spec fn split_once(s: Seq<char>, c: char) -> Option<(Seq<char>, Seq<char>)> {
    let i = first_index(s, c);
    if i < s.len() {
        Some((s.take(i), s.skip(i + 1)))
    } else {
        None
    }
}

/// `first_index` is the first position of `c`, or the length when there is none.
proof fn lemma_first_index(s: Seq<char>, c: char)
    ensures
        0 <= first_index(s, c) <= s.len(),
        first_index(s, c) < s.len() ==> s[first_index(s, c)] == c,
        forall|j: int| 0 <= j < first_index(s, c) ==> s[j] != c,
    decreases s.len(),
{
    if s.len() > 0 && s[0] != c {
        lemma_first_index(s.drop_first(), c);
        assert forall|j: int| 0 <= j < first_index(s, c) implies s[j] != c by {
            if j > 0 {
                assert(s[j] == s.drop_first()[j - 1]);
            }
        }
    }
}

/// Splitting at the first occurrence of `c`, found at index `i`.
proof fn lemma_split_once_at(s: Seq<char>, c: char, i: int)
    requires
        0 <= i < s.len(),
        s[i] == c,
        forall|j: int| 0 <= j < i ==> s[j] != c,
    ensures
        split_once(s, c) == Some((s.take(i), s.skip(i + 1))),
{
    lemma_first_index(s, c);
}

/// Without `c` in `s` there is no split.
proof fn lemma_split_once_none(s: Seq<char>, c: char)
    requires
        forall|j: int| 0 <= j < s.len() ==> s[j] != c,
    ensures
        split_once(s, c) is None,
{
    lemma_first_index(s, c);
}

/// The rule that `s` describes, as `(old, new, mode)`: `old` is what stands
/// before the first `'='`; a final `":line"` or `":token"` after it sets the
/// mode and is no part of `new`; without either suffix the mode is `"token"`.
/// `None` when `s` holds no `'='`.
pub open spec fn parse_rule(s: Seq<char>) -> Option<(Seq<char>, Seq<char>, Seq<char>)> {
    match split_once(s, '=') {
        None => None,
        Some((old, rest)) => if line_suffix().is_suffix_of(rest) {
            Some((old, rest.take(rest.len() - line_suffix().len()), line_mode()))
        } else if token_suffix().is_suffix_of(rest) {
            Some((old, rest.take(rest.len() - token_suffix().len()), token_mode()))
        } else {
            Some((old, rest, token_mode()))
        },
    }
}

/// A rule in line mode replaces whole lines.
pub open spec fn is_line_mode(mode: Seq<char>) -> bool {
    mode == line_mode()
}

/// A line after one rule.
pub open spec fn rewrite_line(line: Seq<char>, rep: Replacement) -> Seq<char> {
    if is_line_mode(rep.mode@) {
        if contains_word(rep.old@, line) {
            rep.new@
        } else {
            line
        }
    } else {
        replace_all(line, rep.old@, rep.new@)
    }
}

/// A line after all rules, applied in order.
pub open spec fn rewrite_line_all(line: Seq<char>, reps: Seq<Replacement>) -> Seq<char>
    decreases reps.len(),
{
    if reps.len() == 0 {
        line
    } else {
        rewrite_line(rewrite_line_all(line, reps.drop_last()), reps.last())
    }
}

/// The text after all rules: its lines, each rewritten, joined with `'\n'`.
pub open spec fn replaced_text(content: Seq<char>, reps: Seq<Replacement>) -> Seq<char> {
    join_lines(lines_of(content).map_values(|line: Seq<char>| rewrite_line_all(line, reps)))
}

/// The index of the first `c` in `v`, if any.
fn find_char(v: &Vec<char>, c: char) -> (r: Option<usize>)
    ensures
        r matches Some(i) ==> i < v.len() && v@[i as int] == c && forall|j: int|
            0 <= j < i ==> v@[j] != c,
        r is None ==> forall|j: int| 0 <= j < v.len() ==> v@[j] != c,
{
    let mut i: usize = 0;
    while i < v.len()
        invariant
            i <= v.len(),
            forall|j: int| 0 <= j < i ==> v@[j] != c,
        decreases v.len() - i,
    {
        if v[i] == c {
            return Some(i);
        }
        i = i + 1;
    }
    None
}

/// Whether `suffix` ends `v`.
fn ends_with(v: &Vec<char>, suffix: &Vec<char>) -> (r: bool)
    ensures
        r == suffix@.is_suffix_of(v@),
{
    if suffix.len() > v.len() {
        return false;
    }
    let start = v.len() - suffix.len();
    let mut k: usize = 0;
    while k < suffix.len()
        invariant
            k <= suffix.len(),
            start + suffix.len() == v.len(),
            forall|j: int| 0 <= j < k ==> v@[start + j] == suffix@[j],
        decreases suffix.len() - k,
    {
        if v[start + k] != suffix[k] {
            assert(v@.subrange(start as int, v.len() as int)[k as int] != suffix@[k as int]);
            return false;
        }
        k = k + 1;
    }
    assert(suffix@ =~= v@.subrange(start as int, v.len() as int));
    true
}

/// The characters `v[from..to]`.
fn slice_chars(v: &Vec<char>, from: usize, to: usize) -> (r: Vec<char>)
    requires
        from <= to <= v.len(),
    ensures
        r@ == v@.subrange(from as int, to as int),
{
    let mut r: Vec<char> = Vec::new();
    let mut i: usize = from;
    while i < to
        invariant
            from <= i <= to <= v.len(),
            r@ == v@.subrange(from as int, i as int),
        decreases to - i,
    {
        r.push(v[i]);
        i = i + 1;
        assert(r@ =~= v@.subrange(from as int, i as int));
    }
    r
}

impl Replacement {
    /// Parses a rule written `OLD=NEW`, `OLD=NEW:line` or `OLD=NEW:token`.
    /// The text before the first `'='` is `OLD`; the error is
    /// `"invalid replace pair"` when there is no `'='`.
    pub fn parse(s: &str) -> (r: Result<Replacement, String>)
        ensures
            r is Err <==> parse_rule(s@) is None,
            r matches Err(msg) ==> msg@ == missing_equals_message(),
            r matches Ok(rep) ==> parse_rule(s@) == Some((rep.old@, rep.new@, rep.mode@)),
    {
        let chars = chars_of(s);
        match find_char(&chars, '=') {
            None => {
                proof {
                    lemma_split_once_none(s@, '=');
                }
                Err("invalid replace pair".to_string())
            },
            Some(i) => {
                proof {
                    lemma_split_once_at(s@, '=', i as int);
                }
                let old = slice_chars(&chars, 0, i);
                let rest = slice_chars(&chars, i + 1, chars.len());
                assert(old@ == s@.take(i as int));
                assert(rest@ == s@.skip(i + 1));
                let line_suffix_chars: Vec<char> = vec![':', 'l', 'i', 'n', 'e'];
                let token_suffix_chars: Vec<char> = vec![':', 't', 'o', 'k', 'e', 'n'];
                assert(line_suffix_chars@ =~= line_suffix());
                assert(token_suffix_chars@ =~= token_suffix());
                assert(split_once(s@, '=') == Some((s@.take(i as int), s@.skip(i + 1))));
                let (new_chars, mode) = if ends_with(&rest, &line_suffix_chars) {
                    let m: Vec<char> = vec!['l', 'i', 'n', 'e'];
                    assert(m@ =~= line_mode());
                    (slice_chars(&rest, 0, rest.len() - 5), m)
                } else if ends_with(&rest, &token_suffix_chars) {
                    let m: Vec<char> = vec!['t', 'o', 'k', 'e', 'n'];
                    assert(m@ =~= token_mode());
                    (slice_chars(&rest, 0, rest.len() - 6), m)
                } else {
                    let m: Vec<char> = vec!['t', 'o', 'k', 'e', 'n'];
                    assert(m@ =~= token_mode());
                    assert(rest@.subrange(0, rest@.len() as int) == rest@);
                    (slice_chars(&rest, 0, rest.len()), m)
                };
                assert(parse_rule(s@) == Some((old@, new_chars@, mode@)));
                Ok(Replacement {
                    old: string_of(&old),
                    new: string_of(&new_chars),
                    mode: string_of(&mode),
                })
            },
        }
    }
}

impl std::str::FromStr for Replacement {
    type Err = String;

    fn from_str(s: &str) -> (r: Result<Self, Self::Err>)
        ensures
            r is Err <==> parse_rule(s@) is None,
            r matches Err(msg) ==> msg@ == missing_equals_message(),
            r matches Ok(rep) ==> parse_rule(s@) == Some((rep.old@, rep.new@, rep.mode@)),
    {
        Replacement::parse(s)
    }
}

/// Whether the mode is `"line"`.
fn mode_is_line(mode: &String) -> (r: bool)
    ensures
        r == is_line_mode(mode@),
{
    let chars = chars_of(mode.as_str());
    let expected: Vec<char> = vec!['l', 'i', 'n', 'e'];
    assert(expected@ =~= line_mode());
    crate::text::chars_equal(&chars, &expected)
}

/// A line under a line-mode rule, given whether the rule's whole-word
/// pattern matched it: `new` when it did, the line unchanged otherwise.
pub fn replace_line_if(line: &Vec<char>, new: &Vec<char>, matched: bool) -> (r: Vec<char>)
    ensures
        r@ == (if matched {
            new@
        } else {
            line@
        }),
{
    if matched {
        crate::text::copy_chars(new)
    } else {
        crate::text::copy_chars(line)
    }
}

/// The text with every rule applied to every line: the lines of `content`
/// (as `str::lines` yields them), each rewritten by the rules in order,
/// joined with `'\n'`.
pub fn apply_replacements(content: &str, replacements: &[Replacement]) -> (r: String)
    ensures
        r@ == replaced_text(content@, replacements@),
{
    let content_chars = chars_of(content);
    let mut lines = split_lines(&content_chars);
    let ghost original = lines.deep_view();
    let mut k: usize = 0;
    while k < replacements.len()
        invariant
            k <= replacements.len(),
            original == lines_of(content@),
            lines.deep_view().len() == original.len(),
            forall|j: int|
                0 <= j < original.len() ==> #[trigger] lines.deep_view()[j] == rewrite_line_all(
                    original[j],
                    replacements@.take(k as int),
                ),
        decreases replacements.len() - k,
    {
        let rep = &replacements[k];
        let line_rule = mode_is_line(&rep.mode);
        let compiled = if line_rule {
            compile_word_pattern(rep.old.as_str())
        } else {
            None
        };
        let old = chars_of(rep.old.as_str());
        let new = chars_of(rep.new.as_str());
        let ghost before = lines.deep_view();
        let mut j: usize = 0;
        while j < lines.len()
            invariant
                j <= lines.len(),
                k < replacements.len(),
                lines.deep_view().len() == before.len(),
                rep == replacements@[k as int],
                line_rule == is_line_mode(rep.mode@),
                old@ == rep.old@,
                new@ == rep.new@,
                line_rule ==> (compiled is Some <==> regex_compiles(word_pattern(rep.old@))),
                compiled matches Some(c) ==> c@ == word_pattern(rep.old@),
                forall|i: int| j <= i < before.len() ==> #[trigger] lines.deep_view()[i] == before[i],
                forall|i: int|
                    0 <= i < j ==> #[trigger] lines.deep_view()[i] == rewrite_line(before[i], *rep),
            decreases lines.len() - j,
        {
            let ghost dv = lines.deep_view();
            assert(lines@[j as int]@ == before[j as int]) by {
                assert(dv[j as int] == lines@[j as int].deep_view());
            }
            let updated = if line_rule {
                match &compiled {
                    Some(c) => {
                        assert(is_word_pattern(c@)) by {
                            assert(c@ == word_pattern(rep.old@));
                        }
                        let matched = matches_line(c, &lines[j]);
                        replace_line_if(&lines[j], &new, matched)
                    },
                    None => crate::text::copy_chars(&lines[j]),
                }
            } else {
                replace_chars(&lines[j], &old, &new)
            };
            assert(updated@ == rewrite_line(before[j as int], *rep));
            lines.set(j, updated);
            assert(lines.deep_view() =~= dv.update(j as int, rewrite_line(before[j as int], *rep)));
            j = j + 1;
        }
        proof {
            assert forall|i: int| 0 <= i < original.len() implies #[trigger] lines.deep_view()[i]
                == rewrite_line_all(original[i], replacements@.take(k + 1)) by {
                assert(replacements@.take(k + 1).drop_last() == replacements@.take(k as int));
                assert(replacements@.take(k + 1).last() == replacements@[k as int]);
            }
        }
        k = k + 1;
    }
    assert(replacements@.take(replacements.len() as int) == replacements@);
    assert(lines.deep_view() =~= lines_of(content@).map_values(
        |line: Seq<char>| rewrite_line_all(line, replacements@),
    ));
    let joined = join_with_newlines(&lines);
    string_of(&joined)
}

} // verus!

verus! {

/// Writing a rule as `OLD=NEW:MODE`, with no `'='` in `OLD` and a mode of
/// `"line"` or `"token"`, and parsing it gives the rule back.
pub proof fn law_rule_round_trip(old: Seq<char>, new: Seq<char>, mode: Seq<char>)
    requires
        !old.contains('='),
        mode == line_mode() || mode == token_mode(),
    ensures
        parse_rule(old + seq!['='] + new + seq![':'] + mode) == Some((old, new, mode)),
{
    let s = old + seq!['='] + new + seq![':'] + mode;
    let i = old.len() as int;
    assert forall|j: int| 0 <= j < i implies s[j] != '=' by {
        assert(s[j] == old[j]);
    }
    assert(s[i] == '=');
    lemma_split_once_at(s, '=', i);
    let rest = s.skip(i + 1);
    assert(rest =~= new + seq![':'] + mode);
    if mode == line_mode() {
        assert(line_suffix().is_suffix_of(rest)) by {
            assert(rest.subrange(rest.len() - 5, rest.len() as int) =~= line_suffix());
        }
        assert(rest.take(rest.len() - 5) =~= new);
    } else {
        assert(!line_suffix().is_suffix_of(rest)) by {
            assert(rest[rest.len() - 5] == 't');
            assert(rest.subrange(rest.len() - 5, rest.len() as int)[0] == 't');
        }
        assert(token_suffix().is_suffix_of(rest)) by {
            assert(rest.subrange(rest.len() - 6, rest.len() as int) =~= token_suffix());
        }
        assert(rest.take(rest.len() - 6) =~= new);
    }
}

/// A rule written `OLD=NEW`, with no `'='` in `OLD` and no mode suffix on
/// `NEW`, is a token rule replacing `OLD` by `NEW`.
pub proof fn law_rule_default_token(old: Seq<char>, new: Seq<char>)
    requires
        !old.contains('='),
        !line_suffix().is_suffix_of(new),
        !token_suffix().is_suffix_of(new),
    ensures
        parse_rule(old + seq!['='] + new) == Some((old, new, token_mode())),
{
    let s = old + seq!['='] + new;
    let i = old.len() as int;
    assert forall|j: int| 0 <= j < i implies s[j] != '=' by {
        assert(s[j] == old[j]);
    }
    assert(s[i] == '=');
    lemma_split_once_at(s, '=', i);
    assert(s.skip(i + 1) =~= new);
}

/// Parsing fails exactly on the texts that hold no `'='`.
pub proof fn law_rule_needs_equals(s: Seq<char>)
    ensures
        parse_rule(s) is None <==> !s.contains('='),
{
    lemma_first_index(s, '=');
    if s.contains('=') {
        let j = choose|j: int| 0 <= j < s.len() && s[j] == '=';
        assert(first_index(s, '=') <= j);
    }
}

/// A token rule whose `old` equals its `new` leaves every line unchanged.
pub proof fn law_token_rule_identity(line: Seq<char>, rep: Replacement)
    requires
        !is_line_mode(rep.mode@),
        rep.old@ == rep.new@,
    ensures
        rewrite_line(line, rep) == line,
{
    crate::text::law_replace_with_itself(line, rep.old@);
}

/// A token rule whose `old` text is not empty and does not occur in a line
/// leaves that line unchanged.
pub proof fn law_token_rule_absent(line: Seq<char>, rep: Replacement)
    requires
        !is_line_mode(rep.mode@),
        rep.old@.len() > 0,
        forall|i: int| !crate::text::occurs_at(line, rep.old@, i),
    ensures
        rewrite_line(line, rep) == line,
{
    crate::text::law_replace_absent(line, rep.old@, rep.new@);
}

/// Without rules, a text that holds no `"\r\n"` and does not end with a
/// newline comes out unchanged.
pub proof fn law_no_rules_identity(content: Seq<char>)
    requires
        crate::text::has_no_crlf(content),
        content.len() == 0 || content.last() != '\n',
    ensures
        replaced_text(content, seq![]) == content,
{
    let ls = lines_of(content);
    assert(ls.map_values(|line: Seq<char>| rewrite_line_all(line, seq![])) =~= ls);
    crate::text::law_lines_join_round_trip(content);
}

/// The lines that `str::lines` yields hold no `'\n'`.
proof fn lemma_scan_has_no_newline(s: Seq<char>)
    ensures
        forall|i: int| 0 <= i < line_scan(s).0.len() ==> !(#[trigger] line_scan(s).0[i]).contains('\n'),
        !line_scan(s).1.contains('\n'),
    decreases s.len(),
{
    if s.len() > 0 {
        lemma_scan_has_no_newline(s.drop_last());
        let (done, open) = line_scan(s.drop_last());
        if s.last() == '\n' {
            assert(!strip_cr(open).contains('\n')) by {
                if strip_cr(open).contains('\n') {
                    let k = choose|k: int| 0 <= k < strip_cr(open).len() && strip_cr(open)[k] == '\n';
                    assert(open[k] == '\n');
                }
            }
            assert forall|i: int| 0 <= i < line_scan(s).0.len() implies !(#[trigger] line_scan(
                s,
            ).0[i]).contains('\n') by {
                if i < done.len() {
                    assert(line_scan(s).0[i] == done[i]);
                }
            }
            assert(line_scan(s).1 =~= Seq::<char>::empty());
        } else {
            assert(!open.push(s.last()).contains('\n')) by {
                if open.push(s.last()).contains('\n') {
                    let k = choose|k: int| 0 <= k < open.push(s.last()).len() && open.push(s.last())[k] == '\n';
                    if k < open.len() {
                        assert(open[k] == '\n');
                    }
                }
            }
        }
    }
}

/// A text without `'\n'` is scanned as one open line.
proof fn lemma_scan_single_line(t: Seq<char>)
    requires
        !t.contains('\n'),
    ensures
        line_scan(t) == (Seq::<Seq<char>>::empty(), t),
    decreases t.len(),
{
    if t.len() > 0 {
        assert(!t.drop_last().contains('\n')) by {
            if t.drop_last().contains('\n') {
                let k = choose|k: int| 0 <= k < t.drop_last().len() && t.drop_last()[k] == '\n';
                assert(t[k] == '\n');
            }
        }
        lemma_scan_single_line(t.drop_last());
        assert(t[t.len() - 1] != '\n');
        assert(t.drop_last().push(t.last()) =~= t);
    } else {
        assert(t =~= Seq::<char>::empty());
    }
}

/// Rules leave the empty line empty when no token rule has an empty `old`.
proof fn lemma_empty_line_stays(reps: Seq<Replacement>)
    requires
        forall|k: int| 0 <= k < reps.len() && !is_line_mode(#[trigger] reps[k].mode@) ==> reps[k].old@.len() > 0,
    ensures
        rewrite_line_all(Seq::<char>::empty(), reps) == Seq::<char>::empty(),
    decreases reps.len(),
{
    if reps.len() > 0 {
        let rest = reps.drop_last();
        assert forall|k: int| 0 <= k < rest.len() && !is_line_mode(#[trigger] rest[k].mode@) implies rest[k].old@.len() > 0 by {
            assert(rest[k] == reps[k]);
        }
        lemma_empty_line_stays(rest);
        let last = reps.last();
        assert(reps[reps.len() - 1] == last);
    }
}

/// Each line of the result depends on its own source line alone: applying
/// the rules to the whole text is applying them to each of its lines on its
/// own and joining the results with `'\n'`, provided no token rule has an
/// empty `old` (an empty `old` would insert into empty lines, which a line
/// taken on its own does not have).
pub proof fn law_lines_rewritten_separately(content: Seq<char>, reps: Seq<Replacement>)
    requires
        forall|k: int| 0 <= k < reps.len() && !is_line_mode(#[trigger] reps[k].mode@) ==> reps[k].old@.len() > 0,
    ensures
        replaced_text(content, reps) == join_lines(
            lines_of(content).map_values(|line: Seq<char>| replaced_text(line, reps)),
        ),
{
    let ls = lines_of(content);
    lemma_scan_has_no_newline(content);
    lemma_empty_line_stays(reps);
    assert forall|i: int| 0 <= i < ls.len() implies #[trigger] replaced_text(ls[i], reps)
        == rewrite_line_all(ls[i], reps) by {
        let (done, open) = line_scan(content);
        assert(!ls[i].contains('\n')) by {
            if i < done.len() {
                assert(ls[i] == done[i]);
            }
        }
        lemma_scan_single_line(ls[i]);
        if ls[i].len() == 0 {
            assert(lines_of(ls[i]) =~= Seq::<Seq<char>>::empty());
            assert(ls[i] =~= Seq::<char>::empty());
        } else {
            assert(lines_of(ls[i]) == seq![ls[i]]);
            assert(lines_of(ls[i]).map_values(|line: Seq<char>| rewrite_line_all(line, reps)) =~= seq![
                rewrite_line_all(ls[i], reps),
            ]);
        }
    }
    assert(ls.map_values(|line: Seq<char>| replaced_text(line, reps)) =~= ls.map_values(
        |line: Seq<char>| rewrite_line_all(line, reps),
    ));
}

} // verus!
