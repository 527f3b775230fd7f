//! Character-level text operations: splitting into lines, joining lines,
//! substring replacement and trimming, each with the mathematical function
//! over `Seq<char>` that it computes.
use vstd::prelude::*;

verus! {

// ---------------------------------------------------------------------------
// Specifications
// ---------------------------------------------------------------------------

/// `line` without one trailing carriage return, if it has one.
pub open spec fn strip_cr(line: Seq<char>) -> Seq<char> {
    if line.len() > 0 && line.last() == '\r' {
        line.drop_last()
    } else {
        line
    }
}

/// Scanning `s` from the left: the lines finished so far (each one closed
/// by a `'\n'`, with a `"\r\n"` ending removed), and the characters of the
/// line that is still open.
pub open spec fn line_scan(s: Seq<char>) -> (Seq<Seq<char>>, Seq<char>)
    decreases s.len(),
{
    if s.len() == 0 {
        (seq![], seq![])
    } else {
        let (done, open) = line_scan(s.drop_last());
        if s.last() == '\n' {
            (done.push(strip_cr(open)), seq![])
        } else {
            (done, open.push(s.last()))
        }
    }
}

/// The lines of `s`, as `str::lines` yields them: split at `'\n'`, a
/// `"\r\n"` ending counts as one line ending, and a final line ending is
/// optional (a last line that is not closed by `'\n'` keeps a trailing
/// `'\r'`; an empty last piece is no line).
pub open spec fn lines_of(s: Seq<char>) -> Seq<Seq<char>> {
    let (done, open) = line_scan(s);
    if open.len() == 0 {
        done
    } else {
        done.push(open)
    }
}

/// The lines joined with `'\n'` between each two of them.
pub open spec fn join_lines(lines: Seq<Seq<char>>) -> Seq<char>
    decreases lines.len(),
{
    if lines.len() == 0 {
        seq![]
    } else if lines.len() == 1 {
        lines[0]
    } else {
        join_lines(lines.drop_last()) + seq!['\n'] + lines.last()
    }
}

/// Every occurrence of `pat` in `s` replaced by `rep`, the occurrences taken
/// from left to right without overlap. An empty `pat` occurs at every
/// character boundary: before each character and at the end.
pub open spec fn replace_all(s: Seq<char>, pat: Seq<char>, rep: Seq<char>) -> Seq<char>
    decreases s.len(),
{
    if pat.len() == 0 {
        if s.len() == 0 {
            rep
        } else {
            rep + seq![s[0]] + replace_all(s.drop_first(), pat, rep)
        }
    } else if s.len() == 0 {
        seq![]
    } else if pat.is_prefix_of(s) {
        rep + replace_all(s.skip(pat.len() as int), pat, rep)
    } else {
        seq![s[0]] + replace_all(s.drop_first(), pat, rep)
    }
}

/// `s` without all of its trailing `'\n'` characters.
pub open spec fn trim_trailing_newlines(s: Seq<char>) -> Seq<char>
    decreases s.len(),
{
    if s.len() > 0 && s.last() == '\n' {
        trim_trailing_newlines(s.drop_last())
    } else {
        s
    }
}

/// Whether `pat` occurs in `s` starting at index `i`.
pub open spec fn occurs_at(s: Seq<char>, pat: Seq<char>, i: int) -> bool {
    0 <= i && i + pat.len() <= s.len() && s.subrange(i, i + pat.len()) == pat
}

/// A vector of characters is its own deep view.
pub broadcast proof fn lemma_char_vec_deep_view(v: &Vec<char>)
    ensures
        #[trigger] v.deep_view() == v@,
{
    assert(v.deep_view() =~= v@);
}

// ---------------------------------------------------------------------------
// Conversions between strings and character vectors
// ---------------------------------------------------------------------------

/// `String::push`: the claim is the documented one, that the character is
/// appended at the end of the string and nothing else changes.
#[verifier::external_body]
pub(crate) fn push_char(s: &mut String, c: char)
    ensures
        final(s)@ == old(s)@.push(c),
{
    s.push(c);
}

/// The characters of a string slice, in order.
pub fn chars_of(s: &str) -> (v: Vec<char>)
    ensures
        v@ == s@,
{
    let mut v: Vec<char> = Vec::new();
    for c in it: s.chars()
        invariant
            v@ == it.seq().take(it.index() as int),
    {
        v.push(c);
    }
    v
}

/// The string made of the given characters.
pub fn string_of(v: &Vec<char>) -> (s: String)
    ensures
        s@ == v@,
{
    let mut s = String::new();
    let mut i: usize = 0;
    while i < v.len()
        invariant
            i <= v.len(),
            s@ == v@.take(i as int),
        decreases v.len() - i,
    {
        push_char(&mut s, v[i]);
        i = i + 1;
        assert(v@.take(i as int) == v@.take(i - 1).push(v@[i - 1]));
    }
    assert(v@.take(v.len() as int) == v@);
    s
}

/// A copy of the characters.
pub fn copy_chars(v: &Vec<char>) -> (r: Vec<char>)
    ensures
        r@ == v@,
{
    let mut r: Vec<char> = Vec::new();
    extend_chars(&mut r, v);
    r
}

/// Appends all of `src` to `out`.
pub fn extend_chars(out: &mut Vec<char>, src: &Vec<char>)
    ensures
        final(out)@ == old(out)@ + src@,
{
    let mut i: usize = 0;
    while i < src.len()
        invariant
            i <= src.len(),
            out@ == old(out)@ + src@.take(i as int),
        decreases src.len() - i,
    {
        out.push(src[i]);
        i = i + 1;
        assert(src@.take(i as int) == src@.take(i - 1).push(src@[i - 1]));
    }
    assert(src@.take(src.len() as int) == src@);
}

/// Whether the two character sequences are equal.
pub fn chars_equal(a: &Vec<char>, b: &Vec<char>) -> (eq: bool)
    ensures
        eq == (a@ == b@),
{
    if a.len() != b.len() {
        return false;
    }
    let mut i: usize = 0;
    while i < a.len()
        invariant
            i <= a.len(),
            a.len() == b.len(),
            forall|j: int| 0 <= j < i ==> a@[j] == b@[j],
        decreases a.len() - i,
    {
        if a[i] != b[i] {
            return false;
        }
        i = i + 1;
    }
    assert(a@ =~= b@);
    true
}

/// Whether `c` occurs in `v`.
pub fn contains_char(v: &Vec<char>, c: char) -> (found: bool)
    ensures
        found == v@.contains(c),
{
    let mut i: usize = 0;
    while i < v.len()
        invariant
            i <= v.len(),
            forall|j: int| 0 <= j < i ==> v@[j] != c,
        decreases v.len() - i,
    {
        if v[i] == c {
            assert(v@[i as int] == c);
            return true;
        }
        i = i + 1;
    }
    false
}

// ---------------------------------------------------------------------------
// Replacement
// ---------------------------------------------------------------------------

/// Whether `pat` occurs in `s` at index `i`.
pub fn chars_occur_at(s: &Vec<char>, pat: &Vec<char>, i: usize) -> (found: bool)
    requires
        i <= s.len(),
    ensures
        found == occurs_at(s@, pat@, i as int),
        found == pat@.is_prefix_of(s@.skip(i as int)),
{
    if s.len() - i < pat.len() {
        return false;
    }
    let mut k: usize = 0;
    while k < pat.len()
        invariant
            k <= pat.len(),
            i + pat.len() <= s.len(),
            forall|j: int| 0 <= j < k ==> s@[i + j] == pat@[j],
        decreases pat.len() - k,
    {
        if s[i + k] != pat[k] {
            assert(s@.subrange(i as int, i + pat.len())[k as int] != pat@[k as int]);
            assert(s@.skip(i as int).subrange(0, pat.len() as int)[k as int] != pat@[k as int]);
            return false;
        }
        k = k + 1;
    }
    assert(s@.subrange(i as int, i + pat.len()) =~= pat@);
    assert(s@.skip(i as int).subrange(0, pat.len() as int) =~= pat@);
    true
}

/// `s` with every occurrence of `pat` replaced by `rep` (`str::replace`).
pub fn replace_chars(s: &Vec<char>, pat: &Vec<char>, rep: &Vec<char>) -> (r: Vec<char>)
    ensures
        r@ == replace_all(s@, pat@, rep@),
{
    let mut out: Vec<char> = Vec::new();
    let mut i: usize = 0;
    assert(s@.skip(0) == s@);
    if pat.len() == 0 {
        while i < s.len()
            invariant
                i <= s.len(),
                pat@.len() == 0,
                out@ + replace_all(s@.skip(i as int), pat@, rep@) == replace_all(s@, pat@, rep@),
            decreases s.len() - i,
        {
            let ghost before = out@;
            extend_chars(&mut out, rep);
            out.push(s[i]);
            assert(s@.skip(i as int).drop_first() == s@.skip(i + 1));
            assert(out@ == before + rep@ + seq![s@[i as int]]);
            i = i + 1;
        }
        assert(s@.skip(i as int).len() == 0);
        extend_chars(&mut out, rep);
    } else {
        while i < s.len()
            invariant
                i <= s.len(),
                pat@.len() > 0,
                out@ + replace_all(s@.skip(i as int), pat@, rep@) == replace_all(s@, pat@, rep@),
            decreases s.len() - i,
        {
            let ghost before = out@;
            if chars_occur_at(s, pat, i) {
                extend_chars(&mut out, rep);
                assert(s@.skip(i as int).skip(pat@.len() as int) == s@.skip(i + pat.len()));
                i = i + pat.len();
            } else {
                out.push(s[i]);
                assert(s@.skip(i as int).drop_first() == s@.skip(i + 1));
                assert(out@ == before + seq![s@[i as int]]);
                i = i + 1;
            }
        }
        assert(s@.skip(i as int).len() == 0);
    }
    out
}

// ---------------------------------------------------------------------------
// Lines
// ---------------------------------------------------------------------------

proof fn lemma_line_scan_step(s: Seq<char>, i: int)
    requires
        0 <= i < s.len(),
    ensures
        line_scan(s.take(i + 1)) == ({
            let (done, open) = line_scan(s.take(i));
            if s[i] == '\n' {
                (done.push(strip_cr(open)), Seq::<char>::empty())
            } else {
                (done, open.push(s[i]))
            }
        }),
{
    assert(s.take(i + 1).drop_last() == s.take(i));
}

/// The lines of `s` (`str::lines`).
pub fn split_lines(s: &Vec<char>) -> (lines: Vec<Vec<char>>)
    ensures
        lines.deep_view() == lines_of(s@),
{
    let mut done: Vec<Vec<char>> = Vec::new();
    let mut open: Vec<char> = Vec::new();
    let mut i: usize = 0;
    while i < s.len()
        invariant
            i <= s.len(),
            (done.deep_view(), open@) == line_scan(s@.take(i as int)),
        decreases s.len() - i,
    {
        proof {
            lemma_line_scan_step(s@, i as int);
        }
        let c = s[i];
        if c == '\n' {
            let ghost opened = open@;
            let mut finished = open;
            let len = finished.len();
            if len > 0 && finished[len - 1] == '\r' {
                finished.pop();
            }
            let ghost d = done.deep_view();
            assert(finished@ == strip_cr(opened));
            assert(finished.deep_view() =~= finished@);
            done.push(finished);
            assert(done.deep_view() =~= d.push(strip_cr(opened)));
            open = Vec::new();
        } else {
            open.push(c);
        }
        i = i + 1;
    }
    assert(s@.take(s.len() as int) == s@);
    if open.len() > 0 {
        let ghost d = done.deep_view();
        let ghost o = open@;
        assert(open.deep_view() =~= o);
        done.push(open);
        assert(done.deep_view() =~= d.push(o));
    }
    done
}

/// The lines joined with `'\n'` (`[String]::join("\n")`).
pub fn join_with_newlines(lines: &Vec<Vec<char>>) -> (s: Vec<char>)
    ensures
        s@ == join_lines(lines.deep_view()),
{
    let mut out: Vec<char> = Vec::new();
    let mut i: usize = 0;
    while i < lines.len()
        invariant
            i <= lines.len(),
            out@ == join_lines(lines.deep_view().take(i as int)),
        decreases lines.len() - i,
    {
        let ghost ls = lines.deep_view();
        assert(ls.take(i + 1).drop_last() == ls.take(i as int));
        if i > 0 {
            out.push('\n');
        }
        extend_chars(&mut out, &lines[i]);
        assert(ls.take(i + 1).last() == lines[i as int]@);
        i = i + 1;
    }
    assert(lines.deep_view().take(lines.len() as int) == lines.deep_view());
    out
}

/// `s` without its trailing `'\n'` characters (`str::trim_end_matches('\n')`).
pub fn trim_newlines_end(s: &mut Vec<char>)
    ensures
        final(s)@ == trim_trailing_newlines(old(s)@),
{
    while s.len() > 0 && s[s.len() - 1] == '\n'
        invariant
            trim_trailing_newlines(s@) == trim_trailing_newlines(old(s)@),
        decreases s.len(),
    {
        s.pop();
    }
}

} // verus!

verus! {

// ---------------------------------------------------------------------------
// Laws
// ---------------------------------------------------------------------------

/// Replacing a text by itself changes nothing, whatever the text (the empty
/// text included) and whatever the string it is replaced in.
pub proof fn law_replace_with_itself(s: Seq<char>, pat: Seq<char>)
    ensures
        replace_all(s, pat, pat) == s,
    decreases s.len(),
{
    if pat.len() == 0 {
        if s.len() > 0 {
            law_replace_with_itself(s.drop_first(), pat);
            assert(pat + seq![s[0]] + s.drop_first() =~= s);
        }
    } else if s.len() > 0 {
        if pat.is_prefix_of(s) {
            law_replace_with_itself(s.skip(pat.len() as int), pat);
            assert(pat + s.skip(pat.len() as int) =~= s);
        } else {
            law_replace_with_itself(s.drop_first(), pat);
            assert(seq![s[0]] + s.drop_first() =~= s);
        }
    }
}

/// A non-empty text that does not occur in a string leaves it unchanged when
/// it is replaced.
pub proof fn law_replace_absent(s: Seq<char>, pat: Seq<char>, rep: Seq<char>)
    requires
        pat.len() > 0,
        forall|i: int| !occurs_at(s, pat, i),
    ensures
        replace_all(s, pat, rep) == s,
    decreases s.len(),
{
    if s.len() > 0 {
        if pat.is_prefix_of(s) {
            assert(s.subrange(0, pat.len() as int) =~= pat);
            assert(occurs_at(s, pat, 0));
        }
        assert forall|i: int| !occurs_at(s.drop_first(), pat, i) by {
            if occurs_at(s.drop_first(), pat, i) {
                assert(s.subrange(i + 1, i + 1 + pat.len()) =~= s.drop_first().subrange(i, i + pat.len()));
                assert(occurs_at(s, pat, i + 1));
            }
        }
        law_replace_absent(s.drop_first(), pat, rep);
        assert(seq![s[0]] + s.drop_first() =~= s);
    }
}

/// The finished lines, each followed by its `'\n'`.
pub open spec fn terminated(lines: Seq<Seq<char>>) -> Seq<char>
    decreases lines.len(),
{
    if lines.len() == 0 {
        seq![]
    } else {
        terminated(lines.drop_last()) + lines.last() + seq!['\n']
    }
}

/// `s` holds no `"\r\n"`.
pub open spec fn has_no_crlf(s: Seq<char>) -> bool {
    forall|i: int| !#[trigger] occurs_at(s, crlf(), i)
}

/// `"\r\n"`
pub open spec fn crlf() -> Seq<char> {
    seq!['\r', '\n']
}

proof fn lemma_scan_rebuilds(s: Seq<char>)
    requires
        has_no_crlf(s),
    ensures
        s == terminated(line_scan(s).0) + line_scan(s).1,
        line_scan(s).1.len() > 0 ==> line_scan(s).1.last() == s.last(),
    decreases s.len(),
{
    if s.len() > 0 {
        let p = s.drop_last();
        assert(has_no_crlf(p)) by {
            assert forall|i: int| !#[trigger] occurs_at(p, crlf(), i) by {
                if occurs_at(p, crlf(), i) {
                    assert(p.subrange(i, i + 2) =~= s.subrange(i, i + 2));
                    assert(occurs_at(s, crlf(), i));
                }
            }
        }
        lemma_scan_rebuilds(p);
        let (done, open) = line_scan(p);
        if s.last() == '\n' {
            if open.len() > 0 {
                assert(open.last() == s[s.len() - 2]);
                assert(!occurs_at(s, crlf(), s.len() - 2));
                if open.last() == '\r' {
                    assert(s.subrange(s.len() - 2, s.len() as int) =~= crlf());
                }
            }
            assert(strip_cr(open) == open);
            let done2 = done.push(open);
            assert(done2.drop_last() == done);
            assert(terminated(done2) == terminated(done) + open + seq!['\n']);
            assert(s =~= p.push('\n'));
            assert(s =~= terminated(done2) + seq![]);
        } else {
            assert(s =~= p.push(s.last()));
            assert(s =~= terminated(done) + open.push(s.last()));
        }
    }
}

proof fn lemma_join_push(done: Seq<Seq<char>>, x: Seq<char>)
    ensures
        join_lines(done.push(x)) == terminated(done) + x,
        done.len() > 0 ==> terminated(done) == join_lines(done) + seq!['\n'],
    decreases done.len(),
{
    if done.len() > 0 {
        lemma_join_push(done.drop_last(), done.last());
        assert(done.drop_last().push(done.last()) == done);
        if done.len() == 1 {
            assert(terminated(done.drop_last()) == Seq::<char>::empty());
            assert(terminated(done) =~= done[0] + seq!['\n']);
        }
        assert(done.push(x).drop_last() == done);
        assert(terminated(done) =~= join_lines(done) + seq!['\n']);
    } else {
        assert(done.push(x) =~= seq![x]);
        assert(terminated(done) + x =~= x);
    }
}

/// Splitting a text into lines and joining them again with `'\n'` gives the
/// text back, when it holds no `"\r\n"` and does not end with `'\n'`.
pub proof fn law_lines_join_round_trip(s: Seq<char>)
    requires
        has_no_crlf(s),
        s.len() == 0 || s.last() != '\n',
    ensures
        join_lines(lines_of(s)) == s,
{
    lemma_scan_rebuilds(s);
    let (done, open) = line_scan(s);
    lemma_join_push(done, open);
    if open.len() == 0 {
        if done.len() > 0 {
            assert(s.last() == '\n');
        } else {
            assert(s =~= Seq::<char>::empty());
        }
    }
}

/// Trimming leaves no trailing `'\n'`.
pub proof fn law_trim_leaves_no_newline(s: Seq<char>)
    ensures
        trim_trailing_newlines(s).len() == 0 || trim_trailing_newlines(s).last() != '\n',
        trim_trailing_newlines(s).is_prefix_of(s),
    decreases s.len(),
{
    if s.len() > 0 && s.last() == '\n' {
        law_trim_leaves_no_newline(s.drop_last());
    }
}

/// Trimming removes newlines and nothing else: what it cuts off the end is
/// all `'\n'`, so a text that does not end in `'\n'` is left as it is.
pub proof fn law_trim_removes_only_newlines(s: Seq<char>)
    ensures
        s == trim_trailing_newlines(s) + s.skip(trim_trailing_newlines(s).len() as int),
        forall|k: int| trim_trailing_newlines(s).len() <= k < s.len() ==> s[k] == '\n',
        (s.len() == 0 || s.last() != '\n') ==> trim_trailing_newlines(s) == s,
    decreases s.len(),
{
    law_trim_leaves_no_newline(s);
    if s.len() > 0 && s.last() == '\n' {
        let p = s.drop_last();
        law_trim_removes_only_newlines(p);
        assert forall|k: int| trim_trailing_newlines(s).len() <= k < s.len() implies s[k] == '\n' by {
            if k < s.len() - 1 {
                assert(s[k] == p[k]);
            }
        }
    }
    assert(s =~= trim_trailing_newlines(s) + s.skip(trim_trailing_newlines(s).len() as int));
}

/// A token rule replaces an occurrence at the start of the text: with a
/// non-empty pattern that the text starts with, the result is the
/// replacement followed by the result on the rest of the text, whatever the
/// replacement is (the empty one included, which deletes the occurrence).
pub proof fn law_replace_leading_occurrence(s: Seq<char>, pat: Seq<char>, rep: Seq<char>)
    requires
        pat.len() > 0,
        occurs_at(s, pat, 0),
    ensures
        replace_all(s, pat, rep) == rep + replace_all(s.skip(pat.len() as int), pat, rep),
{
    assert(s.subrange(0, pat.len() as int) == pat);
    assert(pat.is_prefix_of(s));
}

/// Where the pattern does not start the text, its first character is kept
/// and the rest is replaced.
pub proof fn law_replace_keeps_unmatched_char(s: Seq<char>, pat: Seq<char>, rep: Seq<char>)
    requires
        pat.len() > 0,
        s.len() > 0,
        !occurs_at(s, pat, 0),
    ensures
        replace_all(s, pat, rep) == seq![s[0]] + replace_all(s.drop_first(), pat, rep),
{
    if pat.is_prefix_of(s) {
        assert(s.subrange(0, pat.len() as int) =~= pat);
    }
}

/// Deleting a pattern from a text made of copies of it leaves nothing.
pub proof fn law_delete_all_copies(pat: Seq<char>, n: nat)
    requires
        pat.len() > 0,
    ensures
        replace_all(repeat(pat, n), pat, seq![]) == Seq::<char>::empty(),
    decreases n,
{
    if n > 0 {
        let s = repeat(pat, n);
        assert(s.subrange(0, pat.len() as int) =~= pat);
        law_replace_leading_occurrence(s, pat, seq![]);
        assert(s.skip(pat.len() as int) =~= repeat(pat, (n - 1) as nat));
        law_delete_all_copies(pat, (n - 1) as nat);
        assert(Seq::<char>::empty() + Seq::<char>::empty() =~= Seq::<char>::empty());
    }
}

/// `n` copies of `s` one after another.
pub open spec fn repeat(s: Seq<char>, n: nat) -> Seq<char>
    decreases n,
{
    if n == 0 {
        seq![]
    } else {
        s + repeat(s, (n - 1) as nat)
    }
}

} // verus!
