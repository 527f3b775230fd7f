//! Path normalisation of the flags and the decisions of the forging step:
//! which sources are read, and what is written for each of them.
use vstd::prelude::*;

use crate::custom::{apply_replacements, replaced_text, Replacement};
use crate::text::{chars_of, contains_char, string_of, trim_newlines_end, trim_trailing_newlines};

verus! {

broadcast use crate::text::lemma_char_vec_deep_view;

// ---------------------------------------------------------------------------
// Paths
// ---------------------------------------------------------------------------

/// `".."`
pub open spec fn parent_dir_name() -> Seq<char> {
    seq!['.', '.']
}

/// A component that reads the same on every platform: not empty, not `.`
/// or `..`, and without `/`, `\` or `:` (so no separator and no Windows
/// prefix).
pub open spec fn is_plain_component(c: Seq<char>) -> bool {
    &&& c.len() > 0
    &&& c != current_dir()
    &&& c != parent_dir_name()
    &&& !c.contains('/')
    &&& !c.contains('\\')
    &&& !c.contains(':')
}

/// The index of the last `c` in `s`, or `-1` when there is none.
pub open spec fn last_index_of(s: Seq<char>, c: char) -> int
    decreases s.len(),
{
    if s.len() == 0 {
        -1
    } else if s.last() == c {
        s.len() - 1
    } else {
        last_index_of(s.drop_last(), c)
    }
}

/// `last_index_of` is `-1` or the index of the last `c`.
pub proof fn lemma_last_index_of(s: Seq<char>, c: char)
    ensures
        -1 <= last_index_of(s, c) < s.len(),
        last_index_of(s, c) >= 0 ==> s[last_index_of(s, c)] == c,
        forall|j: int| last_index_of(s, c) < j < s.len() ==> s[j] != c,
    decreases s.len(),
{
    if s.len() > 0 && s.last() != c {
        lemma_last_index_of(s.drop_last(), c);
        assert forall|j: int| last_index_of(s, c) < j < s.len() implies s[j] != c by {
            if j < s.len() - 1 {
                assert(s[j] == s.drop_last()[j]);
            }
        }
    }
}

/// A relative path of plain components joined by single `/`s: it reads the
/// same on every platform, `/` being a separator everywhere.
pub open spec fn is_plain_path(d: Seq<char>) -> bool
    decreases d.len(),
{
    let i = last_index_of(d, '/');
    if 0 <= i < d.len() {
        is_plain_component(d.skip(i + 1)) && is_plain_path(d.take(i))
    } else {
        is_plain_component(d)
    }
}

/// What stands before the last `/` of a path that `plain_split` splits: a
/// plain path, a plain path after the root `/`, or nothing (the path is
/// `/n`, whose directory is the root).
pub open spec fn is_split_head(head: Seq<char>) -> bool {
    ||| is_plain_path(head)
    ||| head.len() == 0
    ||| head.len() > 0 && head[0] == '/' && is_plain_path(head.drop_first())
}

/// The directory that a head stands for: the root `/` for the empty head.
pub open spec fn head_dir(head: Seq<char>) -> Seq<char> {
    if head.len() == 0 {
        seq!['/']
    } else {
        head
    }
}

/// A path `d/n` with `d` a plain path, `/` followed by a plain path, or the
/// root `/` itself (the path `/n`), and `n` a plain component or `..`, split
/// into `(d, n)`; `None` for every other path.
pub open spec fn plain_split(path: Seq<char>) -> Option<(Seq<char>, Seq<char>)> {
    let i = last_index_of(path, '/');
    if 0 <= i < path.len() && is_split_head(path.take(i)) && (is_plain_component(path.skip(i + 1))
        || path.skip(i + 1) == parent_dir_name()) {
        Some((head_dir(path.take(i)), path.skip(i + 1)))
    } else {
        None
    }
}

/// A head holds no `\`, and its directory is neither empty nor `.`.
proof fn lemma_split_head(head: Seq<char>)
    requires
        is_split_head(head),
    ensures
        !head.contains('\\'),
        head_dir(head).len() > 0,
        head_dir(head) != current_dir(),
{
    if is_plain_path(head) {
        lemma_plain_path(head);
    } else if head.len() > 0 {
        let rest = head.drop_first();
        lemma_plain_path(rest);
        assert(!head.contains('\\')) by {
            if head.contains('\\') {
                let k = choose|k: int| 0 <= k < head.len() && head[k] == '\\';
                if k > 0 {
                    assert(rest[k - 1] == '\\');
                }
            }
        }
        assert(head[0] == '/');
        if head == current_dir() {
            assert(current_dir()[0] == '.');
        }
    } else {
        assert(head_dir(head)[0] == '/');
        if head_dir(head) == current_dir() {
            assert(current_dir()[0] == '.');
        }
    }
}

/// The directory `d` of a path `d/n` that `plain_split` splits.
pub open spec fn plain_dir_of(path: Seq<char>) -> Seq<char> {
    match plain_split(path) {
        Some((d, _)) => d,
        None => seq![],
    }
}

/// The last component `n` of a path `d/n` that `plain_split` splits.
pub open spec fn plain_tail_of(path: Seq<char>) -> Seq<char> {
    match plain_split(path) {
        Some((_, n)) => n,
        None => seq![],
    }
}

/// The file name of a path `d/n` that `plain_split` splits: `n`, or none
/// when `n` is `..`.
pub open spec fn plain_name_of(path: Seq<char>) -> Option<Seq<char>> {
    match plain_split(path) {
        Some((_, n)) => if n == parent_dir_name() {
            None
        } else {
            Some(n)
        },
        None => None,
    }
}

/// The parent and file name that `Path` gives a path of the form `d/n`.
pub open spec fn plain_parts(path: Seq<char>, parts: (Option<Seq<char>>, Option<Seq<char>>)) -> bool {
    plain_split(path) is Some ==> parts == (Some(plain_dir_of(path)), plain_name_of(path))
}

/// A plain path is not empty and holds no `\`.
proof fn lemma_plain_path(d: Seq<char>)
    requires
        is_plain_path(d),
    ensures
        d.len() > 0,
        !d.contains('\\'),
        d != current_dir(),
    decreases d.len(),
{
    if d == current_dir() {
        assert(d.last() == '.');
        assert(d.drop_last().len() == 0);
        assert(last_index_of(d, '/') == -1);
    }
    lemma_last_index_of(d, '/');
    let i = last_index_of(d, '/');
    if 0 <= i {
        lemma_plain_path(d.take(i));
        assert(!d.contains('\\')) by {
            if d.contains('\\') {
                let k = choose|k: int| 0 <= k < d.len() && d[k] == '\\';
                if k < i {
                    assert(d.take(i)[k] == '\\');
                } else if k > i {
                    assert(d.skip(i + 1)[k - i - 1] == '\\');
                }
            }
        }
    }
}

/// A path that splits as `d/n` holds `/` and no `\`.
proof fn lemma_plain_split(path: Seq<char>)
    requires
        plain_split(path) is Some,
    ensures
        path.contains('/'),
        !path.contains('\\'),
        plain_dir_of(path).len() > 0,
        plain_dir_of(path) != current_dir(),
        plain_name_of(path) matches Some(n) ==> n.len() < path.len(),
{
    lemma_last_index_of(path, '/');
    let i = last_index_of(path, '/');
    lemma_split_head(path.take(i));
    assert(path[i] == '/');
    assert(!path.contains('\\')) by {
        if path.contains('\\') {
            let k = choose|k: int| 0 <= k < path.len() && path[k] == '\\';
            if k < i {
                assert(path.take(i)[k] == '\\');
            } else if k > i {
                let tail = path.skip(i + 1);
                assert(tail[k - i - 1] == '\\');
                if tail == parent_dir_name() {
                    assert(parent_dir_name().len() == 2);
                    assert(tail.len() == path.len() - i - 1);
                    assert(tail[0] == '.' && tail[1] == '.');
                    assert(k - i - 1 == 0 || k - i - 1 == 1);
                }
            }
        }
    }
}

/// `std::path::MAIN_SEPARATOR`: documented as `/` on Unix and `\` on
/// Windows; the claim is only that it is one of the two.
#[verifier::external_body]
fn main_separator() -> (sep: char)
    ensures
        sep == '/' || sep == '\\',
{
    std::path::MAIN_SEPARATOR
}

/// `Path::parent` of the path written `path`, as a string. Its value depends
/// on the platform's path syntax. The claims are the documented ones that
/// hold on every platform: the empty path has no parent, and a path `d/n`
/// of plain components (`/` separates components everywhere) without its
/// final component is `d`.
#[verifier::external_body]
fn path_parent(path: &str) -> (parent: Option<String>)
    ensures
        path@.len() == 0 ==> parent is None,
        plain_split(path@) is Some ==> opt_view(parent) == Some(plain_dir_of(path@)),
{
    match std::path::Path::new(path).parent() {
        Some(p) => Some(p.to_string_lossy().into_owned()),
        None => None,
    }
}

/// `Path::file_name` of the path written `path`, as a string (`None` when
/// the last component is `..`, or when the name is not valid UTF-8). Its
/// value depends on the platform's path syntax. The claim is the documented
/// one that holds on every platform: a path `d/n` of plain components has
/// the name `n`, and a path `d/..` has none.
#[verifier::external_body]
fn path_file_name(path: &str) -> (name: Option<String>)
    ensures
        plain_split(path@) is Some ==> opt_view(name) == plain_name_of(path@),
{
    match std::path::Path::new(path).file_name() {
        Some(n) => match n.to_str() {
            Some(s) => Some(s.to_string()),
            None => None,
        },
        None => None,
    }
}

/// What the platform's path syntax says of one path: its parent and its
/// file name.
pub struct PathParts {
    pub parent: Option<String>,
    pub file_name: Option<String>,
}

/// The view of an optional string.
pub open spec fn opt_view(o: Option<String>) -> Option<Seq<char>> {
    match o {
        Some(s) => Some(s@),
        None => None,
    }
}

/// The view of an optional string slice.
pub open spec fn opt_str_view(o: Option<&str>) -> Option<Seq<char>> {
    match o {
        Some(s) => Some(s@),
        None => None,
    }
}

/// `"."`
pub open spec fn current_dir() -> Seq<char> {
    seq!['.']
}

/// A path is split into directory and name when its parent is a non-empty
/// path and the path holds the platform's separator.
pub open spec fn splits(path: Seq<char>, sep: char, parent: Option<Seq<char>>) -> bool {
    parent matches Some(p) && p.len() > 0 && path.contains(sep)
}

/// The input directory: the directory of the one input file when it is
/// split, else the `--in` flag.
pub open spec fn input_dir(
    in_flag: Option<Seq<char>>,
    files: Seq<Seq<char>>,
    sep: char,
    first: (Option<Seq<char>>, Option<Seq<char>>),
) -> Option<Seq<char>> {
    if files.len() == 1 && splits(files[0], sep, first.0) {
        first.0
    } else {
        in_flag
    }
}

/// The input files: the one input file becomes its file name when it is
/// split and has one.
pub open spec fn input_files(
    files: Seq<Seq<char>>,
    sep: char,
    first: (Option<Seq<char>>, Option<Seq<char>>),
) -> Seq<Seq<char>> {
    if files.len() == 1 && splits(files[0], sep, first.0) && first.1 is Some {
        files.update(0, first.1->0)
    } else {
        files
    }
}

/// The output directory: the parent of the output path when it is split,
/// else `"."`.
pub open spec fn output_dir(out_flag: Seq<char>, sep: char, out: (Option<Seq<char>>, Option<Seq<char>>)) -> Seq<char> {
    if splits(out_flag, sep, out.0) {
        out.0->0
    } else {
        current_dir()
    }
}

/// The output file: the file name of the output path when it is split, else
/// the whole output path.
pub open spec fn output_file(out_flag: Seq<char>, sep: char, out: (Option<Seq<char>>, Option<Seq<char>>)) -> Seq<char> {
    if splits(out_flag, sep, out.0) {
        out.1->0
    } else {
        out_flag
    }
}

/// The output path can be split only where it has a file name.
pub open spec fn output_has_name(out_flag: Seq<char>, sep: char, out: (Option<Seq<char>>, Option<Seq<char>>)) -> bool {
    splits(out_flag, sep, out.0) ==> out.1 is Some
}

/// Whether the path is present and not empty.
fn is_nonempty_path(p: &Option<String>) -> (r: bool)
    ensures
        r == (opt_view(*p) matches Some(v) && v.len() > 0),
{
    match p {
        Some(s) => chars_of(s.as_str()).len() > 0,
        None => false,
    }
}

/// The parts as plain values.
pub open spec fn parts_view(p: PathParts) -> (Option<Seq<char>>, Option<Seq<char>>) {
    (opt_view(p.parent), opt_view(p.file_name))
}

/// The normalised flags, given the platform separator and what the platform
/// path syntax says of the first input file (`first`, used only when there
/// is exactly one input file) and of the output path (`out`). Returns
/// `(input directory, output directory, output file)` and rewrites `files`.
pub fn resolve_paths(
    in_flag: Option<&str>,
    files: &mut Vec<String>,
    out_flag: &str,
    sep: char,
    first: PathParts,
    out: PathParts,
) -> (r: (Option<String>, String, String))
    requires
        output_has_name(out_flag@, sep, parts_view(out)),
    ensures
        opt_view(r.0) == input_dir(opt_str_view(in_flag), old(files).deep_view(), sep, parts_view(first)),
        r.1@ == output_dir(out_flag@, sep, parts_view(out)),
        r.2@ == output_file(out_flag@, sep, parts_view(out)),
        final(files).deep_view() == input_files(old(files).deep_view(), sep, parts_view(first)),
        old(files)@.len() != 1 ==> final(files)@ == old(files)@,
{
    let ghost first_v = parts_view(first);
    let ghost out_v = parts_view(out);
    let ghost files0 = files.deep_view();
    let mut in_path: Option<String> = match in_flag {
        Some(s) => Some(s.to_string()),
        None => None,
    };
    if files.len() == 1 {
        let first_chars = chars_of(files[0].as_str());
        assert(first_chars@ == files0[0]);
        let parent_nonempty = is_nonempty_path(&first.parent);
        assert(parent_nonempty <==> (first_v.0 matches Some(p) && p.len() > 0));
        if parent_nonempty && contains_char(&first_chars, sep) {
            in_path = first.parent;
            match first.file_name {
                Some(name) => {
                    files.set(0, name);
                    assert(files.deep_view() =~= files0.update(0, first_v.1->0));
                },
                None => {},
            }
        }
    }
    let out_chars = chars_of(out_flag);
    let out_parent_nonempty = is_nonempty_path(&out.parent);
    let (out_dir, out_file) = if out_parent_nonempty && contains_char(&out_chars, sep) {
        match (out.parent, out.file_name) {
            (Some(dir), Some(name)) => (dir, name),
            _ => {
                assert(false);
                (String::new(), String::new())
            },
        }
    } else {
        let dot: Vec<char> = vec!['.'];
        assert(dot@ =~= current_dir());
        (string_of(&dot), out_flag.to_string())
    };
    (in_path, out_dir, out_file)
}

/// A path `d/n` of plain components with a file name `n`.
pub open spec fn splits_plainly(path: Seq<char>) -> bool {
    plain_split(path) is Some && plain_name_of(path) is Some
}

/// The view of a result of `normalize_paths`.
pub open spec fn normalized_view(r: Option<(Option<String>, String, String)>) -> Option<(Option<Seq<char>>, Seq<char>, Seq<char>)> {
    match r {
        Some((i, d, f)) => Some((opt_view(i), d@, f@)),
        None => None,
    }
}

/// `r` and `files_after` are the normalised flags for a platform whose
/// separator is `sep` and whose path syntax splits the one input file into
/// `first` (parent, file name) and the output path into `out`.
pub open spec fn normalized_as(
    in_flag: Option<Seq<char>>,
    files_before: Seq<Seq<char>>,
    out_flag: Seq<char>,
    files_after: Seq<Seq<char>>,
    r: Option<(Option<Seq<char>>, Seq<char>, Seq<char>)>,
    sep: char,
    first: (Option<Seq<char>>, Option<Seq<char>>),
    out: (Option<Seq<char>>, Option<Seq<char>>),
) -> bool {
    &&& sep == '/' || sep == '\\'
    &&& out_flag.len() == 0 ==> out.0 is None
    &&& plain_parts(out_flag, out)
    &&& files_before.len() == 1 ==> plain_parts(files_before[0], first)
    &&& if output_has_name(out_flag, sep, out) {
        &&& r == Some((
            input_dir(in_flag, files_before, sep, first),
            output_dir(out_flag, sep, out),
            output_file(out_flag, sep, out),
        ))
        &&& files_after == input_files(files_before, sep, first)
    } else {
        &&& r is None
        &&& files_after == files_before
    }
}

/// Normalises the flags as the platform's path syntax splits them:
/// - with exactly one input file whose parent is a non-empty path and which
///   holds the separator, its parent becomes the input directory and its
///   file name the input file;
/// - an output path whose parent is a non-empty path and which holds the
///   separator is split into directory and file name; any other output path
///   is a file in `"."`.
///
/// Returns `(input directory, output directory, output file)`, or `None`
/// when the output path would be split but has no file name (such as one
/// that ends in `..`); `files` is then left as it was.
pub fn normalize_paths(in_flag: Option<&str>, files: &mut Vec<String>, out_flag: &str) -> (r: Option<(Option<String>, String, String)>)
    ensures
        exists|sep: char, first: (Option<Seq<char>>, Option<Seq<char>>), out: (Option<Seq<char>>, Option<Seq<char>>)|
            #[trigger] normalized_as(
                opt_str_view(in_flag),
                old(files).deep_view(),
                out_flag@,
                final(files).deep_view(),
                normalized_view(r),
                sep,
                first,
                out,
            ),
        // A path `d/n` of plain components is split into `d` and `n` where the
        // separator is `/`, and stays whole where it is `\`.
        splits_plainly(out_flag@) ==> (r matches Some(np) && ((np.1@ == plain_dir_of(out_flag@) && Some(np.2@)
            == plain_name_of(out_flag@)) || (np.1@ == current_dir() && np.2@ == out_flag@))),
        // `d/..` has no file name: refused where the separator is `/`, whole where it is `\`.
        plain_split(out_flag@) is Some && plain_name_of(out_flag@) is None ==> (r is None || (r matches Some(np)
            && np.1@ == current_dir() && np.2@ == out_flag@)),
        // A single input file `d/n` of plain components gives the input directory `d` and
        // the file `n` where the separator is `/`, and stays as it is where it is `\`.
        old(files)@.len() == 1 && splits_plainly(old(files)@[0]@) ==> (r is None || (r matches Some(np) && ((
        opt_view(np.0) == Some(plain_dir_of(old(files)@[0]@)) && final(files).deep_view() == seq![
            plain_name_of(old(files)@[0]@)->0,
        ]) || (opt_view(np.0) == opt_str_view(in_flag) && final(files).deep_view() == old(files).deep_view())))),
        // A single input file that is one plain component stays as it is.
        old(files)@.len() == 1 && is_plain_component(old(files)@[0]@) ==> final(files).deep_view() == old(
            files,
        ).deep_view(),
        // The output path and a single input file are split alike.
        old(files)@.len() == 1 && splits_plainly(old(files)@[0]@) && splits_plainly(out_flag@) ==> (r matches Some(
            np,
        ) && (np.1@ == current_dir() <==> opt_view(np.0) == opt_str_view(in_flag) && final(files).deep_view()
            == old(files).deep_view())),
        // Whatever the platform: a single-component output path is a file in ".".
        !out_flag@.contains('/') && !out_flag@.contains('\\') ==> (r matches Some(np) && np.1@ == current_dir()
            && np.2@ == out_flag@),
        // Whatever the platform: with other than one input file, the files stay and
        // the input directory is the `--in` flag.
        old(files)@.len() != 1 ==> (final(files)@ == old(files)@ && (r matches Some(np) ==> opt_view(np.0)
            == opt_str_view(in_flag))),
{
    let sep = main_separator();
    let first = if files.len() == 1 {
        PathParts { parent: path_parent(files[0].as_str()), file_name: path_file_name(files[0].as_str()) }
    } else {
        PathParts { parent: None, file_name: None }
    };
    let out = PathParts { parent: path_parent(out_flag), file_name: path_file_name(out_flag) };
    let ghost first_v = parts_view(first);
    let ghost out_v = parts_view(out);
    let out_chars = chars_of(out_flag);
    let out_parent_nonempty = is_nonempty_path(&out.parent);
    assert(out_parent_nonempty <==> (out_v.0 matches Some(p) && p.len() > 0));
    let ghost files0 = files.deep_view();
    if out_parent_nonempty && contains_char(&out_chars, sep) && out.file_name.is_none() {
        assert(!output_has_name(out_flag@, sep, out_v));
        assert(normalized_as(
            opt_str_view(in_flag),
            files0,
            out_flag@,
            files.deep_view(),
            normalized_view(None),
            sep,
            first_v,
            out_v,
        ));
        return None;
    }
    let r = resolve_paths(in_flag, files, out_flag, sep, first, out);
    assert(normalized_as(
        opt_str_view(in_flag),
        files0,
        out_flag@,
        files.deep_view(),
        normalized_view(Some(r)),
        sep,
        first_v,
        out_v,
    ));
    proof {
        if splits_plainly(out_flag@) {
            lemma_plain_split(out_flag@);
            law_split_rejoins(out_flag@);
        }
        if files0.len() == 1 && splits_plainly(files0[0]) {
            lemma_plain_split(files0[0]);
            if files.deep_view() == files0 {
                assert(files.deep_view()[0] == files0[0]);
            }
        }
    }
    Some(r)
}

// ---------------------------------------------------------------------------
// Forging
// ---------------------------------------------------------------------------

/// How the sources of a forge are read.
pub enum SourcePlan {
    /// The one input file is the output file itself: it is first copied to
    /// `tmp_file` in the output directory and read from there.
    OverwriteSingle { tmp_file: String },
    /// Each input file is read from the input directory.
    Separate,
}

/// Why a forge is refused.
#[derive(Debug, PartialEq, Eq, Structural)]
pub enum ForgeError {
    /// The output file is one of several input files.
    OverwriteWithMultipleInputs,
}

/// `".tmp"`
pub open spec fn tmp_suffix() -> Seq<char> {
    seq!['.', 't', 'm', 'p']
}

/// The sole input file is the output file.
pub open spec fn overwrites_single(files: Seq<Seq<char>>, out_file: Seq<char>) -> bool {
    files.len() == 1 && files[0] == out_file
}

/// The output file is among several input files.
pub open spec fn overwrites_one_of_many(files: Seq<Seq<char>>, out_file: Seq<char>) -> bool {
    files.len() > 1 && files.contains(out_file)
}

/// Whether a string equals a string slice.
fn string_equals(a: &String, b: &str) -> (eq: bool)
    ensures
        eq == (a@ == b@),
{
    let x = chars_of(a.as_str());
    let y = chars_of(b);
    crate::text::chars_equal(&x, &y)
}

/// The plan as plain values: `Ok(Some(tmp_file))` for an overwrite through
/// a temporary copy, `Ok(None)` for separate reading.
pub open spec fn plan_view(r: Result<SourcePlan, ForgeError>) -> Result<Option<Seq<char>>, ForgeError> {
    match r {
        Ok(SourcePlan::OverwriteSingle { tmp_file }) => Ok(Some(tmp_file@)),
        Ok(SourcePlan::Separate) => Ok(None),
        Err(e) => Err(e),
    }
}

/// How the sources are read, given whether the input directory is the output
/// directory: only then can an input file be the output file. The one input
/// file that is the output file is read through a copy `<out_file>.tmp`; an
/// output file among several input files refuses the forge; otherwise each
/// input file is read from the input directory.
pub open spec fn planned(files: Seq<Seq<char>>, out_file: Seq<char>, same_dir: bool) -> Result<
    Option<Seq<char>>,
    ForgeError,
> {
    if same_dir && overwrites_single(files, out_file) {
        Ok(Some(out_file + tmp_suffix()))
    } else if same_dir && overwrites_one_of_many(files, out_file) {
        Err(ForgeError::OverwriteWithMultipleInputs)
    } else {
        Ok(None)
    }
}

/// The input directory: the `--in` directory, or `"."` without one.
pub open spec fn input_directory(in_dir: Option<&str>) -> Seq<char> {
    match in_dir {
        Some(d) => d@,
        None => current_dir(),
    }
}

/// `"./"`
pub open spec fn current_dir_slash() -> Seq<char> {
    seq!['.', '/']
}

/// A directory written alike on every platform: `.` or `./`, or a plain
/// path, possibly with one trailing `/`.
pub open spec fn is_simple_dir(p: Seq<char>) -> bool {
    ||| p == current_dir()
    ||| p == current_dir_slash()
    ||| is_plain_path(p)
    ||| p.len() > 0 && p.last() == '/' && is_plain_path(p.drop_last())
}

/// What tells simple directories apart: `.` for `.` and `./`, otherwise the
/// path without a trailing `/`.
pub open spec fn dir_key(p: Seq<char>) -> Seq<char> {
    if p == current_dir() || p == current_dir_slash() {
        current_dir()
    } else if p.len() > 0 && p.last() == '/' {
        p.drop_last()
    } else {
        p
    }
}

/// `Path::new(a) == Path::new(b)`: whether the two paths have the same
/// components (the documented comparison of `Path`). Which strings name the
/// same components depends on the platform's path syntax. The claims are
/// those that hold on every platform: a path equals itself, and two simple
/// directories (`.`/`./`, or plain components joined by `/`, with at most a
/// trailing `/`; `/` separates components everywhere) are the same exactly
/// when they have the same components, that is the same `dir_key`.
#[verifier::external_body]
fn same_path(a: &str, b: &str) -> (same: bool)
    ensures
        a@ == b@ ==> same,
        is_simple_dir(a@) && is_simple_dir(b@) ==> (same <==> dir_key(a@) == dir_key(b@)),
{
    std::path::Path::new(a) == std::path::Path::new(b)
}

/// Decides how the sources are read, given whether the input directory is
/// the output directory (`same_dir`): exactly `planned`.
pub fn plan_sources_in(files: &Vec<String>, out_file: &str, same_dir: bool) -> (r: Result<SourcePlan, ForgeError>)
    ensures
        plan_view(r) == planned(files.deep_view(), out_file@, same_dir),
{
    let ghost fs = files.deep_view();
    if !same_dir {
        return Ok(SourcePlan::Separate);
    }
    if files.len() == 1 && string_equals(&files[0], out_file) {
        let mut tmp = chars_of(out_file);
        tmp.push('.');
        tmp.push('t');
        tmp.push('m');
        tmp.push('p');
        assert(tmp@ =~= out_file@ + tmp_suffix());
        return Ok(SourcePlan::OverwriteSingle { tmp_file: string_of(&tmp) });
    }
    if files.len() > 1 {
        assert(!overwrites_single(fs, out_file@));
        let mut i: usize = 0;
        while i < files.len()
            invariant
                i <= files.len(),
                fs == files.deep_view(),
                files.len() > 1,
                same_dir,
                forall|j: int| 0 <= j < i ==> fs[j] != out_file@,
            decreases files.len() - i,
        {
            if string_equals(&files[i], out_file) {
                assert(fs[i as int] == out_file@);
                return Err(ForgeError::OverwriteWithMultipleInputs);
            }
            i = i + 1;
        }
        assert(!fs.contains(out_file@));
    }
    Ok(SourcePlan::Separate)
}

/// Decides how the sources are read from the input directory `in_dir`
/// (`"."` when absent) for the output file `out_file` in `out_dir`: an input
/// file can be the output file only when the two directories are the same
/// path. Then the one input file named like the output is read through a
/// copy `<out_file>.tmp`, and an output file named among several input files
/// refuses the forge; otherwise each input file is read as it is.
pub fn plan_sources(files: &Vec<String>, out_file: &str, in_dir: Option<&str>, out_dir: &str) -> (r: Result<
    SourcePlan,
    ForgeError,
>)
    ensures
        exists|same_dir: bool|
            (input_directory(in_dir) == out_dir@ ==> same_dir) && #[trigger] planned(
                files.deep_view(),
                out_file@,
                same_dir,
            ) == plan_view(r),
        input_directory(in_dir) == out_dir@ ==> plan_view(r) == planned(files.deep_view(), out_file@, true),
        is_simple_dir(input_directory(in_dir)) && is_simple_dir(out_dir@) ==> plan_view(r) == planned(
            files.deep_view(),
            out_file@,
            dir_key(input_directory(in_dir)) == dir_key(out_dir@),
        ),
{
    proof {
        reveal_strlit(".");
        assert("."@ =~= current_dir());
    }
    let same_dir = match in_dir {
        Some(d) => same_path(d, out_dir),
        None => same_path(".", out_dir),
    };
    let r = plan_sources_in(files, out_file, same_dir);
    assert(planned(files.deep_view(), out_file@, same_dir) == plan_view(r));
    r
}

/// What is written for one source: its text after the rules, without
/// trailing newlines, then one newline.
pub open spec fn rendered_source(raw: Seq<char>, reps: Seq<Replacement>) -> Seq<char> {
    trim_trailing_newlines(replaced_text(raw, reps)).push('\n')
}

/// The text written to the output for one source file whose contents are
/// `raw`: the replacements applied, trailing newlines removed, and one
/// newline added.
pub fn render_source(raw: &str, replacements: &[Replacement]) -> (r: String)
    ensures
        r@ == rendered_source(raw@, replacements@),
{
    let content = apply_replacements(raw, replacements);
    let mut chars = chars_of(content.as_str());
    trim_newlines_end(&mut chars);
    chars.push('\n');
    string_of(&chars)
}

} // verus!

verus! {

/// What is written for a source ends with exactly one newline.
pub proof fn law_rendered_source_ends_in_one_newline(raw: Seq<char>, reps: Seq<Replacement>)
    ensures
        rendered_source(raw, reps).len() > 0,
        rendered_source(raw, reps).last() == '\n',
        rendered_source(raw, reps).len() == 1 || rendered_source(raw, reps)[rendered_source(raw, reps).len() - 2]
            != '\n',
{
    crate::text::law_trim_leaves_no_newline(replaced_text(raw, reps));
}

/// What is written for a source is its rewritten text with the trailing
/// newlines cut off and one put back: the text before that newline starts
/// the rewritten text, and everything cut after it is a newline.
pub proof fn law_rendered_source_cuts_only_newlines(raw: Seq<char>, reps: Seq<Replacement>)
    ensures
        rendered_source(raw, reps).drop_last().is_prefix_of(replaced_text(raw, reps)),
        forall|k: int|
            rendered_source(raw, reps).len() - 1 <= k < replaced_text(raw, reps).len() ==> replaced_text(raw, reps)[k]
                == '\n',
{
    let t = replaced_text(raw, reps);
    crate::text::law_trim_leaves_no_newline(t);
    crate::text::law_trim_removes_only_newlines(t);
    assert(rendered_source(raw, reps).drop_last() =~= trim_trailing_newlines(t));
}

/// With the input directory the output directory and several input files,
/// an input file named like the output file, at any place in the list,
/// refuses the forge.
pub proof fn law_plan_refuses_output_among_inputs(files: Seq<Seq<char>>, out_file: Seq<char>, j: int)
    requires
        files.len() > 1,
        0 <= j < files.len(),
        files[j] == out_file,
    ensures
        planned(files, out_file, true) == Err::<Option<Seq<char>>, ForgeError>(ForgeError::OverwriteWithMultipleInputs),
{
    assert(files.contains(out_file));
}

/// With the input directory the output directory, the one input file named
/// like the output file is read through a copy whose name is the output
/// file's followed by `.tmp`.
pub proof fn law_plan_single_overwrite(file: Seq<char>)
    ensures
        planned(seq![file], file, true) == Ok::<Option<Seq<char>>, ForgeError>(Some(file + seq!['.', 't', 'm', 'p'])),
{
}

/// The forge reads its sources as they are whenever no input file is named
/// like the output file, or the input directory is another directory.
pub proof fn law_plan_separate(files: Seq<Seq<char>>, out_file: Seq<char>, same_dir: bool)
    requires
        !same_dir || forall|j: int| 0 <= j < files.len() ==> files[j] != out_file,
    ensures
        planned(files, out_file, same_dir) == Ok::<Option<Seq<char>>, ForgeError>(None),
{
    if same_dir {
        assert(!files.contains(out_file));
    }
}

} // verus!

verus! {

/// A path `d/n` that is split into the directory `d` and the name `n` is
/// given back by joining them with `/` (the root `/` and `n` giving `/n`),
/// and the name holds no separator.
pub proof fn law_split_rejoins(path: Seq<char>)
    requires
        plain_split(path) is Some,
    ensures
        rejoin(plain_dir_of(path), plain_tail_of(path)) == path,
        !plain_tail_of(path).contains('/'),
        !plain_tail_of(path).contains('\\'),
{
    lemma_last_index_of(path, '/');
    let i = last_index_of(path, '/');
    let n = path.skip(i + 1);
    assert(path.take(i) + seq!['/'] + n =~= path);
    if i == 0 {
        assert(seq!['/'] + n =~= path);
    } else {
        assert(path.take(i) != seq!['/']) by {
            if path.take(i) == seq!['/'] {
                assert(path[0] == '/');
                lemma_split_head(path.take(i));
                assert(path.take(i).drop_first().len() == 0);
                assert(!is_plain_path(Seq::<char>::empty())) by {
                    assert(last_index_of(Seq::<char>::empty(), '/') == -1);
                }
                assert(!is_plain_path(path.take(i))) by {
                    lemma_last_index_of(path.take(i), '/');
                    assert(path.take(i)[0] == '/');
                    assert(last_index_of(path.take(i), '/') == 0);
                    assert(path.take(i).take(0) =~= Seq::<char>::empty());
                }
            }
        }
    }
    if n == parent_dir_name() {
        assert(n.len() == 2 && n[0] == '.' && n[1] == '.');
        assert(!n.contains('/') && !n.contains('\\')) by {
            if n.contains('/') || n.contains('\\') {
                let k = choose|k: int| 0 <= k < n.len() && (n[k] == '/' || n[k] == '\\');
                assert(k == 0 || k == 1);
            }
        }
    }
}

/// The path of the file `n` in the directory `d`: `d/n`, or `/n` in the
/// root `/`.
pub open spec fn rejoin(d: Seq<char>, n: Seq<char>) -> Seq<char> {
    if d == seq!['/'] {
        seq!['/'] + n
    } else {
        d + seq!['/'] + n
    }
}

/// Normalising the input files a second time, on the same platform, changes
/// nothing more: a single input file `d/n` of plain components, or a single
/// plain component, is left by the first pass as a plain component, which no
/// later pass splits.
pub proof fn law_normalize_files_twice(
    files: Seq<Seq<char>>,
    sep: char,
    first: (Option<Seq<char>>, Option<Seq<char>>),
    second: (Option<Seq<char>>, Option<Seq<char>>),
)
    requires
        sep == '/' || sep == '\\',
        files.len() == 1,
        splits_plainly(files[0]) || is_plain_component(files[0]),
        plain_parts(files[0], first),
    ensures
        input_files(input_files(files, sep, first), sep, second) == input_files(files, sep, first),
{
    let once = input_files(files, sep, first);
    if splits_plainly(files[0]) {
        lemma_plain_split(files[0]);
        if files.len() == 1 && splits(files[0], sep, first.0) && first.1 is Some {
            assert(once[0] == plain_tail_of(files[0]));
            assert(is_plain_component(once[0]));
        } else {
            assert(once == files);
            if sep == '/' {
                assert(splits(files[0], sep, first.0));
            }
            assert(!files[0].contains(sep));
        }
    }
}

} // verus!
