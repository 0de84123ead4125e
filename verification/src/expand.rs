//! Inlining of a crate's module files: each `mod name;` whose file exists
//! becomes `mod name { ... }` holding that file's expanded text, and every
//! other line gets its paths rewritten for its place in the bundle.
//!
//! The files of a crate are given as a table from path to text, so that
//! the expansion is a function of its arguments.

use vstd::prelude::*;

use crate::path::{
    chars_of_all, copy_chars, no_newline, rewrite_crate_self_refs_chars, rewrite_line_chars,
    rewritten_line, self_refs_rewritten, texts,
};
use crate::strip::{
    comments_removed, lemma_lines_no_newline, lemma_total_len_lines, lemma_total_len_push, lemma_total_len_take,
    remove_comments_chars, terminated, total_len,
};
use crate::text::{
    append_chars, chars_eq, chars_of, contains_char, count_char, ends_with, find_char,
    find_char_index, has_prefix, lemma_trim_end_shape, lemma_trim_start_shape, lines, lines_of,
    slice_vec, starts_with, string_of, trim, trim_start, trimmed, trimmed_start_from, views,
};

verus! {

broadcast use vstd::seq_lib::group_seq_properties, crate::text::lemma_views_push;

/// A `mod` declaration whose body is in another file.
pub struct ModDecl {
    /// `"pub "`, `"pub(crate) "` (the restriction as written), or `""`.
    pub visibility: String,
    pub name: String,
}

/// A file of a crate's source tree: its path and its text.
pub struct SourceFile {
    pub path: String,
    pub content: String,
}

// ---------------------------------------------------------------------
// The outside function that classifies identifier characters
// ---------------------------------------------------------------------

/// What `char::is_alphanumeric` returns for `c`.
pub uninterp spec fn char_is_alphanumeric(c: char) -> bool;

/// `char::is_alphanumeric` (Unicode `Alphabetic` or `Numeric`), whose
/// result is taken to be `char_is_alphanumeric(c)`. Of ASCII it is stated
/// that the letters and digits are alphanumeric and no other character
/// is; the Unicode tables beyond ASCII are not stated here.
#[verifier::external_body]
fn is_alphanumeric(c: char) -> (b: bool)
    ensures
        b == char_is_alphanumeric(c),
        ('a' <= c <= 'z' || 'A' <= c <= 'Z' || '0' <= c <= '9') ==> b,
        (c as u32) < 128 && !('a' <= c <= 'z' || 'A' <= c <= 'Z' || '0' <= c <= '9') ==> !b,
{
    c.is_alphanumeric()
}

// ---------------------------------------------------------------------
// Specification
// ---------------------------------------------------------------------

/// `pub`.
pub open spec fn pub_kw() -> Seq<char> {
    seq!['p', 'u', 'b']
}

/// `mod`.
pub open spec fn mod_kw() -> Seq<char> {
    seq!['m', 'o', 'd']
}

/// The text after a leading `pub` and the whitespace after it; the text
/// itself when it does not start with `pub`.
pub open spec fn after_pub(t: Seq<char>) -> Seq<char> {
    if starts_with(t, pub_kw()) {
        trim_start(t.skip(3))
    } else {
        t
    }
}

/// `mod`, then a `{` somewhere after it.
pub open spec fn opens_mod_block(s: Seq<char>) -> bool {
    starts_with(s, mod_kw()) && trim_start(s.skip(3)).contains('{')
}

/// A trimmed line opens an inline module block (`pub mod name {`,
/// `pub(crate) mod name {`, `mod name {`).
pub open spec fn inline_mod_open(t: Seq<char>) -> bool {
    let s = after_pub(t);
    if s.len() > 0 && s[0] == '(' {
        let k = find_char(s, ')');
        if k < s.len() {
            opens_mod_block(trim_start(s.skip(k as int + 1)))
        } else {
            false
        }
    } else {
        opens_mod_block(s)
    }
}

/// `r` without the `;` that end it.
pub open spec fn strip_semicolons(r: Seq<char>) -> Seq<char>
    decreases r.len(),
{
    if r.len() > 0 && r.last() == ';' {
        strip_semicolons(r.drop_last())
    } else {
        r
    }
}

/// A character that may stand in a module name: `_`, an ASCII letter or
/// digit, or a non-ASCII character that `char::is_alphanumeric` accepts.
pub open spec fn name_char(c: char) -> bool {
    (if (c as u32) < 128 {
        'a' <= c <= 'z' || 'A' <= c <= 'Z' || '0' <= c <= '9'
    } else {
        char_is_alphanumeric(c)
    }) || c == '_'
}

/// The visibility (with a trailing space when there is one) and the rest
/// of a trimmed line; `None` for `pub(` without a `)`.
pub open spec fn split_visibility(t: Seq<char>) -> Option<(Seq<char>, Seq<char>)> {
    if starts_with(t, pub_kw()) {
        let a = trim_start(t.skip(3));
        if a.len() > 0 && a[0] == '(' {
            let k = find_char(a, ')');
            if k < a.len() {
                Some((t.take(t.len() - a.len() + k + 1) + seq![' '], trim_start(a.skip(k as int + 1))))
            } else {
                None
            }
        } else {
            Some((pub_kw() + seq![' '], a))
        }
    } else {
        Some((seq![], t))
    }
}

/// The visibility and name of an external module declaration
/// (`pub mod name;`, `pub(crate) mod name;`, `mod name;`) on a trimmed
/// line; `None` for any other line, an inline module among them.
pub open spec fn mod_decl_parts(t: Seq<char>) -> Option<(Seq<char>, Seq<char>)> {
    match split_visibility(t) {
        None => None,
        Some((vis, rest)) => {
            if !starts_with(rest, mod_kw()) {
                None
            } else {
                let r = trim_start(rest.skip(3));
                if !ends_with(r, seq![';']) || r.contains('{') {
                    None
                } else {
                    let name = trim(strip_semicolons(r));
                    if name.len() == 0 || !(forall|j: int| 0 <= j < name.len() ==> name_char(name[j])) {
                        None
                    } else {
                        Some((vis, name))
                    }
                }
            }
        }
    }
}

/// `dir` joined with the relative path `comp`, as `Path::join` does it.
pub open spec fn join_path(dir: Seq<char>, comp: Seq<char>) -> Seq<char> {
    if dir.len() == 0 {
        comp
    } else if dir.last() == '/' {
        dir + comp
    } else {
        dir + seq!['/'] + comp
    }
}

/// The text of the first file whose path is `p`.
pub open spec fn file_text(files: Seq<SourceFile>, p: Seq<char>) -> Option<Seq<char>>
    decreases files.len(),
{
    if files.len() == 0 {
        None
    } else if files[0].path@ == p {
        Some(files[0].content@)
    } else {
        file_text(files.drop_first(), p)
    }
}

/// `name.rs`.
pub open spec fn rs_file(name: Seq<char>) -> Seq<char> {
    name + seq!['.', 'r', 's']
}

/// `mod.rs`.
pub open spec fn mod_rs() -> Seq<char> {
    seq!['m', 'o', 'd', '.', 'r', 's']
}

/// The text of module `name` declared in directory `dir`: `dir/name.rs`,
/// else `dir/name/mod.rs`.
pub open spec fn module_text(files: Seq<SourceFile>, dir: Seq<char>, name: Seq<char>) -> Option<
    Seq<char>,
> {
    match file_text(files, join_path(dir, rs_file(name))) {
        Some(c) => Some(c),
        None => file_text(files, join_path(join_path(dir, name), mod_rs())),
    }
}

/// The length of the longest path among the files.
pub open spec fn max_path_len(files: Seq<SourceFile>) -> nat
    decreases files.len(),
{
    if files.len() == 0 {
        0
    } else {
        let m = max_path_len(files.drop_first());
        if files[0].path@.len() > m {
            files[0].path@.len()
        } else {
            m
        }
    }
}

/// The length of the longest text among the files.
pub open spec fn max_text_len(files: Seq<SourceFile>) -> nat
    decreases files.len(),
{
    if files.len() == 0 {
        0
    } else {
        let m = max_text_len(files.drop_first());
        if files[0].content@.len() > m {
            files[0].content@.len()
        } else {
            m
        }
    }
}

/// The stack after `n` pops (a pop of an empty stack does nothing).
pub open spec fn pop_n(stack: Seq<bool>, n: nat) -> Seq<bool>
    decreases n,
{
    if n == 0 {
        stack
    } else {
        pop_n(
            if stack.len() > 0 {
                stack.drop_last()
            } else {
                stack
            },
            (n - 1) as nat,
        )
    }
}

/// The stack after `n` pushes, the first one marked `first` and the others not.
pub open spec fn push_n(stack: Seq<bool>, n: nat, first: bool) -> Seq<bool> {
    stack + Seq::new(n, |j: int| first && j == 0)
}

/// The number of marked entries.
pub open spec fn count_true(s: Seq<bool>) -> nat
    decreases s.len(),
{
    if s.len() == 0 {
        0
    } else {
        (if s.last() {
            1nat
        } else {
            0nat
        }) + count_true(s.drop_last())
    }
}

/// The stack of open braces after a line: its `}` close, then its `{`
/// open, the first of these marked when the line opens an inline module.
pub open spec fn braces_after(stack: Seq<bool>, t: Seq<char>) -> Seq<bool> {
    push_n(pop_n(stack, count_char(t, '}')), count_char(t, '{'), inline_mod_open(t))
}

/// Four spaces.
pub open spec fn four_spaces() -> Seq<char> {
    seq![' ', ' ', ' ', ' ']
}

/// The text of a module, with its comments removed if asked.
pub open spec fn text_of(src: Seq<char>, rc: bool) -> Seq<char> {
    if rc {
        comments_removed(src)
    } else {
        src
    }
}

/// A plain line of a module (no external `mod` declaration) in the bundle.
pub open spec fn plain_line_expanded(
    line: Seq<char>,
    crates: Seq<Seq<char>>,
    indent: Seq<char>,
    depth: nat,
) -> Seq<char> {
    let r1 = rewritten_line(line, crates);
    let r2 = if depth > 0 {
        self_refs_rewritten(r1, depth)
    } else {
        r1
    };
    if trim(r2).len() == 0 {
        seq!['\n']
    } else {
        indent + r2 + seq!['\n']
    }
}

/// The expansion of the lines of a module from line `i` on, with the
/// stack of braces open before it; `dir` is the directory of the module's
/// submodule files and `depth` the module's depth below the crate root.
pub open spec fn expand_lines(
    ls: Seq<Seq<char>>,
    i: int,
    stack: Seq<bool>,
    dir: Seq<char>,
    files: Seq<SourceFile>,
    crates: Seq<Seq<char>>,
    indent: Seq<char>,
    depth: nat,
    rc: bool,
) -> Seq<char>
    decreases max_path_len(files) - dir.len(), ls.len() - i,
{
    if i < 0 || i >= ls.len() {
        seq![]
    } else {
        let t = trim(ls[i]);
        match mod_decl_parts(t) {
            Some((vis, name)) => {
                let piece = match module_text(files, dir, name) {
                    Some(content) => {
                        proof {
                            lemma_module_dir_grows(files, dir, name);
                        }
                        indent + vis + mod_kw() + seq![' '] + name + seq![' ', '{', '\n']
                            + expand_lines(
                            lines(text_of(content, rc)),
                            0,
                            seq![],
                            join_path(dir, name),
                            files,
                            crates,
                            indent + four_spaces(),
                            depth + count_true(stack) + 1,
                            rc,
                        ) + indent + seq!['}', '\n']
                    },
                    None => seq![],
                };
                piece + expand_lines(ls, i + 1, stack, dir, files, crates, indent, depth, rc)
            },
            None => {
                let stack2 = braces_after(stack, t);
                plain_line_expanded(ls[i], crates, indent, depth + count_true(stack2))
                    + expand_lines(ls, i + 1, stack2, dir, files, crates, indent, depth, rc)
            },
        }
    }
}

/// What `expand_module_source` makes of a module's source text.
pub open spec fn expanded(
    src: Seq<char>,
    dir: Seq<char>,
    files: Seq<SourceFile>,
    crates: Seq<Seq<char>>,
    indent: Seq<char>,
    depth: nat,
    rc: bool,
) -> Seq<char> {
    expand_lines(lines(text_of(src, rc)), 0, seq![], dir, files, crates, indent, depth, rc)
}

/// The number of directory levels below `dir` that a module file can be in.
pub open spec fn levels_below(files: Seq<SourceFile>, dir: Seq<char>) -> nat {
    if dir.len() < max_path_len(files) {
        (max_path_len(files) - dir.len()) as nat
    } else {
        0
    }
}

/// Module depths stay within `usize`: `depth` and the largest increase
/// that each level of nested module files below `dir` can add.
pub open spec fn depth_fits(
    src_len: nat,
    dir: Seq<char>,
    files: Seq<SourceFile>,
    depth: nat,
) -> bool {
    let l = if src_len > max_text_len(files) {
        src_len
    } else {
        max_text_len(files)
    };
    depth + (levels_below(files, dir) + 1) * (l + 2) <= usize::MAX
}

// ---------------------------------------------------------------------
// Lemmas
// ---------------------------------------------------------------------

pub proof fn lemma_file_text_len(files: Seq<SourceFile>, p: Seq<char>)
    ensures
        file_text(files, p) is Some ==> p.len() <= max_path_len(files),
        file_text(files, p) matches Some(c) ==> c.len() <= max_text_len(files),
    decreases files.len(),
{
    if files.len() > 0 && files[0].path@ != p {
        lemma_file_text_len(files.drop_first(), p);
    }
}

/// The directory of a submodule's files is longer than its parent's, and
/// shorter than some file's path.
pub proof fn lemma_module_dir_grows(files: Seq<SourceFile>, dir: Seq<char>, name: Seq<char>)
    requires
        name.len() > 0,
    ensures
        module_text(files, dir, name) is Some ==> dir.len() < join_path(dir, name).len()
            < max_path_len(files),
        module_text(files, dir, name) matches Some(c) ==> c.len() <= max_text_len(files),
{
    lemma_file_text_len(files, join_path(dir, rs_file(name)));
    lemma_file_text_len(files, join_path(join_path(dir, name), mod_rs()));
}

/// A pop of the last entry changes the count by that entry.
pub proof fn lemma_count_true_bound(s: Seq<bool>)
    ensures
        count_true(s) <= s.len(),
    decreases s.len(),
{
    if s.len() > 0 {
        lemma_count_true_bound(s.drop_last());
    }
}

/// Pops never lengthen the stack.
pub proof fn lemma_pop_n_len(s: Seq<bool>, n: nat)
    ensures
        pop_n(s, n).len() <= s.len(),
    decreases n,
{
    if n > 0 {
        lemma_pop_n_len(if s.len() > 0 { s.drop_last() } else { s }, (n - 1) as nat);
    }
}

/// One more level of nested modules fits when the current one does.
pub proof fn lemma_budget_step(depth: nat, inline: nat, lv: nat, lv2: nat, l: nat, l2: nat)
    requires
        inline <= l + 1,
        lv2 + 1 <= lv,
        l2 <= l,
        depth + (lv + 1) * (l + 2) <= usize::MAX,
    ensures
        depth + inline + 1 + (lv2 + 1) * (l2 + 2) <= usize::MAX,
        depth + inline <= usize::MAX,
{
    assert((lv2 + 1) * (l2 + 2) <= lv * (l + 2)) by (nonlinear_arith)
        requires
            lv2 + 1 <= lv,
            l2 <= l,
    ;
    assert((lv + 1) * (l + 2) == lv * (l + 2) + (l + 2)) by (nonlinear_arith);
}

/// A plain line's depth fits when the module's does.
pub proof fn lemma_budget_line(depth: nat, inline: nat, lv: nat, l: nat)
    requires
        inline <= l + 1,
        depth + (lv + 1) * (l + 2) <= usize::MAX,
    ensures
        depth + inline <= usize::MAX,
{
    assert((lv + 1) * (l + 2) >= l + 2) by (nonlinear_arith);
}

proof fn lemma_expand_lines_rc(
    ls: Seq<Seq<char>>,
    i: int,
    stack: Seq<bool>,
    dir: Seq<char>,
    files: Seq<SourceFile>,
    crates: Seq<Seq<char>>,
    indent: Seq<char>,
    depth: nat,
)
    requires
        forall|j: int| 0 <= j < ls.len() ==> mod_decl_parts(trim(#[trigger] ls[j])) is None,
    ensures
        expand_lines(ls, i, stack, dir, files, crates, indent, depth, true) == expand_lines(
            ls,
            i,
            stack,
            dir,
            files,
            crates,
            indent,
            depth,
            false,
        ),
    decreases ls.len() - i,
{
    if 0 <= i < ls.len() {
        assert(mod_decl_parts(trim(ls[i])) is None);
        let stack2 = braces_after(stack, trim(ls[i]));
        lemma_expand_lines_rc(ls, i + 1, stack2, dir, files, crates, indent, depth);
    }
}

proof fn lemma_suffix_no_brace(x: Seq<char>, k: int)
    requires
        0 <= k <= x.len(),
        !x.contains('{'),
    ensures
        !x.skip(k).contains('{'),
{
    assert forall|j: int| 0 <= j < x.skip(k).len() implies x.skip(k)[j] != '{' by {
        assert(x.skip(k)[j] == x[k + j]);
    }
}

/// A line without `{` opens no inline module.
pub proof fn law_no_brace_no_inline_mod(t: Seq<char>)
    requires
        !t.contains('{'),
    ensures
        !inline_mod_open(t),
{
    let s = after_pub(t);
    if starts_with(t, pub_kw()) {
        lemma_suffix_no_brace(t, 3);
        lemma_trim_start_shape(t.skip(3));
        lemma_suffix_no_brace(t.skip(3), t.skip(3).len() - s.len());
    }
    if s.len() >= 3 {
        lemma_suffix_no_brace(s, 3);
        lemma_trim_start_shape(s.skip(3));
        lemma_suffix_no_brace(s.skip(3), s.skip(3).len() - trim_start(s.skip(3)).len());
    }
    if s.len() > 0 && s[0] == '(' {
        let k = find_char(s, ')');
        if k < s.len() {
            let u = trim_start(s.skip(k as int + 1));
            lemma_suffix_no_brace(s, k as int + 1);
            lemma_trim_start_shape(s.skip(k as int + 1));
            lemma_suffix_no_brace(s.skip(k as int + 1), s.skip(k as int + 1).len() - u.len());
            if u.len() >= 3 {
                lemma_suffix_no_brace(u, 3);
                lemma_trim_start_shape(u.skip(3));
                lemma_suffix_no_brace(u.skip(3), u.skip(3).len() - trim_start(u.skip(3)).len());
            }
        }
    }
}

/// `mod name {` and `pub mod name {` (whatever follows the brace) open an
/// inline module.
pub proof fn law_inline_mod_recognised(name: Seq<char>, tail: Seq<char>, public: bool)
    requires
        name.len() > 0,
        !crate::text::is_ws(name[0]),
    ensures
        ({
            let v = if public {
                seq!['p', 'u', 'b', ' ']
            } else {
                Seq::<char>::empty()
            };
            inline_mod_open(v + seq!['m', 'o', 'd', ' '] + name + seq![' ', '{'] + tail)
        }),
{
    let v = if public {
        seq!['p', 'u', 'b', ' ']
    } else {
        Seq::<char>::empty()
    };
    let body = seq!['m', 'o', 'd', ' '] + name + seq![' ', '{'] + tail;
    let t = v + body;
    assert(t =~= v + seq!['m', 'o', 'd', ' '] + name + seq![' ', '{'] + tail);
    assert(body[0] == 'm');
    if public {
        assert(t.take(3) =~= pub_kw());
        assert(t.skip(3) =~= seq![' '] + body);
        crate::text::lemma_trim_start_ws_prefix(seq![' '], body);
    } else {
        assert(t =~= body);
        assert(!starts_with(t, pub_kw())) by {
            assert(t.take(3)[0] == 'm');
        }
    }
    assert(after_pub(t) == body);
    assert(body.take(3) =~= mod_kw());
    let r = name + seq![' ', '{'] + tail;
    assert(body.skip(3) =~= seq![' '] + r);
    assert(r[0] == name[0]);
    crate::text::lemma_trim_start_ws_prefix(seq![' '], r);
    assert(r[name.len() + 1int] == '{');
    assert(opens_mod_block(body));
}

/// `mod name;` and `pub mod name;` are read as declarations of module
/// `name` in another file, with no visibility and with `pub `.
#[verifier::rlimit(40)]
pub proof fn law_mod_decl_recognised(name: Seq<char>, public: bool)
    requires
        name.len() > 0,
        forall|j: int| 0 <= j < name.len() ==> name_char(#[trigger] name[j]) && !crate::text::is_ws(name[j]),
    ensures
        ({
            let v = if public {
                seq!['p', 'u', 'b', ' ']
            } else {
                Seq::<char>::empty()
            };
            mod_decl_parts(v + seq!['m', 'o', 'd', ' '] + name + seq![';']) == Some((v, name))
        }),
{
    let v = if public {
        seq!['p', 'u', 'b', ' ']
    } else {
        Seq::<char>::empty()
    };
    let body = seq!['m', 'o', 'd', ' '] + name + seq![';'];
    let t = v + body;
    assert(body[0] == 'm');
    if public {
        assert(t.take(3) =~= pub_kw());
        assert(t.skip(3) =~= seq![' '] + body);
        crate::text::lemma_trim_start_ws_prefix(seq![' '], body);
        assert(split_visibility(t) == Some((v, body))) by {
            assert(pub_kw() + seq![' '] =~= v);
        }
    } else {
        assert(t =~= body);
        assert(!starts_with(t, pub_kw())) by {
            assert(t.take(3)[0] == 'm');
        }
    }
    assert(body.take(3) =~= mod_kw());
    let nsc = name + seq![';'];
    assert(body.skip(3) =~= seq![' '] + nsc);
    assert(nsc[0] == name[0]);
    crate::text::lemma_trim_start_ws_prefix(seq![' '], nsc);
    assert(nsc.skip(nsc.len() - 1) =~= seq![';']);
    assert forall|j: int| 0 <= j < nsc.len() implies nsc[j] != '{' by {
        if j < name.len() {
            assert(nsc[j] == name[j]);
            assert(name_char(name[j]));
        }
    }
    assert(nsc.drop_last() =~= name);
    assert(name_char(name.last()));
    assert(name.last() != ';');
    assert(strip_semicolons(nsc) == strip_semicolons(name));
    assert(strip_semicolons(name) == name);
    assert(!crate::text::is_ws(name[0]));
    assert(!crate::text::is_ws(name.last()));
    assert(trim_start(name) == name);
    assert(crate::text::trim_end(name) == name);
    assert(split_visibility(t) == Some((v, body)));
    assert(trim_start(body.skip(3)) == nsc);
    assert(ends_with(nsc, seq![';']));
    assert(trim(strip_semicolons(nsc)) == name);
    assert(forall|j: int| 0 <= j < name.len() ==> name_char(name[j]));
    assert(mod_decl_parts(t) == Some((v, name)));
    assert(t =~= v + seq!['m', 'o', 'd', ' '] + name + seq![';']);
}

/// Expanding with comment removal is expanding the comment-free text,
/// where that text declares no module in another file.
pub proof fn law_expand_after_comment_removal(
    src: Seq<char>,
    dir: Seq<char>,
    files: Seq<SourceFile>,
    crates: Seq<Seq<char>>,
    indent: Seq<char>,
    depth: nat,
)
    requires
        forall|j: int|
            0 <= j < lines(comments_removed(src)).len() ==> mod_decl_parts(
                trim(#[trigger] lines(comments_removed(src))[j]),
            ) is None,
    ensures
        expanded(src, dir, files, crates, indent, depth, true) == expanded(
            comments_removed(src),
            dir,
            files,
            crates,
            indent,
            depth,
            false,
        ),
{
    lemma_expand_lines_rc(lines(comments_removed(src)), 0, seq![], dir, files, crates, indent, depth);
}

/// The expansion of lines is empty or ends with a newline.
#[verifier::spinoff_prover]
#[verifier::rlimit(40)]
proof fn lemma_expand_lines_newline(
    ls: Seq<Seq<char>>,
    i: int,
    stack: Seq<bool>,
    dir: Seq<char>,
    files: Seq<SourceFile>,
    crates: Seq<Seq<char>>,
    indent: Seq<char>,
    depth: nat,
    rc: bool,
)
    ensures
        ({
            let r = expand_lines(ls, i, stack, dir, files, crates, indent, depth, rc);
            r.len() == 0 || r.last() == '\n'
        }),
    decreases ls.len() - i,
{
    if 0 <= i < ls.len() {
        let t = trim(ls[i]);
        match mod_decl_parts(t) {
            Some((vis, name)) => {
                lemma_expand_lines_newline(ls, i + 1, stack, dir, files, crates, indent, depth, rc);
                let rest = expand_lines(ls, i + 1, stack, dir, files, crates, indent, depth, rc);
                let r = expand_lines(ls, i, stack, dir, files, crates, indent, depth, rc);
                match module_text(files, dir, name) {
                    Some(content) => {
                        let inner = expand_lines(
                            lines(text_of(content, rc)),
                            0,
                            seq![],
                            join_path(dir, name),
                            files,
                            crates,
                            indent + four_spaces(),
                            depth + count_true(stack) + 1,
                            rc,
                        );
                        let piece = indent + vis + mod_kw() + seq![' '] + name + seq![' ', '{', '\n']
                            + inner + indent + seq!['}', '\n'];
                        assert(r == piece + rest);
                        assert(piece.last() == '\n');
                    },
                    None => {
                        assert(r == rest);
                    },
                }
            },
            None => {
                let stack2 = braces_after(stack, t);
                lemma_expand_lines_newline(ls, i + 1, stack2, dir, files, crates, indent, depth, rc);
                let rest = expand_lines(ls, i + 1, stack2, dir, files, crates, indent, depth, rc);
                let p = plain_line_expanded(ls[i], crates, indent, depth + count_true(stack2));
                assert(expand_lines(ls, i, stack, dir, files, crates, indent, depth, rc) == p + rest);
                assert(p.last() == '\n');
            },
        }
    }
}

/// Each non-empty line of the text starts with `ind`.
pub open spec fn lines_indented(r: Seq<char>, ind: Seq<char>) -> bool {
    forall|i: int|
        0 <= i < r.len() && (i == 0 || r[i - 1] == '\n') && r[i] != '\n' ==> #[trigger] starts_with(
            r.skip(i),
            ind,
        )
}

proof fn lemma_indented_concat(a: Seq<char>, b: Seq<char>, ind: Seq<char>)
    requires
        lines_indented(a, ind),
        lines_indented(b, ind),
        a.len() == 0 || a.last() == '\n',
    ensures
        lines_indented(a + b, ind),
{
    let x = a + b;
    assert forall|i: int|
        0 <= i < x.len() && (i == 0 || x[i - 1] == '\n') && x[i] != '\n' implies #[trigger] starts_with(
        x.skip(i),
        ind,
    ) by {
        if i < a.len() {
            assert(x[i] == a[i]);
            if i > 0 {
                assert(x[i - 1] == a[i - 1]);
            }
            assert(starts_with(a.skip(i), ind));
            assert(x.skip(i).take(ind.len() as int) =~= a.skip(i).take(ind.len() as int));
        } else {
            let j = i - a.len();
            assert(x[i] == b[j]);
            if j > 0 {
                assert(x[i - 1] == b[j - 1]);
            }
            assert(starts_with(b.skip(j), ind));
            assert(x.skip(i) =~= b.skip(j));
        }
    }
}

proof fn lemma_indented_line(ind: Seq<char>, y: Seq<char>)
    requires
        no_newline(ind),
        no_newline(y),
    ensures
        lines_indented(ind + y + seq!['\n'], ind),
{
    let x = ind + y + seq!['\n'];
    assert forall|i: int|
        0 <= i < x.len() && (i == 0 || x[i - 1] == '\n') && x[i] != '\n' implies #[trigger] starts_with(
        x.skip(i),
        ind,
    ) by {
        if i > 0 {
            if i - 1 < ind.len() {
                assert(x[i - 1] == ind[i - 1]);
            } else {
                assert(x[i - 1] == y[i - 1 - ind.len()]);
            }
        }
        assert(x.skip(0).take(ind.len() as int) =~= ind);
    }
}

proof fn lemma_indented_newline(ind: Seq<char>)
    ensures
        lines_indented(seq!['\n'], ind),
{
}

proof fn lemma_indented_empty(ind: Seq<char>)
    ensures
        lines_indented(Seq::<char>::empty(), ind),
{
}

proof fn lemma_indented_weaken(r: Seq<char>, ind: Seq<char>, more: Seq<char>)
    requires
        lines_indented(r, ind + more),
    ensures
        lines_indented(r, ind),
{
    assert forall|i: int|
        0 <= i < r.len() && (i == 0 || r[i - 1] == '\n') && r[i] != '\n' implies #[trigger] starts_with(
        r.skip(i),
        ind,
    ) by {
        assert(starts_with(r.skip(i), ind + more));
        assert(r.skip(i).take(ind.len() as int) =~= (ind + more).take(ind.len() as int));
        assert((ind + more).take(ind.len() as int) =~= ind);
    }
}

proof fn lemma_lines_nl(s: Seq<char>)
    ensures
        forall|j: int| 0 <= j < lines(s).len() ==> no_newline(#[trigger] lines(s)[j]),
{
    lemma_lines_no_newline(s);
    assert forall|j: int| 0 <= j < lines(s).len() implies no_newline(#[trigger] lines(s)[j]) by {
        assert(!lines(s)[j].contains('\n'));
        assert forall|i: int| 0 <= i < lines(s)[j].len() implies #[trigger] lines(s)[j][i] != '\n' by {
            if lines(s)[j][i] == '\n' {
                assert(lines(s)[j].contains('\n'));
            }
        }
    }
}

proof fn lemma_nl_decl(t: Seq<char>)
    requires
        no_newline(t),
    ensures
        mod_decl_parts(t) matches Some((vis, name)) ==> no_newline(vis) && no_newline(name),
{
    match split_visibility(t) {
        Some((vis, rest)) => {
            if starts_with(t, pub_kw()) {
                let a = trim_start(t.skip(3));
                if a.len() > 0 && a[0] == '(' {
                    let k = find_char(a, ')');
                    if k < a.len() {
                        let n = t.len() - a.len() + k + 1;
                        lemma_trim_start_shape(t.skip(3));
                        let v = t.take(n) + seq![' '];
                        assert forall|i: int| 0 <= i < v.len() implies #[trigger] v[i] != '\n' by {
                            if i < n {
                                assert(v[i] == t[i]);
                            }
                        }
                    }
                }
            }
            if mod_decl_parts(t) is Some {
                let parts = mod_decl_parts(t)->0;
                let name = parts.1;
                assert forall|i: int| 0 <= i < name.len() implies #[trigger] name[i] != '\n' by {
                    assert(name_char(name[i]));
                }
            }
        },
        None => {},
    }
}

/// Each non-empty line of the expansion of lines starts with the indent.
#[verifier::spinoff_prover]
#[verifier::rlimit(40)]
proof fn lemma_expand_indented(
    ls: Seq<Seq<char>>,
    i: int,
    stack: Seq<bool>,
    dir: Seq<char>,
    files: Seq<SourceFile>,
    crates: Seq<Seq<char>>,
    indent: Seq<char>,
    depth: nat,
    rc: bool,
)
    requires
        forall|j: int| 0 <= j < ls.len() ==> no_newline(#[trigger] ls[j]),
        forall|k: int| 0 <= k < crates.len() ==> no_newline(#[trigger] crates[k]),
        no_newline(indent),
    ensures
        lines_indented(expand_lines(ls, i, stack, dir, files, crates, indent, depth, rc), indent),
    decreases max_path_len(files) - dir.len(), ls.len() - i,
{
    if 0 <= i < ls.len() {
        let t = trim(ls[i]);
        assert(no_newline(ls[i]));
        crate::path::lemma_nl_trim(ls[i]);
        let r = expand_lines(ls, i, stack, dir, files, crates, indent, depth, rc);
        match mod_decl_parts(t) {
            Some((vis, name)) => {
                lemma_expand_indented(ls, i + 1, stack, dir, files, crates, indent, depth, rc);
                lemma_expand_lines_newline(ls, i, stack, dir, files, crates, indent, depth, rc);
                let rest = expand_lines(ls, i + 1, stack, dir, files, crates, indent, depth, rc);
                match module_text(files, dir, name) {
                    Some(content) => {
                        lemma_module_dir_grows(files, dir, name);
                        lemma_nl_decl(t);
                        let cl = lines(text_of(content, rc));
                        lemma_lines_nl(text_of(content, rc));
                        let ind2 = indent + four_spaces();
                        crate::path::lemma_nl_concat(indent, four_spaces());
                        let inner = expand_lines(
                            cl,
                            0,
                            seq![],
                            join_path(dir, name),
                            files,
                            crates,
                            ind2,
                            depth + count_true(stack) + 1,
                            rc,
                        );
                        lemma_expand_indented(
                            cl,
                            0,
                            seq![],
                            join_path(dir, name),
                            files,
                            crates,
                            ind2,
                            depth + count_true(stack) + 1,
                            rc,
                        );
                        lemma_expand_lines_newline(
                            cl,
                            0,
                            seq![],
                            join_path(dir, name),
                            files,
                            crates,
                            ind2,
                            depth + count_true(stack) + 1,
                            rc,
                        );
                        lemma_indented_weaken(inner, indent, four_spaces());
                        let y = vis + mod_kw() + seq![' '] + name + seq![' ', '{'];
                        crate::path::lemma_nl_concat(vis, mod_kw());
                        crate::path::lemma_nl_concat(vis + mod_kw(), seq![' ']);
                        crate::path::lemma_nl_concat(vis + mod_kw() + seq![' '], name);
                        crate::path::lemma_nl_concat(vis + mod_kw() + seq![' '] + name, seq![' ', '{']);
                        lemma_indented_line(indent, y);
                        lemma_indented_line(indent, seq!['}']);
                        let head = indent + y + seq!['\n'];
                        let tail = indent + seq!['}'] + seq!['\n'];
                        assert(indent + vis + mod_kw() + seq![' '] + name + seq![' ', '{', '\n'] =~= head);
                        assert(indent + seq!['}', '\n'] =~= tail);
                        lemma_indented_concat(head, inner, indent);
                        lemma_indented_concat(head + inner, tail, indent);
                        let piece = head + inner + tail;
                        assert(r == piece + rest);
                        lemma_indented_concat(piece, rest, indent);
                    },
                    None => {
                        assert(r == rest);
                    },
                }
            },
            None => {
                let stack2 = braces_after(stack, t);
                lemma_expand_indented(ls, i + 1, stack2, dir, files, crates, indent, depth, rc);
                let rest = expand_lines(ls, i + 1, stack2, dir, files, crates, indent, depth, rc);
                let d2 = depth + count_true(stack2);
                let p = plain_line_expanded(ls[i], crates, indent, d2);
                assert(r == p + rest);
                crate::path::lemma_nl_rewritten(ls[i], crates, d2);
                let r1 = rewritten_line(ls[i], crates);
                let r2 = if d2 > 0 {
                    self_refs_rewritten(r1, d2)
                } else {
                    r1
                };
                if trim(r2).len() == 0 {
                    lemma_indented_newline(indent);
                } else {
                    lemma_indented_line(indent, r2);
                }
                lemma_indented_concat(p, rest, indent);
            },
        }
    }
}

/// Each non-empty line of a module's expansion starts with the indent,
/// when the indent and the crate names hold no newline.
pub proof fn law_expansion_lines_indented(
    src: Seq<char>,
    dir: Seq<char>,
    files: Seq<SourceFile>,
    crates: Seq<Seq<char>>,
    indent: Seq<char>,
    depth: nat,
    rc: bool,
)
    requires
        no_newline(indent),
        forall|k: int| 0 <= k < crates.len() ==> no_newline(#[trigger] crates[k]),
    ensures
        lines_indented(expanded(src, dir, files, crates, indent, depth, rc), indent),
{
    lemma_lines_nl(text_of(src, rc));
    lemma_expand_indented(lines(text_of(src, rc)), 0, seq![], dir, files, crates, indent, depth, rc);
}

proof fn lemma_count_concat(a: Seq<char>, b: Seq<char>, c: char)
    ensures
        count_char(a + b, c) == count_char(a, c) + count_char(b, c),
    decreases a.len(),
{
    if a.len() > 0 {
        assert((a + b).drop_first() =~= a.drop_first() + b);
        lemma_count_concat(a.drop_first(), b, c);
    } else {
        assert(a + b =~= b);
    }
}

proof fn lemma_count_none(a: Seq<char>, c: char)
    requires
        forall|i: int| 0 <= i < a.len() ==> #[trigger] a[i] != c,
    ensures
        count_char(a, c) == 0,
    decreases a.len(),
{
    if a.len() > 0 {
        assert(a[0] != c);
        assert forall|i: int| 0 <= i < a.drop_first().len() implies #[trigger] a.drop_first()[i] != c by {
            assert(a.drop_first()[i] == a[i + 1]);
        }
        lemma_count_none(a.drop_first(), c);
    }
}

/// A text that ends with a newline has as many lines as newlines.
#[verifier::spinoff_prover]
#[verifier::rlimit(50)]
proof fn lemma_lines_count(s: Seq<char>)
    requires
        s.len() == 0 || s.last() == '\n',
    ensures
        lines(s).len() == count_char(s, '\n'),
    decreases s.len(),
{
    if s.len() > 0 {
        let k = find_char(s, '\n');
        crate::text::lemma_find_char_bound(s, '\n');
        crate::strip::lemma_find_char_prefix(s, '\n');
        if k >= s.len() {
            assert(s[s.len() - 1] != '\n');
        }
        let rest = s.skip(k as int + 1);
        assert(s =~= s.take(k as int) + seq!['\n'] + rest);
        assert forall|i: int| 0 <= i < s.take(k as int).len() implies #[trigger] s.take(k as int)[i] != '\n' by {}
        lemma_count_none(s.take(k as int), '\n');
        lemma_count_concat(s.take(k as int), seq!['\n'], '\n');
        lemma_count_concat(s.take(k as int) + seq!['\n'], rest, '\n');
        if rest.len() > 0 {
            assert(rest.last() == s.last());
        }
        lemma_lines_count(rest);
        assert(count_char(seq!['\n'], '\n') == 1) by {
            assert(seq!['\n'].drop_first() =~= Seq::<char>::empty());
            reveal_with_fuel(count_char, 2);
        }
        assert(lines(s) == seq![crate::text::strip_cr(s.take(k as int), true)] + lines(rest));
        assert(lines(s).len() == 1 + lines(rest).len());
    }
}

/// The expansion of lines that declare no module in another file has one
/// newline for each line.
proof fn lemma_expand_count(
    ls: Seq<Seq<char>>,
    i: int,
    stack: Seq<bool>,
    dir: Seq<char>,
    files: Seq<SourceFile>,
    crates: Seq<Seq<char>>,
    indent: Seq<char>,
    depth: nat,
)
    requires
        0 <= i <= ls.len(),
        forall|j: int| 0 <= j < ls.len() ==> no_newline(#[trigger] ls[j]),
        forall|j: int| 0 <= j < ls.len() ==> mod_decl_parts(trim(#[trigger] ls[j])) is None,
        forall|k: int| 0 <= k < crates.len() ==> no_newline(#[trigger] crates[k]),
        no_newline(indent),
    ensures
        count_char(expand_lines(ls, i, stack, dir, files, crates, indent, depth, false), '\n') == ls.len() - i,
    decreases ls.len() - i,
{
    if i < ls.len() {
        let t = trim(ls[i]);
        assert(mod_decl_parts(t) is None);
        assert(no_newline(ls[i]));
        let stack2 = braces_after(stack, t);
        lemma_expand_count(ls, i + 1, stack2, dir, files, crates, indent, depth);
        let rest = expand_lines(ls, i + 1, stack2, dir, files, crates, indent, depth, false);
        let d2 = depth + count_true(stack2);
        let p = plain_line_expanded(ls[i], crates, indent, d2);
        assert(expand_lines(ls, i, stack, dir, files, crates, indent, depth, false) == p + rest);
        crate::path::lemma_nl_rewritten(ls[i], crates, d2);
        let r1 = rewritten_line(ls[i], crates);
        let r2 = if d2 > 0 {
            self_refs_rewritten(r1, d2)
        } else {
            r1
        };
        if trim(r2).len() == 0 {
            assert(count_char(seq!['\n'], '\n') == 1) by {
                assert(seq!['\n'].drop_first() =~= Seq::<char>::empty());
                reveal_with_fuel(count_char, 2);
            }
        } else {
            crate::path::lemma_nl_concat(indent, r2);
            assert forall|j: int| 0 <= j < (indent + r2).len() implies #[trigger] (indent + r2)[j] != '\n' by {}
            lemma_count_none(indent + r2, '\n');
            lemma_count_concat(indent + r2, seq!['\n'], '\n');
            assert(count_char(seq!['\n'], '\n') == 1) by {
                assert(seq!['\n'].drop_first() =~= Seq::<char>::empty());
                reveal_with_fuel(count_char, 2);
            }
        }
        lemma_count_concat(p, rest, '\n');
    }
}

/// With comments kept, a module whose lines declare no module in another
/// file keeps its number of lines, when the indent and the crate names
/// hold no newline.
pub proof fn law_expansion_line_count(
    src: Seq<char>,
    dir: Seq<char>,
    files: Seq<SourceFile>,
    crates: Seq<Seq<char>>,
    indent: Seq<char>,
    depth: nat,
)
    requires
        no_newline(indent),
        forall|k: int| 0 <= k < crates.len() ==> no_newline(#[trigger] crates[k]),
        forall|j: int| 0 <= j < lines(src).len() ==> mod_decl_parts(trim(#[trigger] lines(src)[j])) is None,
    ensures
        lines(expanded(src, dir, files, crates, indent, depth, false)).len() == lines(src).len(),
{
    let ls = lines(src);
    lemma_lines_nl(src);
    lemma_expand_count(ls, 0, seq![], dir, files, crates, indent, depth);
    law_expansion_ends_with_newline(src, dir, files, crates, indent, depth, false);
    lemma_lines_count(expanded(src, dir, files, crates, indent, depth, false));
}

/// A module whose first line declares a module in another file that
/// exists starts with that module's block: the file's text expanded one
/// level deeper below the crate root (so that its `use crate::` paths get
/// one `super` more) and four spaces further in.
#[verifier::rlimit(40)]
pub proof fn law_module_file_one_level_deeper(
    src: Seq<char>,
    dir: Seq<char>,
    files: Seq<SourceFile>,
    crates: Seq<Seq<char>>,
    indent: Seq<char>,
    depth: nat,
    rc: bool,
)
    requires
        lines(text_of(src, rc)).len() > 0,
        mod_decl_parts(trim(lines(text_of(src, rc))[0])) is Some,
        module_text(files, dir, (mod_decl_parts(trim(lines(text_of(src, rc))[0]))->0).1) is Some,
    ensures
        ({
            let (vis, name) = mod_decl_parts(trim(lines(text_of(src, rc))[0]))->0;
            let content = module_text(files, dir, name)->0;
            starts_with(
                expanded(src, dir, files, crates, indent, depth, rc),
                indent + vis + mod_kw() + seq![' '] + name + seq![' ', '{', '\n'] + expanded(
                    content,
                    join_path(dir, name),
                    files,
                    crates,
                    indent + four_spaces(),
                    depth + 1,
                    rc,
                ) + indent + seq!['}', '\n'],
            )
        }),
{
    let ls = lines(text_of(src, rc));
    let (vis, name) = mod_decl_parts(trim(ls[0]))->0;
    let content = module_text(files, dir, name)->0;
    lemma_module_dir_grows(files, dir, name);
    assert(count_true(Seq::<bool>::empty()) == 0);
    let piece = indent + vis + mod_kw() + seq![' '] + name + seq![' ', '{', '\n'] + expanded(
        content,
        join_path(dir, name),
        files,
        crates,
        indent + four_spaces(),
        depth + 1,
        rc,
    ) + indent + seq!['}', '\n'];
    let rest = expand_lines(ls, 1, seq![], dir, files, crates, indent, depth, rc);
    assert(expanded(src, dir, files, crates, indent, depth, rc) == piece + rest);
    assert((piece + rest).take(piece.len() as int) =~= piece);
}

/// At a depth of one or more below the crate root, a module whose first
/// line is an indented `use crate::...` (naming no local crate and holding
/// no brace) starts with that line indented and made `use super::...::`,
/// one `super` for each level. With the law that a module file is
/// expanded one level deeper than the module that declares it, a file
/// reached through `k` nested declarations from the crate root gets `k`.
#[verifier::rlimit(40)]
pub proof fn law_use_crate_line_at_module_depth(
    src: Seq<char>,
    dir: Seq<char>,
    files: Seq<SourceFile>,
    crates: Seq<Seq<char>>,
    indent: Seq<char>,
    depth: nat,
    rc: bool,
    w: Seq<char>,
    rest: Seq<char>,
)
    requires
        depth >= 1,
        lines(text_of(src, rc)).len() > 0,
        lines(text_of(src, rc))[0] == w + crate::path::use_crate() + rest,
        forall|j: int| 0 <= j < w.len() ==> crate::text::is_ws(#[trigger] w[j]),
        !crate::text::contains_seq(rest, crate::path::use_crate()),
        !rest.contains('{') && !rest.contains('}'),
        forall|k: int|
            0 <= k < crates.len() ==> !starts_with(
                trim(w + crate::path::use_crate() + rest).skip(4),
                #[trigger] crate::text::underscored(crates[k]) + crate::path::colons(),
            ) && trim(w + crate::path::use_crate() + rest).skip(4) != crate::text::underscored(crates[k]) + seq![';'],
    ensures
        starts_with(
            expanded(src, dir, files, crates, indent, depth, rc),
            indent + w + crate::path::use_kw() + crate::path::super_chain(depth) + crate::path::colons()
                + rest + seq!['\n'],
        ),
{
    let ls = lines(text_of(src, rc));
    let line = w + crate::path::use_crate() + rest;
    let x = crate::path::use_crate() + rest;
    crate::path::lemma_use_crate_line_is_use(w, rest);
    let t = trim(line);
    assert(t[0] == crate::path::use_kw()[0]);
    assert(mod_decl_parts(t) is None) by {
        assert(!starts_with(t, pub_kw()));
        assert(!starts_with(t, mod_kw()));
    }
    assert forall|j: int| 0 <= j < t.len() implies t[j] != '{' && t[j] != '}' by {
        assert(t[j] == x[j]);
        if j >= 11 {
            assert(x[j] == rest[j - 11]);
        }
    }
    crate::text::lemma_count_char_absent(t, '{');
    crate::text::lemma_count_char_absent(t, '}');
    let st = braces_after(Seq::<bool>::empty(), t);
    assert(st =~= Seq::<bool>::empty());
    assert(count_true(st) == 0);
    crate::path::law_use_crate_line_gets_supers(w, rest, crates, depth);
    let r2 = w + crate::path::use_kw() + crate::path::super_chain(depth) + crate::path::colons() + rest;
    let y = crate::path::use_kw() + crate::path::super_chain(depth) + crate::path::colons() + rest;
    assert(r2 =~= w + y);
    assert(y[0] == 'u');
    crate::text::lemma_trim_start_ws_prefix(w, y);
    crate::text::lemma_trim_end_keeps(y, 0);
    assert(trim(r2).len() > 0);
    let first = indent + r2 + seq!['\n'];
    assert(plain_line_expanded(ls[0], crates, indent, depth) == first);
    let tail = expand_lines(ls, 1, st, dir, files, crates, indent, depth, rc);
    assert(expanded(src, dir, files, crates, indent, depth, rc) == first + tail);
    assert((first + tail).take(first.len() as int) =~= first);
    assert(first =~= indent + w + crate::path::use_kw() + crate::path::super_chain(depth)
        + crate::path::colons() + rest + seq!['\n']);
}

proof fn lemma_file_text_at(files: Seq<SourceFile>, p: Seq<char>, k: int)
    requires
        0 <= k < files.len(),
        files[k].path@ == p,
        forall|j: int| 0 <= j < k ==> (#[trigger] files[j]).path@ != p,
    ensures
        file_text(files, p) == Some(files[k].content@),
    decreases k,
{
    if k > 0 {
        assert(files[0].path@ != p);
        assert forall|j: int| 0 <= j < k - 1 implies (#[trigger] files.drop_first()[j]).path@ != p by {
            assert(files.drop_first()[j] == files[j + 1]);
        }
        lemma_file_text_at(files.drop_first(), p, k - 1);
    }
}

proof fn lemma_file_text_none(files: Seq<SourceFile>, p: Seq<char>)
    requires
        forall|j: int| 0 <= j < files.len() ==> (#[trigger] files[j]).path@ != p,
    ensures
        file_text(files, p) is None,
    decreases files.len(),
{
    if files.len() > 0 {
        assert(files[0].path@ != p);
        assert forall|j: int| 0 <= j < files.len() - 1 implies (#[trigger] files.drop_first()[j]).path@ != p by {
            assert(files.drop_first()[j] == files[j + 1]);
        }
        lemma_file_text_none(files.drop_first(), p);
    }
}

/// The file of module `name` declared in `dir` is `dir/name.rs` where
/// there is one, and `dir/name/mod.rs` only where there is not; of files
/// with the same path the first is read.
pub proof fn law_module_file_chosen(files: Seq<SourceFile>, dir: Seq<char>, name: Seq<char>, k: int)
    requires
        0 <= k < files.len(),
        files[k].path@ == join_path(dir, rs_file(name)) || ((forall|j: int|
            0 <= j < files.len() ==> (#[trigger] files[j]).path@ != join_path(dir, rs_file(name)))
            && files[k].path@ == join_path(join_path(dir, name), mod_rs())),
        forall|j: int| 0 <= j < k ==> (#[trigger] files[j]).path@ != files[k].path@,
    ensures
        module_text(files, dir, name) == Some(files[k].content@),
{
    lemma_file_text_at(files, files[k].path@, k);
    if files[k].path@ != join_path(dir, rs_file(name)) {
        lemma_file_text_none(files, join_path(dir, rs_file(name)));
    }
}

/// A declaration of a module in another file for which neither
/// `name.rs` nor `name/mod.rs` is among the files leaves nothing behind:
/// the line is dropped and the lines after it expand as they would have.
pub proof fn law_missing_module_file_dropped(
    ls: Seq<Seq<char>>,
    i: int,
    stack: Seq<bool>,
    dir: Seq<char>,
    files: Seq<SourceFile>,
    crates: Seq<Seq<char>>,
    indent: Seq<char>,
    depth: nat,
    rc: bool,
)
    requires
        0 <= i < ls.len(),
        mod_decl_parts(trim(ls[i])) is Some,
        file_text(files, join_path(dir, rs_file((mod_decl_parts(trim(ls[i]))->0).1))) is None,
        file_text(files, join_path(join_path(dir, (mod_decl_parts(trim(ls[i]))->0).1), mod_rs())) is None,
    ensures
        expand_lines(ls, i, stack, dir, files, crates, indent, depth, rc) == expand_lines(
            ls,
            i + 1,
            stack,
            dir,
            files,
            crates,
            indent,
            depth,
            rc,
        ),
{
    let rest = expand_lines(ls, i + 1, stack, dir, files, crates, indent, depth, rc);
    assert(Seq::<char>::empty() + rest =~= rest);
}

/// A module file declared inside an inline module (`mod name {` on the
/// line before) is expanded one level deeper still: two levels below the
/// declaring module.
#[verifier::rlimit(60)]
pub proof fn law_module_file_in_inline_module(
    src: Seq<char>,
    dir: Seq<char>,
    files: Seq<SourceFile>,
    crates: Seq<Seq<char>>,
    indent: Seq<char>,
    depth: nat,
    rc: bool,
)
    requires
        lines(text_of(src, rc)).len() >= 2,
        inline_mod_open(trim(lines(text_of(src, rc))[0])),
        count_char(trim(lines(text_of(src, rc))[0]), '{') == 1,
        count_char(trim(lines(text_of(src, rc))[0]), '}') == 0,
        mod_decl_parts(trim(lines(text_of(src, rc))[0])) is None,
        mod_decl_parts(trim(lines(text_of(src, rc))[1])) is Some,
        module_text(files, dir, (mod_decl_parts(trim(lines(text_of(src, rc))[1]))->0).1) is Some,
    ensures
        ({
            let (vis, name) = mod_decl_parts(trim(lines(text_of(src, rc))[1]))->0;
            let content = module_text(files, dir, name)->0;
            crate::text::contains_seq(
                expanded(src, dir, files, crates, indent, depth, rc),
                indent + vis + mod_kw() + seq![' '] + name + seq![' ', '{', '\n'] + expanded(
                    content,
                    join_path(dir, name),
                    files,
                    crates,
                    indent + four_spaces(),
                    depth + 2,
                    rc,
                ) + indent + seq!['}', '\n'],
            )
        }),
{
    let ls = lines(text_of(src, rc));
    let t0 = trim(ls[0]);
    let (vis, name) = mod_decl_parts(trim(ls[1]))->0;
    let content = module_text(files, dir, name)->0;
    lemma_module_dir_grows(files, dir, name);
    let st = braces_after(Seq::<bool>::empty(), t0);
    assert(pop_n(Seq::<bool>::empty(), 0) == Seq::<bool>::empty());
    assert(st =~= seq![true]);
    assert(count_true(st) == 1) by {
        assert(st.drop_last() =~= Seq::<bool>::empty());
        assert(st.last());
        assert(count_true(st.drop_last()) == 0);
        reveal_with_fuel(count_true, 2);
    }
    let first = plain_line_expanded(ls[0], crates, indent, depth + 1);
    let piece = indent + vis + mod_kw() + seq![' '] + name + seq![' ', '{', '\n'] + expanded(
        content,
        join_path(dir, name),
        files,
        crates,
        indent + four_spaces(),
        depth + 2,
        rc,
    ) + indent + seq!['}', '\n'];
    let rest = expand_lines(ls, 2, st, dir, files, crates, indent, depth, rc);
    assert(expand_lines(ls, 1, st, dir, files, crates, indent, depth, rc) == piece + rest);
    let r = expanded(src, dir, files, crates, indent, depth, rc);
    assert(r == first + (piece + rest));
    assert(r.subrange(first.len() as int, first.len() as int + piece.len() as int) =~= piece);
    assert(crate::text::occurs_at(r, piece, first.len() as int));
}

/// A module's expansion is empty or ends with a newline.
pub proof fn law_expansion_ends_with_newline(
    src: Seq<char>,
    dir: Seq<char>,
    files: Seq<SourceFile>,
    crates: Seq<Seq<char>>,
    indent: Seq<char>,
    depth: nat,
    rc: bool,
)
    ensures
        ({
            let r = expanded(src, dir, files, crates, indent, depth, rc);
            r.len() == 0 || r.last() == '\n'
        }),
{
    lemma_expand_lines_newline(lines(text_of(src, rc)), 0, seq![], dir, files, crates, indent, depth, rc);
}

// ---------------------------------------------------------------------
// Recognising module declarations
// ---------------------------------------------------------------------

fn opens_mod_block_chars(s: &Vec<char>) -> (b: bool)
    ensures
        b == opens_mod_block(s@),
{
    let m: Vec<char> = vec!['m', 'o', 'd'];
    assert(m@ =~= mod_kw());
    if !has_prefix(s, &m) {
        return false;
    }
    contains_char(&trimmed_start_from(s, 3), '{')
}

/// Whether a trimmed line, as characters, opens an inline module block.
fn inline_mod_open_chars(trimmed_line: &Vec<char>) -> (b: bool)
    ensures
        b == inline_mod_open(trimmed_line@),
{
    let t = trimmed_line;
    let p: Vec<char> = vec!['p', 'u', 'b'];
    assert(p@ =~= pub_kw());
    let s = if has_prefix(t, &p) {
        trimmed_start_from(t, 3)
    } else {
        copy_chars(t)
    };
    if s.len() > 0 && s[0] == '(' {
        let k = find_char_index(&s, ')');
        if k < s.len() {
            opens_mod_block_chars(&trimmed_start_from(&s, k + 1))
        } else {
            false
        }
    } else {
        opens_mod_block_chars(&s)
    }
}

/// Whether a trimmed line opens an inline module block (`pub mod xxx {`).
pub fn is_inline_mod_open(trimmed_line: &str) -> (b: bool)
    ensures
        b == inline_mod_open(trimmed_line@),
{
    inline_mod_open_chars(&chars_of(trimmed_line))
}

/// `r` without the `;` that end it.
fn strip_semicolons_chars(r: &Vec<char>) -> (s: Vec<char>)
    ensures
        s@ == strip_semicolons(r@),
{
    let mut k = r.len();
    while k > 0 && r[k - 1] == ';'
        invariant
            k <= r@.len(),
            strip_semicolons(r@) == strip_semicolons(r@.take(k as int)),
        decreases k,
    {
        assert(r@.take(k as int).drop_last() =~= r@.take(k - 1));
        k -= 1;
    }
    assert(r@.take(k as int) =~= r@.subrange(0, k as int));
    slice_vec(r, 0, k)
}

/// Every character may stand in a module name.
fn all_name_chars(name: &Vec<char>) -> (b: bool)
    ensures
        b == (forall|j: int| 0 <= j < name@.len() ==> name_char(name@[j])),
{
    let mut i: usize = 0;
    while i < name.len()
        invariant
            i <= name@.len(),
            forall|j: int| 0 <= j < i ==> name_char(name@[j]),
        decreases name@.len() - i,
    {
        if !(is_alphanumeric(name[i]) || name[i] == '_') {
            return false;
        }
        i += 1;
    }
    true
}

/// The visibility and the rest of a trimmed line.
#[verifier::rlimit(40)]
fn split_visibility_chars(t: &Vec<char>) -> (r: Option<(Vec<char>, Vec<char>)>)
    ensures
        match (r, split_visibility(t@)) {
            (None, None) => true,
            (Some((v, rest)), Some((sv, srest))) => v@ == sv && rest@ == srest,
            _ => false,
        },
{
    let p: Vec<char> = vec!['p', 'u', 'b'];
    assert(p@ =~= pub_kw());
    if has_prefix(t, &p) {
        let a = trimmed_start_from(t, 3);
        proof {
            lemma_trim_start_shape(t@.skip(3));
        }
        if a.len() > 0 && a[0] == '(' {
            let k = find_char_index(&a, ')');
            if k < a.len() {
                let mut vis = slice_vec(t, 0, t.len() - a.len() + k + 1);
                vis.push(' ');
                assert(t@.subrange(0, t@.len() - a@.len() + k + 1) =~= t@.take(
                    t@.len() - a@.len() + k + 1,
                ));
                let rest = trimmed_start_from(&a, k + 1);
                Some((vis, rest))
            } else {
                None
            }
        } else {
            let vis: Vec<char> = vec!['p', 'u', 'b', ' '];
            assert(vis@ =~= pub_kw() + seq![' ']);
            Some((vis, a))
        }
    } else {
        Some((Vec::new(), copy_chars(t)))
    }
}

/// The visibility and name of an external module declaration on a
/// trimmed line.
fn parse_external_mod_chars(t: &Vec<char>) -> (r: Option<(Vec<char>, Vec<char>)>)
    ensures
        match (r, mod_decl_parts(t@)) {
            (None, None) => true,
            (Some((v, n)), Some((sv, sn))) => v@ == sv && n@ == sn,
            _ => false,
        },
{
    let (vis, rest) = match split_visibility_chars(t) {
        None => return None,
        Some(p) => p,
    };
    let m: Vec<char> = vec!['m', 'o', 'd'];
    assert(m@ =~= mod_kw());
    if !has_prefix(&rest, &m) {
        return None;
    }
    let r = trimmed_start_from(&rest, 3);
    if r.len() == 0 || r[r.len() - 1] != ';' || contains_char(&r, '{') {
        proof {
            if r@.len() > 0 {
                assert(r@.skip(r@.len() - 1) =~= seq![r@.last()]);
            }
        }
        return None;
    }
    assert(r@.skip(r@.len() - 1) =~= seq![';']);
    let name = trimmed(&strip_semicolons_chars(&r));
    if name.len() == 0 || !all_name_chars(&name) {
        return None;
    }
    Some((vis, name))
}

/// Parses an external module declaration (`pub mod xxx;`, `pub(crate) mod
/// xxx;`, `mod xxx;`) on a trimmed line; an inline module is none.
pub fn parse_external_mod(trimmed_line: &str) -> (r: Option<ModDecl>)
    ensures
        match (r, mod_decl_parts(trimmed_line@)) {
            (None, None) => true,
            (Some(d), Some((sv, sn))) => d.visibility@ == sv && d.name@ == sn,
            _ => false,
        },
{
    match parse_external_mod_chars(&chars_of(trimmed_line)) {
        None => None,
        Some((v, n)) => Some(ModDecl { visibility: string_of(&v), name: string_of(&n) }),
    }
}

// ---------------------------------------------------------------------
// Finding module files
// ---------------------------------------------------------------------

/// `dir` joined with the relative path `comp`.
fn join_path_chars(dir: &Vec<char>, comp: &Vec<char>) -> (r: Vec<char>)
    ensures
        r@ == join_path(dir@, comp@),
{
    let mut r = copy_chars(dir);
    if dir.len() > 0 && dir[dir.len() - 1] != '/' {
        r.push('/');
    }
    append_chars(&mut r, comp);
    r
}

/// The text of the first file whose path is `p`.
fn file_text_chars(files: &Vec<SourceFile>, p: &Vec<char>) -> (r: Option<Vec<char>>)
    ensures
        match (r, file_text(files@, p@)) {
            (None, None) => true,
            (Some(c), Some(sc)) => c@ == sc,
            _ => false,
        },
{
    let mut i: usize = 0;
    while i < files.len()
        invariant
            i <= files@.len(),
            file_text(files@, p@) == file_text(files@.skip(i as int), p@),
        decreases files@.len() - i,
    {
        assert(files@.skip(i as int).drop_first() =~= files@.skip(i + 1));
        assert(files@.skip(i as int)[0] == files@[i as int]);
        if chars_eq(&chars_of(files[i].path.as_str()), p) {
            return Some(chars_of(files[i].content.as_str()));
        }
        i += 1;
    }
    None
}

/// The text of module `name` declared in directory `dir`.
fn module_text_chars(files: &Vec<SourceFile>, dir: &Vec<char>, name: &Vec<char>) -> (r: Option<
    Vec<char>,
>)
    ensures
        match (r, module_text(files@, dir@, name@)) {
            (None, None) => true,
            (Some(c), Some(sc)) => c@ == sc,
            _ => false,
        },
{
    let mut file = copy_chars(name);
    append_chars(&mut file, &vec!['.', 'r', 's']);
    assert(file@ =~= rs_file(name@));
    match file_text_chars(files, &join_path_chars(dir, &file)) {
        Some(c) => Some(c),
        None => {
            let m: Vec<char> = vec!['m', 'o', 'd', '.', 'r', 's'];
            assert(m@ =~= mod_rs());
            file_text_chars(files, &join_path_chars(&join_path_chars(dir, name), &m))
        },
    }
}

/// The number of marked entries.
fn count_true_of(s: &Vec<bool>) -> (n: usize)
    ensures
        n == count_true(s@),
{
    let mut n: usize = 0;
    let mut i: usize = 0;
    while i < s.len()
        invariant
            i <= s@.len(),
            n == count_true(s@.take(i as int)),
            n <= i,
        decreases s@.len() - i,
    {
        assert(s@.take(i + 1).drop_last() =~= s@.take(i as int));
        if s[i] {
            n += 1;
        }
        i += 1;
    }
    assert(s@.take(s@.len() as int) =~= s@);
    n
}

/// The brace stack after a (trimmed) line.
fn update_braces(stack: &mut Vec<bool>, t: &Vec<char>)
    ensures
        final(stack)@ == braces_after(old(stack)@, t@),
        final(stack)@.len() <= old(stack)@.len() + t@.len(),
{
    let (opens, closes) = crate::strip::brace_counts(t);
    let ghost orig = stack@;
    let mut k: usize = 0;
    while k < closes
        invariant
            k <= closes,
            closes == count_char(t@, '}'),
            pop_n(orig, closes as nat) == pop_n(stack@, (closes - k) as nat),
            stack@.len() <= orig.len(),
        decreases closes - k,
    {
        stack.pop();
        k += 1;
    }
    assert(pop_n(stack@, 0) == stack@);
    let first = inline_mod_open_chars(t);
    let ghost popped = stack@;
    let mut j: usize = 0;
    while j < opens
        invariant
            j <= opens,
            opens == count_char(t@, '{'),
            first == inline_mod_open(t@),
            stack@ == popped + Seq::new(j as nat, |x: int| first && x == 0),
        decreases opens - j,
    {
        stack.push(first && j == 0);
        assert(popped + Seq::new((j + 1) as nat, |x: int| first && x == 0) =~= (popped + Seq::new(
            j as nat,
            |x: int| first && x == 0,
        )).push(first && j == 0));
        j += 1;
    }
}

/// A plain line in the bundle: rewritten, indented, newline-terminated
/// (a line that is blank after rewriting becomes an empty line).
fn plain_line_chars(line: &Vec<char>, crates: &Vec<Vec<char>>, indent: &Vec<char>, total: usize) -> (r:
    Vec<char>)
    ensures
        r@ == plain_line_expanded(line@, views(crates@), indent@, total as nat),
{
    let mut r = rewrite_line_chars(line, crates);
    if total > 0 {
        r = rewrite_crate_self_refs_chars(&r, total);
    }
    if trimmed(&r).len() == 0 {
        vec!['\n']
    } else {
        let mut out = copy_chars(indent);
        append_chars(&mut out, &r);
        out.push('\n');
        out
    }
}

/// The expansion of a module's source text (see `expanded`).
#[verifier::rlimit(80)]
#[verifier::spinoff_prover]
pub fn expand_chars(
    src: &Vec<char>,
    dir: &Vec<char>,
    files: &Vec<SourceFile>,
    crates: &Vec<Vec<char>>,
    indent: &Vec<char>,
    depth: usize,
    rc: bool,
) -> (r: Vec<char>)
    requires
        depth_fits(src@.len(), dir@, files@, depth as nat),
    ensures
        r@ == expanded(src@, dir@, files@, views(crates@), indent@, depth as nat, rc),
    decreases max_path_len(files@) - dir@.len(),
{
    let text = if rc {
        remove_comments_chars(src)
    } else {
        copy_chars(src)
    };
    proof {
        crate::strip::lemma_comments_removed_len(src@);
        lemma_total_len_lines(text@);
    }
    let ls = lines_of(&text);
    let ghost all = views(ls@);
    let ghost cs = views(crates@);
    let ghost big_l: nat = if src@.len() > max_text_len(files@) {
        src@.len()
    } else {
        max_text_len(files@)
    };
    let mut out: Vec<char> = Vec::new();
    let mut stack: Vec<bool> = Vec::new();
    let mut i: usize = 0;
    assert(out@ + expand_lines(all, 0, seq![], dir@, files@, cs, indent@, depth as nat, rc)
        =~= expanded(src@, dir@, files@, cs, indent@, depth as nat, rc));
    while i < ls.len()
        invariant
            i <= ls@.len(),
            all == views(ls@),
            all == lines(text@),
            cs == views(crates@),
            text@ == text_of(src@, rc),
            total_len(all) <= text@.len() <= src@.len() + 1,
            big_l == (if src@.len() > max_text_len(files@) {
                src@.len()
            } else {
                max_text_len(files@)
            }),
            depth + (levels_below(files@, dir@) + 1) * (big_l + 2) <= usize::MAX,
            stack@.len() <= total_len(all.take(i as int)),
            expanded(src@, dir@, files@, cs, indent@, depth as nat, rc) == out@ + expand_lines(
                all,
                i as int,
                stack@,
                dir@,
                files@,
                cs,
                indent@,
                depth as nat,
                rc,
            ),
        decreases ls@.len() - i,
    {
        let t = trimmed(&ls[i]);
        proof {
            assert(all.take(i + 1) =~= all.take(i as int).push(all[i as int]));
            lemma_total_len_push(all.take(i as int), all[i as int]);
            lemma_total_len_take(all, i + 1);
            lemma_trim_start_shape(all[i as int]);
            lemma_trim_end_shape(trim_start(all[i as int]));
            lemma_count_true_bound(stack@);
        }
        let ghost before = out@;
        let ghost stack0 = stack@;
        match parse_external_mod_chars(&t) {
            Some((vis, name)) => {
                match module_text_chars(files, dir, &name) {
                    Some(content) => {
                        proof {
                            lemma_module_dir_grows(files@, dir@, name@);
                        }
                        let sub_dir = join_path_chars(dir, &name);
                        let inline = count_true_of(&stack);
                        let mut sub_indent = copy_chars(indent);
                        append_chars(&mut sub_indent, &vec![' ', ' ', ' ', ' ']);
                        assert(sub_indent@ =~= indent@ + four_spaces());
                        proof {
                            let l2: nat = if content@.len() > max_text_len(files@) {
                                content@.len()
                            } else {
                                max_text_len(files@)
                            };
                            lemma_budget_step(
                                depth as nat,
                                inline as nat,
                                levels_below(files@, dir@),
                                levels_below(files@, sub_dir@),
                                big_l,
                                l2,
                            );
                        }
                        let inner = expand_chars(
                            &content,
                            &sub_dir,
                            files,
                            crates,
                            &sub_indent,
                            depth + inline + 1,
                            rc,
                        );
                        let mut head: Vec<char> = copy_chars(indent);
                        append_chars(&mut head, &vis);
                        append_chars(&mut head, &vec!['m', 'o', 'd', ' ']);
                        append_chars(&mut head, &name);
                        append_chars(&mut head, &vec![' ', '{', '\n']);
                        append_chars(&mut head, &inner);
                        append_chars(&mut head, indent);
                        append_chars(&mut head, &vec!['}', '\n']);
                        assert(head@ =~= indent@ + vis@ + mod_kw() + seq![' '] + name@ + seq![
                            ' ',
                            '{',
                            '\n',
                        ] + inner@ + indent@ + seq!['}', '\n']);
                        append_chars(&mut out, &head);
                    },
                    None => {},
                }
                assert(out@ + expand_lines(
                    all,
                    i + 1,
                    stack@,
                    dir@,
                    files@,
                    cs,
                    indent@,
                    depth as nat,
                    rc,
                ) =~= before + expand_lines(
                    all,
                    i as int,
                    stack0,
                    dir@,
                    files@,
                    cs,
                    indent@,
                    depth as nat,
                    rc,
                ));
            },
            None => {
                update_braces(&mut stack, &t);
                let inline = count_true_of(&stack);
                proof {
                    lemma_count_true_bound(stack@);
                    lemma_budget_line(
                        depth as nat,
                        inline as nat,
                        levels_below(files@, dir@),
                        big_l,
                    );
                }
                let piece = plain_line_chars(&ls[i], crates, indent, depth + inline);
                append_chars(&mut out, &piece);
                assert(out@ + expand_lines(
                    all,
                    i + 1,
                    stack@,
                    dir@,
                    files@,
                    cs,
                    indent@,
                    depth as nat,
                    rc,
                ) =~= before + expand_lines(
                    all,
                    i as int,
                    stack0,
                    dir@,
                    files@,
                    cs,
                    indent@,
                    depth as nat,
                    rc,
                ));
            },
        }
        i += 1;
    }
    out
}

/// The longest path and the longest text among the files.
fn max_lens(files: &Vec<SourceFile>) -> (r: (usize, usize))
    ensures
        r.0 == max_path_len(files@),
        r.1 == max_text_len(files@),
{
    let mut mp: usize = 0;
    let mut mt: usize = 0;
    let mut i = files.len();
    while i > 0
        invariant
            i <= files@.len(),
            mp == max_path_len(files@.skip(i as int)),
            mt == max_text_len(files@.skip(i as int)),
        decreases i,
    {
        i -= 1;
        assert(files@.skip(i as int).drop_first() =~= files@.skip(i + 1));
        assert(files@.skip(i as int)[0] == files@[i as int]);
        let p = chars_of(files[i].path.as_str()).len();
        let c = chars_of(files[i].content.as_str()).len();
        if p > mp {
            mp = p;
        }
        if c > mt {
            mt = c;
        }
    }
    assert(files@.skip(0) =~= files@);
    (mp, mt)
}

/// Whether the module depths of an expansion stay within `usize` (see
/// `depth_fits`), as `expand_module_source` requires.
pub fn expansion_fits(source: &str, parent_dir: &str, files: &Vec<SourceFile>, mod_depth: usize) -> (b:
    bool)
    ensures
        b == depth_fits(source@.len(), parent_dir@, files@, mod_depth as nat),
{
    let (mp, mt) = max_lens(files);
    let src_len = chars_of(source).len();
    let dir_len = chars_of(parent_dir).len();
    let levels: usize = if dir_len < mp {
        mp - dir_len
    } else {
        0
    };
    let l: usize = if src_len > mt {
        src_len
    } else {
        mt
    };
    assert(levels == levels_below(files@, parent_dir@));
    let ghost lv = levels as nat;
    let ghost big_l = l as nat;
    proof {
        assert((lv + 1) * (big_l + 2) >= big_l + 2) by (nonlinear_arith);
        assert((lv + 1) * (big_l + 2) >= lv + 1) by (nonlinear_arith);
    }
    let l2 = match l.checked_add(2) {
        Some(x) => x,
        None => return false,
    };
    let lv1 = match levels.checked_add(1) {
        Some(x) => x,
        None => return false,
    };
    let prod = match lv1.checked_mul(l2) {
        Some(x) => x,
        None => return false,
    };
    match prod.checked_add(mod_depth) {
        Some(_) => true,
        None => false,
    }
}

/// Expands a module's source: rewrites the paths of each line for the
/// module's place in the bundle (`depth` levels below the crate root) and
/// inlines each `mod name;` whose file `dir/name.rs` or `dir/name/mod.rs`
/// is among `files`, indented by four more spaces; a declaration whose
/// file is missing is left out. With `remove_comments`, comments are
/// removed from each module's text first.
pub fn expand_module_source(
    source: &str,
    parent_dir: &str,
    files: &Vec<SourceFile>,
    local_crates: &Vec<String>,
    base_indent: &str,
    mod_depth: usize,
    remove_comments: bool,
) -> (r: String)
    requires
        depth_fits(source@.len(), parent_dir@, files@, mod_depth as nat),
    ensures
        r@ == expanded(
            source@,
            parent_dir@,
            files@,
            texts(local_crates@),
            base_indent@,
            mod_depth as nat,
            remove_comments,
        ),
{
    let crates = chars_of_all(local_crates);
    let r = expand_chars(
        &chars_of(source),
        &chars_of(parent_dir),
        files,
        &crates,
        &chars_of(base_indent),
        mod_depth,
        remove_comments,
    );
    string_of(&r)
}

} // verus!
