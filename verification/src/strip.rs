//! Removal of comments and of `#[cfg(test)]` items from source text.

use vstd::prelude::*;

use crate::path::{copy_chars, final_newline};
use crate::text::{
    count_char, chars_eq, chars_of, join, join_chars, lines, lines_of, slice_vec, string_of, trim,
    trim_end, trim_end_index, trim_start_index, views, is_ws,
};

verus! {

broadcast use vstd::seq_lib::group_seq_properties, crate::text::lemma_views_push;

// ---------------------------------------------------------------------
// The lexical structure that comment removal follows
// ---------------------------------------------------------------------

/// The index just after a `"..."` literal whose body is scanned from `j`:
/// after the closing quote, a backslash escaping the next character; the
/// end of the text if the literal is not closed.
pub open spec fn string_end(s: Seq<char>, j: int) -> int
    decreases s.len() - j,
{
    if j >= s.len() {
        s.len() as int
    } else if s[j] == '"' {
        j + 1
    } else if s[j] == '\\' {
        if j + 1 < s.len() {
            string_end(s, j + 2)
        } else {
            s.len() as int
        }
    } else {
        string_end(s, j + 1)
    }
}

/// The number of `#` in a row from `j`, at most `max`.
pub open spec fn hash_run(s: Seq<char>, j: int, max: nat) -> nat
    decreases s.len() - j,
{
    if 0 <= j < s.len() && s[j] == '#' && max > 0 {
        1 + hash_run(s, j + 1, (max - 1) as nat)
    } else {
        0
    }
}

/// The index just after a raw string literal with `h` hashes whose body
/// is scanned from `k`: after a `"` followed by `h` times `#`; the end of
/// the text if it is not closed.
pub open spec fn raw_end(s: Seq<char>, k: int, h: nat) -> int
    decreases s.len() - k,
{
    if k >= s.len() {
        s.len() as int
    } else if s[k] == '"' && hash_run(s, k + 1, h) == h {
        k + 1 + h
    } else {
        raw_end(s, k + 1, h)
    }
}

/// The index of the first `c` at or after `j`, or the length of `s`.
pub open spec fn next_index(s: Seq<char>, j: int, c: char) -> int
    decreases s.len() - j,
{
    if j >= s.len() {
        s.len() as int
    } else if s[j] == c {
        j
    } else {
        next_index(s, j + 1, c)
    }
}

/// The index just after a block comment scanned from `k` at nesting depth `d`.
pub open spec fn block_end(s: Seq<char>, k: int, d: nat) -> int
    decreases s.len() - k,
{
    if k >= s.len() || d == 0 {
        k
    } else if k + 1 < s.len() && s[k] == '/' && s[k + 1] == '*' {
        block_end(s, k + 2, d + 1)
    } else if k + 1 < s.len() && s[k] == '*' && s[k + 1] == '/' {
        block_end(s, k + 2, (d - 1) as nat)
    } else {
        block_end(s, k + 1, d)
    }
}

/// At `i` begins a raw string literal: `r`, then `#`s, then `"`.
pub open spec fn raw_start(s: Seq<char>, i: int) -> bool {
    &&& s[i] == 'r'
    &&& i + 1 < s.len()
    &&& (s[i + 1] == '"' || s[i + 1] == '#')
    &&& i + 1 + hash_run(s, i + 1, s.len()) < s.len()
    &&& s[i + 1 + hash_run(s, i + 1, s.len())] == '"'
}

/// At `i` begins a block comment.
pub open spec fn block_start(s: Seq<char>, i: int) -> bool {
    i + 1 < s.len() && s[i] == '/' && s[i + 1] == '*'
}

/// At `i` begins a line comment.
pub open spec fn line_comment_start(s: Seq<char>, i: int) -> bool {
    i + 1 < s.len() && s[i] == '/' && s[i + 1] == '/'
}

/// `// --- bundled ---`, the line that separates the bundled libraries
/// from the program.
pub open spec fn separator_line() -> Seq<char> {
    seq!['/', '/', ' ', '-', '-', '-', ' ', 'b', 'u', 'n', 'd', 'l', 'e', 'd', ' ', '-', '-', '-']
}

/// The index where the line that holds position `i` begins.
pub open spec fn line_start(s: Seq<char>, i: int) -> int
    decreases i,
{
    if i <= 0 {
        0
    } else if s[i - 1] == '\n' {
        i
    } else {
        line_start(s, i - 1)
    }
}

/// The line that holds position `i`, trimmed, is the separator line.
pub open spec fn separator_line_at(s: Seq<char>, i: int) -> bool {
    trim(s.subrange(line_start(s, i), next_index(s, i, '\n'))) == separator_line()
}

/// The index just after the token that begins at `i`: a string literal, a
/// raw string literal, a character literal (or a lone quote), a comment,
/// or a single character.
pub open spec fn token_end(s: Seq<char>, i: int) -> int {
    if s[i] == '"' {
        string_end(s, i + 1)
    } else if raw_start(s, i) {
        let h = hash_run(s, i + 1, s.len());
        raw_end(s, i + 2 + h, h)
    } else if s[i] == '\'' {
        if i + 2 < s.len() && s[i + 1] == '\\' {
            let k = next_index(s, i + 1, '\'');
            if k < s.len() {
                k + 1
            } else {
                s.len() as int
            }
        } else if i + 2 < s.len() && s[i + 2] == '\'' {
            i + 3
        } else {
            i + 1
        }
    } else if block_start(s, i) {
        block_end(s, i + 2, 1)
    } else if line_comment_start(s, i) {
        next_index(s, i, '\n')
    } else {
        i + 1
    }
}

/// The token that begins at `i` is a comment to remove: a block comment,
/// or a line comment other than the separator line.
pub open spec fn token_is_comment(s: Seq<char>, i: int) -> bool {
    s[i] != '"' && !raw_start(s, i) && s[i] != '\'' && (block_start(s, i) || (line_comment_start(
        s,
        i,
    ) && !separator_line_at(s, i)))
}

/// `s` from `i` on, with its comments left out and everything else kept.
pub open spec fn uncommented_from(s: Seq<char>, i: int) -> Seq<char>
    decreases s.len() - i,
{
    if i < 0 || i >= s.len() {
        seq![]
    } else {
        let e = token_end(s, i);
        proof {
            lemma_token_end_bounds(s, i);
        }
        (if token_is_comment(s, i) {
            seq![]
        } else {
            s.subrange(i, e)
        }) + uncommented_from(s, e)
    }
}

/// The lines, each without trailing whitespace, and a blank line left out
/// when it follows a blank line.
pub open spec fn tidy_lines(ls: Seq<Seq<char>>, prev_blank: bool) -> Seq<Seq<char>>
    decreases ls.len(),
{
    if ls.len() == 0 {
        seq![]
    } else {
        let l = trim_end(ls[0]);
        let blank = l.len() == 0;
        if blank && prev_blank {
            tidy_lines(ls.drop_first(), prev_blank)
        } else {
            seq![l] + tidy_lines(ls.drop_first(), blank)
        }
    }
}

/// Each line followed by a newline.
pub open spec fn terminated(ls: Seq<Seq<char>>) -> Seq<char>
    decreases ls.len(),
{
    if ls.len() == 0 {
        seq![]
    } else {
        ls[0] + seq!['\n'] + terminated(ls.drop_first())
    }
}

/// `s` without the newlines that end it after the first.
pub open spec fn single_final_newline(s: Seq<char>) -> Seq<char>
    decreases s.len(),
{
    if s.len() >= 2 && s[s.len() - 1] == '\n' && s[s.len() - 2] == '\n' {
        single_final_newline(s.drop_last())
    } else {
        s
    }
}

/// What `remove_comments` makes of a source text.
pub open spec fn comments_removed(s: Seq<char>) -> Seq<char> {
    single_final_newline(terminated(tidy_lines(lines(uncommented_from(s, 0)), false)))
}

/// `#[cfg(test)]`.
pub open spec fn cfg_test_attr() -> Seq<char> {
    seq!['#', '[', 'c', 'f', 'g', '(', 't', 'e', 's', 't', ')', ']']
}

/// The nesting depth that a line adds: its `{` less its `}`.
pub open spec fn brace_delta(l: Seq<char>) -> int {
    count_char(l, '{') - count_char(l, '}')
}

/// The number of lines, from the first of `ls`, that a braced block takes
/// when the nesting depth before it is `d`: up to the line after which the
/// depth is back to zero, or all of them.
pub open spec fn block_lines(ls: Seq<Seq<char>>, d: int) -> nat
    decreases ls.len(),
{
    if ls.len() == 0 {
        0
    } else if d + brace_delta(ls[0]) == 0 || ls.len() == 1 {
        1
    } else {
        1 + block_lines(ls.drop_first(), d + brace_delta(ls[0]))
    }
}

/// The lines without each `#[cfg(test)]` line and the item after it: the
/// braced block that starts on the next line, or that next line alone.
pub open spec fn without_cfg_test(ls: Seq<Seq<char>>) -> Seq<Seq<char>>
    decreases ls.len(),
{
    if ls.len() == 0 {
        seq![]
    } else if trim(ls[0]) == cfg_test_attr() {
        if ls.len() == 1 {
            seq![]
        } else if ls[1].contains('{') {
            let n = block_lines(ls.skip(1), 0);
            proof {
                lemma_block_lines_bounds(ls.skip(1), 0);
            }
            without_cfg_test(ls.skip(1 + n as int))
        } else {
            without_cfg_test(ls.skip(2))
        }
    } else {
        seq![ls[0]] + without_cfg_test(ls.drop_first())
    }
}

/// What `remove_cfg_test` makes of a source text.
pub open spec fn cfg_test_removed(s: Seq<char>) -> Seq<char> {
    join(without_cfg_test(lines(s)), seq!['\n']) + final_newline(s)
}

/// The number of characters of all the lines.
pub open spec fn total_len(ls: Seq<Seq<char>>) -> nat
    decreases ls.len(),
{
    if ls.len() == 0 {
        0
    } else {
        ls[0].len() + total_len(ls.drop_first())
    }
}

pub proof fn lemma_block_lines_bounds(ls: Seq<Seq<char>>, d: int)
    ensures
        ls.len() > 0 ==> 1 <= block_lines(ls, d),
        block_lines(ls, d) <= ls.len(),
    decreases ls.len(),
{
    if ls.len() > 1 {
        lemma_block_lines_bounds(ls.drop_first(), d + brace_delta(ls[0]));
    }
}

pub proof fn lemma_total_len_push(ls: Seq<Seq<char>>, x: Seq<char>)
    ensures
        total_len(ls.push(x)) == total_len(ls) + x.len(),
    decreases ls.len(),
{
    if ls.len() > 0 {
        assert(ls.push(x).drop_first() =~= ls.drop_first().push(x));
        lemma_total_len_push(ls.drop_first(), x);
    } else {
        assert(ls.push(x).drop_first() =~= Seq::<Seq<char>>::empty());
    }
}

pub proof fn lemma_total_len_take(ls: Seq<Seq<char>>, i: int)
    requires
        0 <= i <= ls.len(),
    ensures
        total_len(ls.take(i)) <= total_len(ls),
    decreases ls.len() - i,
{
    if i < ls.len() {
        assert(ls.take(i + 1) =~= ls.take(i).push(ls[i]));
        lemma_total_len_push(ls.take(i), ls[i]);
        lemma_total_len_take(ls, i + 1);
    } else {
        assert(ls.take(i) =~= ls);
    }
}

/// The lines of a text hold no more characters than the text.
pub proof fn lemma_total_len_lines(s: Seq<char>)
    ensures
        total_len(lines(s)) <= s.len(),
    decreases s.len(),
{
    if s.len() > 0 {
        let k = crate::text::find_char(s, '\n');
        crate::text::lemma_find_char_bound(s, '\n');
        if k < s.len() {
            let rest = s.skip(k as int + 1);
            lemma_total_len_lines(rest);
            let l = crate::text::strip_cr(s.take(k as int), true);
            let x = seq![l] + lines(rest);
            assert(lines(s) == x);
            assert(x.drop_first() =~= lines(rest));
            assert(x[0] == l);
            assert(l.len() <= k);
            assert(total_len(x) == l.len() + total_len(lines(rest)));
        } else {
            assert(lines(s) == seq![s]);
            assert(seq![s].drop_first() =~= Seq::<Seq<char>>::empty());
            assert(total_len(seq![s]) == s.len() + total_len(Seq::<Seq<char>>::empty()));
        }
    }
}

/// Leaving comments out never lengthens the text.
pub proof fn lemma_uncommented_len(s: Seq<char>, i: int)
    requires
        0 <= i <= s.len(),
    ensures
        uncommented_from(s, i).len() <= s.len() - i,
    decreases s.len() - i,
{
    if i < s.len() {
        lemma_token_end_bounds(s, i);
        lemma_uncommented_len(s, token_end(s, i));
    }
}

/// The lines of a text, with one newline each, are at most one character
/// longer than the text.
pub proof fn lemma_lines_size(s: Seq<char>)
    ensures
        total_len(lines(s)) + lines(s).len() <= s.len() + 1,
    decreases s.len(),
{
    if s.len() > 0 {
        let k = crate::text::find_char(s, '\n');
        crate::text::lemma_find_char_bound(s, '\n');
        if k < s.len() {
            let rest = s.skip(k as int + 1);
            lemma_lines_size(rest);
            let l = crate::text::strip_cr(s.take(k as int), true);
            let x = seq![l] + lines(rest);
            assert(lines(s) == x);
            assert(x.drop_first() =~= lines(rest));
            assert(x[0] == l);
            assert(total_len(x) == l.len() + total_len(lines(rest)));
        } else {
            assert(lines(s) == seq![s]);
            assert(seq![s].drop_first() =~= Seq::<Seq<char>>::empty());
            assert(total_len(seq![s]) == s.len() + total_len(Seq::<Seq<char>>::empty()));
        }
    }
}

/// Tidying lines never lengthens them.
pub proof fn lemma_tidy_size(ls: Seq<Seq<char>>, pb: bool)
    ensures
        total_len(tidy_lines(ls, pb)) + tidy_lines(ls, pb).len() <= total_len(ls) + ls.len(),
    decreases ls.len(),
{
    if ls.len() > 0 {
        let l = trim_end(ls[0]);
        crate::text::lemma_trim_end_shape(ls[0]);
        let blank = l.len() == 0;
        if blank && pb {
            lemma_tidy_size(ls.drop_first(), pb);
        } else {
            lemma_tidy_size(ls.drop_first(), blank);
            let x = seq![l] + tidy_lines(ls.drop_first(), blank);
            assert(x.drop_first() =~= tidy_lines(ls.drop_first(), blank));
            assert(x[0] == l);
        }
    }
}

/// Terminated lines take one character more each.
pub proof fn lemma_terminated_len(ls: Seq<Seq<char>>)
    ensures
        terminated(ls).len() == total_len(ls) + ls.len(),
    decreases ls.len(),
{
    if ls.len() > 0 {
        lemma_terminated_len(ls.drop_first());
    }
}

/// Dropping final newlines never lengthens a text.
pub proof fn lemma_single_final_newline_len(s: Seq<char>)
    ensures
        single_final_newline(s).len() <= s.len(),
    decreases s.len(),
{
    if s.len() >= 2 && s[s.len() - 1] == '\n' && s[s.len() - 2] == '\n' {
        lemma_single_final_newline_len(s.drop_last());
    }
}

/// Comment removal lengthens a text by at most one character.
pub proof fn lemma_comments_removed_len(s: Seq<char>)
    ensures
        comments_removed(s).len() <= s.len() + 1,
{
    let u = uncommented_from(s, 0);
    lemma_uncommented_len(s, 0);
    lemma_lines_size(u);
    lemma_tidy_size(lines(u), false);
    lemma_terminated_len(tidy_lines(lines(u), false));
    lemma_single_final_newline_len(terminated(tidy_lines(lines(u), false)));
}

// ---------------------------------------------------------------------
// Bounds of the token scanners
// ---------------------------------------------------------------------

pub proof fn lemma_string_end(s: Seq<char>, j: int)
    requires
        0 <= j <= s.len(),
    ensures
        j <= string_end(s, j) <= s.len(),
    decreases s.len() - j,
{
    if j < s.len() && s[j] != '"' {
        if s[j] == '\\' {
            if j + 1 < s.len() {
                lemma_string_end(s, j + 2);
            }
        } else {
            lemma_string_end(s, j + 1);
        }
    }
}

pub proof fn lemma_hash_run(s: Seq<char>, j: int, max: nat)
    requires
        0 <= j,
    ensures
        hash_run(s, j, max) <= max,
        j + hash_run(s, j, max) <= s.len() || hash_run(s, j, max) == 0,
        forall|k: int| j <= k < j + hash_run(s, j, max) ==> s[k] == '#',
    decreases s.len() - j,
{
    if 0 <= j < s.len() && s[j] == '#' && max > 0 {
        lemma_hash_run(s, j + 1, (max - 1) as nat);
    }
}

pub proof fn lemma_raw_end(s: Seq<char>, k: int, h: nat)
    requires
        0 <= k <= s.len(),
    ensures
        k <= raw_end(s, k, h) <= s.len(),
    decreases s.len() - k,
{
    if k < s.len() {
        lemma_hash_run(s, k + 1, h);
        if !(s[k] == '"' && hash_run(s, k + 1, h) == h) {
            lemma_raw_end(s, k + 1, h);
        }
    }
}

pub proof fn lemma_next_index(s: Seq<char>, j: int, c: char)
    requires
        0 <= j <= s.len(),
    ensures
        j <= next_index(s, j, c) <= s.len(),
        next_index(s, j, c) < s.len() ==> s[next_index(s, j, c)] == c,
        forall|k: int| j <= k < next_index(s, j, c) ==> s[k] != c,
    decreases s.len() - j,
{
    if j < s.len() && s[j] != c {
        lemma_next_index(s, j + 1, c);
    }
}

pub proof fn lemma_block_end(s: Seq<char>, k: int, d: nat)
    requires
        0 <= k <= s.len(),
    ensures
        k <= block_end(s, k, d) <= s.len(),
    decreases s.len() - k,
{
    if k < s.len() && d != 0 {
        if k + 1 < s.len() && s[k] == '/' && s[k + 1] == '*' {
            lemma_block_end(s, k + 2, d + 1);
        } else if k + 1 < s.len() && s[k] == '*' && s[k + 1] == '/' {
            lemma_block_end(s, k + 2, (d - 1) as nat);
        } else {
            lemma_block_end(s, k + 1, d);
        }
    }
}

/// Every token is non-empty and ends within the text.
pub proof fn lemma_token_end_bounds(s: Seq<char>, i: int)
    requires
        0 <= i < s.len(),
    ensures
        i < token_end(s, i) <= s.len(),
{
    if s[i] == '"' {
        lemma_string_end(s, i + 1);
    } else if raw_start(s, i) {
        let h = hash_run(s, i + 1, s.len());
        lemma_hash_run(s, i + 1, s.len());
        lemma_raw_end(s, i + 2 + h, h);
    } else if s[i] == '\'' {
        if i + 2 < s.len() && s[i + 1] == '\\' {
            lemma_next_index(s, i + 1, '\'');
        }
    } else if block_start(s, i) {
        lemma_block_end(s, i + 2, 1);
    } else if line_comment_start(s, i) {
        lemma_next_index(s, i, '\n');
    }
}

// ---------------------------------------------------------------------
// Laws
// ---------------------------------------------------------------------

/// Scanning a text without `/` keeps all of it from `i` on.
proof fn lemma_uncommented_no_slash(s: Seq<char>, i: int)
    requires
        0 <= i <= s.len(),
        forall|j: int| 0 <= j < s.len() ==> s[j] != '/',
    ensures
        uncommented_from(s, i) == s.skip(i),
    decreases s.len() - i,
{
    if i < s.len() {
        lemma_token_end_bounds(s, i);
        let e = token_end(s, i);
        lemma_uncommented_no_slash(s, e);
        assert(!token_is_comment(s, i));
        assert(s.subrange(i, e) + s.skip(e) =~= s.skip(i));
    } else {
        assert(s.skip(i) =~= Seq::<char>::empty());
    }
}

/// A text without any `/` holds no comment: comment removal only tidies
/// its lines (trailing whitespace, repeated blank lines, final newlines).
pub proof fn law_no_slash_only_tidied(s: Seq<char>)
    requires
        forall|j: int| 0 <= j < s.len() ==> s[j] != '/',
    ensures
        comments_removed(s) == single_final_newline(terminated(tidy_lines(lines(s), false))),
{
    lemma_uncommented_no_slash(s, 0);
    assert(s.skip(0) =~= s);
}

/// Scanning a text in which no `/` is followed by `/` or `*` keeps all of
/// it from `i` on.
proof fn lemma_uncommented_no_comment(s: Seq<char>, i: int)
    requires
        0 <= i <= s.len(),
        forall|j: int| 0 <= j < s.len() - 1 && #[trigger] s[j] == '/' ==> s[j + 1] != '/' && s[j + 1] != '*',
    ensures
        uncommented_from(s, i) == s.skip(i),
    decreases s.len() - i,
{
    if i < s.len() {
        lemma_token_end_bounds(s, i);
        let e = token_end(s, i);
        lemma_uncommented_no_comment(s, e);
        assert(!block_start(s, i));
        assert(!line_comment_start(s, i));
        assert(!token_is_comment(s, i));
        assert(s.subrange(i, e) + s.skip(e) =~= s.skip(i));
    } else {
        assert(s.skip(i) =~= Seq::<char>::empty());
    }
}

/// A text that holds no `//` and no `/*` holds no comment: comment removal
/// only tidies its lines (trailing whitespace, repeated blank lines, final
/// newlines).
pub proof fn law_no_comment_only_tidied(s: Seq<char>)
    requires
        !crate::text::contains_seq(s, seq!['/', '/']),
        !crate::text::contains_seq(s, seq!['/', '*']),
    ensures
        comments_removed(s) == single_final_newline(terminated(tidy_lines(lines(s), false))),
{
    assert forall|j: int| 0 <= j < s.len() - 1 && #[trigger] s[j] == '/' implies s[j + 1] != '/' && s[j + 1] != '*' by {
        if s[j + 1] == '/' {
            assert(s.subrange(j, j + 2) =~= seq!['/', '/']);
            assert(crate::text::occurs_at(s, seq!['/', '/'], j));
        }
        if s[j + 1] == '*' {
            assert(s.subrange(j, j + 2) =~= seq!['/', '*']);
            assert(crate::text::occurs_at(s, seq!['/', '*'], j));
        }
    }
    lemma_uncommented_no_comment(s, 0);
    assert(s.skip(0) =~= s);
}

/// Lines as `tidy_lines` leaves them: no newline inside, no trailing
/// whitespace, no two empty lines in a row.
pub open spec fn tidy_shape(ls: Seq<Seq<char>>) -> bool {
    &&& forall|j: int| 0 <= j < ls.len() ==> !(#[trigger] ls[j]).contains('\n')
    &&& forall|j: int| 0 <= j < ls.len() ==> (#[trigger] ls[j]).len() == 0 || !is_ws(ls[j].last())
    &&& forall|j: int| 0 <= j < ls.len() - 1 ==> !((#[trigger] ls[j]).len() == 0 && ls[j + 1].len() == 0)
}

/// The text has no whitespace at the end of a line, no two blank lines in
/// a row, does not start with two newlines, ends with a newline (unless
/// empty) and not with two.
pub open spec fn tidy_text(r: Seq<char>) -> bool {
    &&& forall|i: int| 1 <= i < r.len() && #[trigger] r[i] == '\n' ==> r[i - 1] == '\n' || !is_ws(r[i - 1])
    &&& forall|i: int|
        0 <= i && i + 2 < r.len() ==> !(#[trigger] r[i] == '\n' && r[i + 1] == '\n' && r[i + 2] == '\n')
    &&& !(r.len() >= 2 && r[0] == '\n' && r[1] == '\n')
    &&& !(r.len() >= 2 && r[r.len() - 1] == '\n' && r[r.len() - 2] == '\n')
    &&& (r.len() > 0 ==> r[r.len() - 1] == '\n')
}

/// The lines of a text hold no newline.
pub proof fn lemma_lines_no_newline(s: Seq<char>)
    ensures
        forall|j: int| 0 <= j < lines(s).len() ==> !(#[trigger] lines(s)[j]).contains('\n'),
    decreases s.len(),
{
    if s.len() > 0 {
        let k = crate::text::find_char(s, '\n');
        crate::text::lemma_find_char_bound(s, '\n');
        lemma_find_char_prefix(s, '\n');
        if k < s.len() {
            let rest = s.skip(k as int + 1);
            lemma_lines_no_newline(rest);
            let l = crate::text::strip_cr(s.take(k as int), true);
            let x = seq![l] + lines(rest);
            assert(lines(s) == x);
            assert forall|j: int| 0 <= j < x.len() implies !(#[trigger] x[j]).contains('\n') by {
                if j == 0 {
                    assert forall|i: int| 0 <= i < l.len() implies l[i] != '\n' by {
                        assert(l[i] == s[i]);
                    }
                } else {
                    assert(x[j] == lines(rest)[j - 1]);
                }
            }
        } else {
            assert(lines(s) == seq![s]);
            assert forall|i: int| 0 <= i < s.len() implies s[i] != '\n' by {}
        }
    }
}

/// No `c` comes before `find_char`.
pub proof fn lemma_find_char_prefix(s: Seq<char>, c: char)
    ensures
        forall|i: int| 0 <= i < crate::text::find_char(s, c) && i < s.len() ==> s[i] != c,
    decreases s.len(),
{
    if s.len() > 0 && s[0] != c {
        lemma_find_char_prefix(s.drop_first(), c);
        assert forall|i: int| 0 <= i < crate::text::find_char(s, c) && i < s.len() implies s[i] != c by {
            if i > 0 {
                assert(s[i] == s.drop_first()[i - 1]);
            }
        }
    }
}

/// What `tidy_lines` keeps has the shape it promises, and starts with a
/// non-empty line after a blank one.
proof fn lemma_tidy_lines_shape(ls: Seq<Seq<char>>, pb: bool)
    requires
        forall|j: int| 0 <= j < ls.len() ==> !(#[trigger] ls[j]).contains('\n'),
    ensures
        tidy_shape(tidy_lines(ls, pb)),
        pb && tidy_lines(ls, pb).len() > 0 ==> tidy_lines(ls, pb)[0].len() > 0,
    decreases ls.len(),
{
    if ls.len() > 0 {
        assert forall|j: int| 0 <= j < ls.drop_first().len() implies !(#[trigger] ls.drop_first()[j]).contains('\n') by {
            assert(ls.drop_first()[j] == ls[j + 1]);
        }
        let l = trim_end(ls[0]);
        crate::text::lemma_trim_end_shape(ls[0]);
        let blank = l.len() == 0;
        if blank && pb {
            lemma_tidy_lines_shape(ls.drop_first(), pb);
        } else {
            lemma_tidy_lines_shape(ls.drop_first(), blank);
            let r = tidy_lines(ls.drop_first(), blank);
            let x = seq![l] + r;
            assert(tidy_lines(ls, pb) == x);
            assert(!ls[0].contains('\n'));
            assert forall|j: int| 0 <= j < x.len() implies !(#[trigger] x[j]).contains('\n') by {
                if j == 0 {
                    assert forall|i: int| 0 <= i < l.len() implies l[i] != '\n' by {
                        assert(l[i] == ls[0][i]);
                    }
                } else {
                    assert(x[j] == r[j - 1]);
                }
            }
            assert forall|j: int| 0 <= j < x.len() implies (#[trigger] x[j]).len() == 0 || !is_ws(x[j].last()) by {
                if j > 0 {
                    assert(x[j] == r[j - 1]);
                }
            }
            assert forall|j: int| 0 <= j < x.len() - 1 implies !((#[trigger] x[j]).len() == 0 && x[j + 1].len() == 0) by {
                assert(x[j + 1] == r[j]);
                if j > 0 {
                    assert(x[j] == r[j - 1]);
                }
            }
        }
    }
}

/// Terminating lines of that shape gives a tidy text.
proof fn lemma_terminated_tidy(ls: Seq<Seq<char>>)
    requires
        tidy_shape(ls),
    ensures
        forall|i: int| 1 <= i < terminated(ls).len() && #[trigger] terminated(ls)[i] == '\n' ==> terminated(ls)[i - 1] == '\n' || !is_ws(terminated(ls)[i - 1]),
        forall|i: int|
            0 <= i && i + 2 < terminated(ls).len() ==> !(#[trigger] terminated(ls)[i] == '\n' && terminated(ls)[i + 1] == '\n' && terminated(ls)[i + 2] == '\n'),
        !(terminated(ls).len() >= 2 && terminated(ls)[0] == '\n' && terminated(ls)[1] == '\n'),
        terminated(ls).len() > 0 ==> terminated(ls)[terminated(ls).len() - 1] == '\n',
    decreases ls.len(),
{
    if ls.len() > 0 {
        let rest = ls.drop_first();
        assert(tidy_shape(rest)) by {
            assert forall|j: int| 0 <= j < rest.len() implies rest[j] == ls[j + 1] by {}
            assert forall|j: int| 0 <= j < rest.len() - 1 implies !((#[trigger] rest[j]).len() == 0 && rest[j + 1].len() == 0) by {
                assert(rest[j] == ls[j + 1]);
                assert(rest[j + 1] == ls[j + 2]);
            }
        }
        lemma_terminated_tidy(rest);
        let a = ls[0];
        let n = a.len() as int;
        let r2 = terminated(rest);
        let r = terminated(ls);
        assert(r == a + seq!['\n'] + r2);
        assert(!a.contains('\n'));
        assert forall|i: int| 0 <= i < n implies r[i] == a[i] && a[i] != '\n' by {}
        assert(r[n] == '\n');
        assert forall|i: int| n + 1 <= i < r.len() implies r[i] == r2[i - n - 1] by {}
        assert forall|i: int| 1 <= i < r.len() && #[trigger] r[i] == '\n' implies r[i - 1] == '\n' || !is_ws(r[i - 1]) by {
            if i == n {
                assert(r[i - 1] == a.last());
            } else if i > n + 1 {
                assert(r[i - 1] == r2[i - n - 2]);
            }
        }
        assert forall|i: int| 0 <= i && i + 2 < r.len() implies !(#[trigger] r[i] == '\n' && r[i + 1] == '\n' && r[i + 2] == '\n') by {
            if i >= n + 1 {
                assert(r[i + 1] == r2[i - n]);
                assert(r[i + 2] == r2[i - n + 1]);
            } else if i == n {
                assert(r[i + 1] == r2[0]);
                assert(r[i + 2] == r2[1]);
            }
        }
        if r.len() >= 2 && r[0] == '\n' && r[1] == '\n' {
            assert(n == 0);
            assert(r2[0] == '\n');
            assert(rest.len() > 0);
            assert(r2 == rest[0] + seq!['\n'] + terminated(rest.drop_first()));
            if rest[0].len() > 0 {
                assert(r2[0] == rest[0][0]);
                assert(!rest[0].contains('\n'));
            }
            assert(ls[1] == rest[0]);
            assert(false);
        }
        if r2.len() == 0 {
            assert(r.len() == n + 1);
        }
    }
}

/// Dropping final newlines keeps what holds of each position and ends the
/// text with at most one newline.
proof fn lemma_single_final_newline_prefix(s: Seq<char>)
    ensures
        single_final_newline(s).len() <= s.len(),
        single_final_newline(s) == s.take(single_final_newline(s).len() as int),
        !(single_final_newline(s).len() >= 2 && single_final_newline(s)[single_final_newline(s).len() - 1] == '\n'
            && single_final_newline(s)[single_final_newline(s).len() - 2] == '\n'),
        s.len() > 0 && s[s.len() - 1] == '\n' ==> single_final_newline(s).len() > 0
            && single_final_newline(s)[single_final_newline(s).len() - 1] == '\n',
    decreases s.len(),
{
    if s.len() >= 2 && s[s.len() - 1] == '\n' && s[s.len() - 2] == '\n' {
        lemma_single_final_newline_prefix(s.drop_last());
        assert(s.drop_last().take(single_final_newline(s).len() as int) =~= s.take(single_final_newline(s).len() as int));
    } else {
        assert(s.take(s.len() as int) =~= s);
    }
}

/// The text that comment removal gives has no whitespace at the end of a
/// line, no two blank lines in a row, does not start with two newlines,
/// and ends with exactly one newline (unless it is empty).
pub proof fn law_comments_removed_tidy(s: Seq<char>)
    ensures
        tidy_text(comments_removed(s)),
{
    let u = uncommented_from(s, 0);
    lemma_lines_no_newline(u);
    lemma_tidy_lines_shape(lines(u), false);
    let t = terminated(tidy_lines(lines(u), false));
    lemma_terminated_tidy(tidy_lines(lines(u), false));
    lemma_single_final_newline_prefix(t);
    let r = single_final_newline(t);
    assert forall|i: int| 0 <= i < r.len() implies r[i] == t[i] by {}
}

/// No line that the removal of `#[cfg(test)]` items keeps is itself a
/// `#[cfg(test)]` attribute.
pub proof fn law_no_cfg_test_line_kept(ls: Seq<Seq<char>>)
    ensures
        forall|j: int|
            0 <= j < without_cfg_test(ls).len() ==> trim(#[trigger] without_cfg_test(ls)[j])
                != cfg_test_attr(),
    decreases ls.len(),
{
    if ls.len() > 0 {
        if trim(ls[0]) == cfg_test_attr() {
            if ls.len() > 1 {
                if ls[1].contains('{') {
                    lemma_block_lines_bounds(ls.skip(1), 0);
                    law_no_cfg_test_line_kept(ls.skip(1 + block_lines(ls.skip(1), 0) as int));
                    assert(without_cfg_test(ls) == without_cfg_test(ls.skip(1 + block_lines(ls.skip(1), 0) as int)));
                } else {
                    law_no_cfg_test_line_kept(ls.skip(2));
                    assert(without_cfg_test(ls) == without_cfg_test(ls.skip(2)));
                }
            }
        } else {
            law_no_cfg_test_line_kept(ls.drop_first());
            let r = without_cfg_test(ls.drop_first());
            assert(without_cfg_test(ls) == seq![ls[0]] + r);
            assert forall|j: int| 0 <= j < (seq![ls[0]] + r).len() implies trim(
                #[trigger] (seq![ls[0]] + r)[j],
            ) != cfg_test_attr() by {
                if j > 0 {
                    assert((seq![ls[0]] + r)[j] == r[j - 1]);
                }
            }
        }
    }
}

/// A source without `#[cfg(test)]` lines keeps all of its lines.
pub proof fn law_no_cfg_test_all_kept(ls: Seq<Seq<char>>)
    requires
        forall|j: int| 0 <= j < ls.len() ==> trim(#[trigger] ls[j]) != cfg_test_attr(),
    ensures
        without_cfg_test(ls) == ls,
    decreases ls.len(),
{
    if ls.len() > 0 {
        assert(trim(ls[0]) != cfg_test_attr());
        assert forall|j: int| 0 <= j < ls.drop_first().len() implies trim(
            #[trigger] ls.drop_first()[j],
        ) != cfg_test_attr() by {
            assert(ls.drop_first()[j] == ls[j + 1]);
        }
        law_no_cfg_test_all_kept(ls.drop_first());
        assert(seq![ls[0]] + ls.drop_first() =~= ls);
    }
}

/// `a` is `b` with some of its lines left out, the rest in order.
pub open spec fn is_subsequence(a: Seq<Seq<char>>, b: Seq<Seq<char>>) -> bool
    decreases b.len(),
{
    if a.len() == 0 {
        true
    } else if b.len() == 0 {
        false
    } else if a[0] == b[0] {
        is_subsequence(a.drop_first(), b.drop_first())
    } else {
        is_subsequence(a, b.drop_first())
    }
}

proof fn lemma_subsequence_drop(a: Seq<Seq<char>>, c: Seq<Seq<char>>)
    requires
        is_subsequence(a, c),
        a.len() > 0,
    ensures
        is_subsequence(a.drop_first(), c),
    decreases c.len(), 1int,
{
    if a[0] == c[0] {
        lemma_subsequence_extend(a.drop_first(), c);
    } else {
        lemma_subsequence_drop(a, c.drop_first());
        lemma_subsequence_extend(a.drop_first(), c);
    }
}

proof fn lemma_subsequence_extend(a: Seq<Seq<char>>, c: Seq<Seq<char>>)
    requires
        c.len() > 0,
        is_subsequence(a, c.drop_first()),
    ensures
        is_subsequence(a, c),
    decreases c.len(), 0int,
{
    if a.len() > 0 && a[0] == c[0] {
        lemma_subsequence_drop(a, c.drop_first());
    }
}

proof fn lemma_subsequence_skip(a: Seq<Seq<char>>, b: Seq<Seq<char>>, m: int)
    requires
        0 <= m <= b.len(),
        is_subsequence(a, b.skip(m)),
    ensures
        is_subsequence(a, b),
    decreases m,
{
    if m > 0 {
        assert(b.skip(m) =~= b.drop_first().skip(m - 1));
        lemma_subsequence_skip(a, b.drop_first(), m - 1);
        lemma_subsequence_extend(a, b);
    } else {
        assert(b.skip(0) =~= b);
    }
}

#[verifier::spinoff_prover]
proof fn lemma_cfg_test_subsequence(ls: Seq<Seq<char>>)
    ensures
        is_subsequence(without_cfg_test(ls), ls),
    decreases ls.len(),
{
    if ls.len() == 0 {
    } else if trim(ls[0]) == cfg_test_attr() {
        if ls.len() == 1 {
        } else if ls[1].contains('{') {
            lemma_block_lines_bounds(ls.skip(1), 0);
            let m: int = 1 + block_lines(ls.skip(1), 0) as int;
            lemma_cfg_test_subsequence(ls.skip(m));
            lemma_subsequence_skip(without_cfg_test(ls.skip(m)), ls, m);
        } else {
            lemma_cfg_test_subsequence(ls.skip(2));
            lemma_subsequence_skip(without_cfg_test(ls.skip(2)), ls, 2);
        }
    } else {
        let w = without_cfg_test(ls.drop_first());
        lemma_cfg_test_subsequence(ls.drop_first());
        assert((seq![ls[0]] + w).drop_first() =~= w);
    }
}

/// The net number of `{` less `}` over the first `n` lines.
pub open spec fn net_depth(ls: Seq<Seq<char>>, n: int) -> int
    decreases n,
{
    if n <= 0 || n > ls.len() {
        0
    } else {
        net_depth(ls, n - 1) + count_char(ls[n - 1], '{') - count_char(ls[n - 1], '}')
    }
}

proof fn lemma_net_depth_first(ls: Seq<Seq<char>>, m: int)
    requires
        1 <= m <= ls.len(),
    ensures
        net_depth(ls, m) == brace_delta(ls[0]) + net_depth(ls.drop_first(), m - 1),
    decreases m,
{
    let r = ls.drop_first();
    if m > 1 {
        lemma_net_depth_first(ls, m - 1);
        assert(r[m - 2] == ls[m - 1]);
        assert(net_depth(ls, m) == net_depth(ls, m - 1) + count_char(ls[m - 1], '{') - count_char(ls[m - 1], '}'));
        assert(net_depth(r, m - 1) == net_depth(r, m - 2) + count_char(r[m - 2], '{') - count_char(r[m - 2], '}'));
    } else {
        assert(net_depth(ls, 1) == net_depth(ls, 0) + count_char(ls[0], '{') - count_char(ls[0], '}'));
        assert(net_depth(r, 0) == 0);
    }
}

proof fn lemma_block_lines_depth(ls: Seq<Seq<char>>, d: int)
    requires
        ls.len() >= 1,
    ensures
        1 <= block_lines(ls, d) <= ls.len(),
        forall|m: int| 1 <= m < block_lines(ls, d) ==> d + #[trigger] net_depth(ls, m) != 0,
        d + net_depth(ls, block_lines(ls, d) as int) == 0 || block_lines(ls, d) == ls.len(),
    decreases ls.len(),
{
    lemma_net_depth_first(ls, 1);
    if d + brace_delta(ls[0]) == 0 || ls.len() == 1 {
    } else {
        let d2 = d + brace_delta(ls[0]);
        let rest = ls.drop_first();
        lemma_block_lines_depth(rest, d2);
        let n = block_lines(ls, d);
        assert forall|m: int| 1 <= m < n implies d + #[trigger] net_depth(ls, m) != 0 by {
            lemma_net_depth_first(ls, m);
            if m >= 2 {
                assert(d2 + net_depth(rest, m - 1) != 0);
            }
        }
        lemma_net_depth_first(ls, n as int);
    }
}

/// After a `#[cfg(test)]` line whose next line holds a `{`, the lines
/// removed are those from that next line up to the first at which the net
/// count of `{` less `}` over them is back to zero (all the rest when it
/// never is); removal goes on after them. Returns how many lines that
/// block has, the one number with that property.
pub proof fn law_cfg_test_block_balanced(ls: Seq<Seq<char>>) -> (n: int)
    requires
        ls.len() >= 2,
        trim(ls[0]) == cfg_test_attr(),
        ls[1].contains('{'),
    ensures
        1 <= n && 1 + n <= ls.len(),
        forall|m: int| 1 <= m < n ==> #[trigger] net_depth(ls.skip(1), m) != 0,
        net_depth(ls.skip(1), n) == 0 || 1 + n == ls.len(),
        without_cfg_test(ls) == without_cfg_test(ls.skip(1 + n)),
        forall|n2: int|
            1 <= n2 && 1 + n2 <= ls.len() && (forall|m: int|
                1 <= m < n2 ==> #[trigger] net_depth(ls.skip(1), m) != 0) && (net_depth(ls.skip(1), n2)
                == 0 || 1 + n2 == ls.len()) ==> n2 == n,
{
    let b = ls.skip(1);
    lemma_block_lines_depth(b, 0);
    let n0 = block_lines(b, 0) as int;
    assert forall|m: int| 1 <= m < n0 implies #[trigger] net_depth(b, m) != 0 by {
        assert(0 + net_depth(b, m) != 0);
    }
    assert forall|n2: int|
        1 <= n2 && 1 + n2 <= ls.len() && (forall|m: int| 1 <= m < n2 ==> #[trigger] net_depth(b, m) != 0)
            && (net_depth(b, n2) == 0 || 1 + n2 == ls.len()) implies n2 == n0 by {
        if n2 < n0 {
            assert(0 + net_depth(b, n2) != 0);
        } else if n2 > n0 {
            assert(net_depth(b, n0) != 0);
        }
    }
    n0
}

/// After a `#[cfg(test)]` line whose next line holds no `{`, the two lines
/// are removed and nothing else: removal goes on after them.
pub proof fn law_cfg_test_single_item_removed(ls: Seq<Seq<char>>)
    requires
        ls.len() >= 2,
        trim(ls[0]) == cfg_test_attr(),
        !ls[1].contains('{'),
    ensures
        without_cfg_test(ls) == without_cfg_test(ls.skip(2)),
{
}

/// Lines before the first `#[cfg(test)]` line are all kept, in order, ahead
/// of what is kept of the rest.
pub proof fn law_lines_before_cfg_test_kept(ls: Seq<Seq<char>>, k: int)
    requires
        0 <= k <= ls.len(),
        forall|j: int| 0 <= j < k ==> trim(#[trigger] ls[j]) != cfg_test_attr(),
    ensures
        without_cfg_test(ls) == ls.take(k) + without_cfg_test(ls.skip(k)),
    decreases k,
{
    if k == 0 {
        assert(ls.take(0) + without_cfg_test(ls.skip(0)) =~= without_cfg_test(ls));
    } else {
        let t = ls.drop_first();
        assert forall|j: int| 0 <= j < k - 1 implies trim(#[trigger] t[j]) != cfg_test_attr() by {
            assert(t[j] == ls[j + 1]);
        }
        law_lines_before_cfg_test_kept(t, k - 1);
        assert(trim(ls[0]) != cfg_test_attr());
        assert(t.skip(k - 1) =~= ls.skip(k));
        assert(seq![ls[0]] + t.take(k - 1) =~= ls.take(k));
        assert(without_cfg_test(ls) == seq![ls[0]] + without_cfg_test(t));
        assert(seq![ls[0]] + (t.take(k - 1) + without_cfg_test(ls.skip(k))) =~= ls.take(k)
            + without_cfg_test(ls.skip(k)));
    }
}

/// The non-blank lines, each without its trailing whitespace, in order.
pub open spec fn nonblank_lines(ls: Seq<Seq<char>>) -> Seq<Seq<char>>
    decreases ls.len(),
{
    if ls.len() == 0 {
        seq![]
    } else if trim_end(ls[0]).len() > 0 {
        seq![trim_end(ls[0])] + nonblank_lines(ls.drop_first())
    } else {
        nonblank_lines(ls.drop_first())
    }
}

proof fn lemma_trim_end_idem(s: Seq<char>)
    ensures
        trim_end(trim_end(s)) == trim_end(s),
{
    crate::text::lemma_trim_end_shape(s);
}

/// Tidying the lines keeps every non-blank line, in order, with only its
/// trailing whitespace gone: it drops nothing but blank lines.
pub proof fn law_tidy_keeps_nonblank_lines(ls: Seq<Seq<char>>, prev_blank: bool)
    ensures
        nonblank_lines(tidy_lines(ls, prev_blank)) == nonblank_lines(ls),
    decreases ls.len(),
{
    if ls.len() > 0 {
        let l = trim_end(ls[0]);
        let blank = l.len() == 0;
        if blank && prev_blank {
            law_tidy_keeps_nonblank_lines(ls.drop_first(), prev_blank);
        } else {
            law_tidy_keeps_nonblank_lines(ls.drop_first(), blank);
            let t = seq![l] + tidy_lines(ls.drop_first(), blank);
            assert(t[0] == l);
            assert(t.drop_first() =~= tidy_lines(ls.drop_first(), blank));
            lemma_trim_end_idem(ls[0]);
        }
    }
}

/// Where no two blank lines follow each other (and the first line is not
/// blank after a blank one), tidying only takes the trailing whitespace
/// off each line: a single blank line is kept.
pub proof fn law_tidy_keeps_single_blank_lines(ls: Seq<Seq<char>>, prev_blank: bool)
    requires
        forall|j: int|
            0 <= j < ls.len() - 1 ==> !(trim_end(#[trigger] ls[j]).len() == 0 && trim_end(ls[j + 1]).len() == 0),
        prev_blank && ls.len() > 0 ==> trim_end(ls[0]).len() > 0,
    ensures
        tidy_lines(ls, prev_blank) == ls.map_values(|l: Seq<char>| trim_end(l)),
    decreases ls.len(),
{
    if ls.len() > 0 {
        let t = ls.drop_first();
        assert forall|j: int| 0 <= j < t.len() - 1 implies !(trim_end(#[trigger] t[j]).len() == 0 && trim_end(
            t[j + 1],
        ).len() == 0) by {
            assert(t[j] == ls[j + 1]);
            assert(t[j + 1] == ls[j + 2]);
        }
        let blank = trim_end(ls[0]).len() == 0;
        if blank && t.len() > 0 {
            assert(t[0] == ls[1]);
        }
        law_tidy_keeps_single_blank_lines(t, blank);
        assert(seq![trim_end(ls[0])] + t.map_values(|l: Seq<char>| trim_end(l)) =~= ls.map_values(
            |l: Seq<char>| trim_end(l),
        ));
    } else {
        assert(ls.map_values(|l: Seq<char>| trim_end(l)) =~= Seq::<Seq<char>>::empty());
    }
}

/// A simple character literal `'c'` (with `c` not a backslash) is one
/// token, kept whole: what stands between its quotes never starts a string
/// or a comment.
pub proof fn law_simple_char_literal_kept(s: Seq<char>, i: int)
    requires
        0 <= i,
        i + 2 < s.len(),
        s[i] == '\'',
        s[i + 1] != '\\',
        s[i + 2] == '\'',
    ensures
        uncommented_from(s, i) == s.subrange(i, i + 3) + uncommented_from(s, i + 3),
{
    lemma_token_end_bounds(s, i);
    assert(token_end(s, i) == i + 3);
    assert(!token_is_comment(s, i));
}

proof fn lemma_string_end_plain(s: Seq<char>, j: int, e: int)
    requires
        0 <= j <= e < s.len(),
        s[e] == '"',
        forall|q: int| j <= q < e ==> s[q] != '"' && s[q] != '\\',
    ensures
        string_end(s, j) == e + 1,
    decreases e - j,
{
    if j < e {
        lemma_string_end_plain(s, j + 1, e);
    }
}

/// A string literal is one token, kept whole: a `//` or `/*` inside it
/// starts no comment. Shown for a literal whose text `x` holds neither
/// quotes nor backslashes.
pub proof fn law_string_literal_kept(s: Seq<char>, i: int, x: Seq<char>)
    requires
        0 <= i,
        i + x.len() + 2 <= s.len(),
        s.subrange(i, i + x.len() + 2) == seq!['"'] + x + seq!['"'],
        forall|q: int| 0 <= q < x.len() ==> x[q] != '"' && x[q] != '\\',
    ensures
        uncommented_from(s, i) == s.subrange(i, i + x.len() + 2) + uncommented_from(s, i + x.len() + 2),
{
    lemma_token_end_bounds(s, i);
    let n = x.len() as int;
    let t = seq!['"'] + x + seq!['"'];
    assert forall|q: int| i + 1 <= q < i + 1 + n implies s[q] != '"' && s[q] != '\\' by {
        assert(s[q] == s.subrange(i, i + n + 2)[q - i]);
        assert(t[q - i] == x[q - i - 1]);
    }
    assert(s[i] == t[0]);
    assert(s[i + 1 + n] == t[1 + n]);
    lemma_string_end_plain(s, i + 1, i + 1 + n);
}

/// In a string literal a backslash takes the next character along, so an
/// escaped quote does not end it: the literal `"x\cy"`, with any
/// character `c` and with neither quotes nor backslashes in `x` and `y`,
/// is one token, kept whole.
pub proof fn law_string_escape_kept(s: Seq<char>, i: int, x: Seq<char>, c: char, y: Seq<char>)
    requires
        0 <= i,
        i + x.len() + y.len() + 4 <= s.len(),
        s.subrange(i, i + x.len() + y.len() + 4) == seq!['"'] + x + seq!['\\', c] + y + seq!['"'],
        forall|q: int| 0 <= q < x.len() ==> x[q] != '"' && x[q] != '\\',
        forall|q: int| 0 <= q < y.len() ==> y[q] != '"' && y[q] != '\\',
    ensures
        uncommented_from(s, i) == s.subrange(i, i + x.len() + y.len() + 4) + uncommented_from(
            s,
            i + x.len() + y.len() + 4,
        ),
{
    lemma_token_end_bounds(s, i);
    let n = x.len() as int;
    let m = y.len() as int;
    let t = seq!['"'] + x + seq!['\\', c] + y + seq!['"'];
    assert forall|q: int| i + 1 <= q < i + 1 + n implies s[q] != '"' && s[q] != '\\' by {
        assert(s[q] == s.subrange(i, i + n + m + 4)[q - i]);
        assert(t[q - i] == x[q - i - 1]);
    }
    assert(s[i] == t[0]);
    assert(s[i + 1 + n] == t[1 + n]);
    assert forall|q: int| i + n + 3 <= q < i + n + 3 + m implies s[q] != '"' && s[q] != '\\' by {
        assert(s[q] == s.subrange(i, i + n + m + 4)[q - i]);
        assert(t[q - i] == y[q - i - n - 3]);
    }
    assert(s[i + n + 3 + m] == t[n + 3 + m]);
    lemma_string_end_plain(s, i + n + 3, i + n + 3 + m);
    lemma_string_end_skip(s, i + 1, i + 1 + n);
}

proof fn lemma_next_index_at(s: Seq<char>, j: int, c: char, k: int)
    requires
        0 <= j <= k <= s.len(),
        k < s.len() ==> s[k] == c,
        forall|q: int| j <= q < k ==> s[q] != c,
    ensures
        next_index(s, j, c) == k,
{
    lemma_next_index(s, j, c);
}

/// An escaped character literal (a quote, a backslash, more than one
/// character) is one token, kept whole, up to the next quote after the
/// backslash.
pub proof fn law_escaped_char_literal_kept(s: Seq<char>, i: int, k: int)
    requires
        0 <= i,
        i + 2 < k < s.len(),
        s[i] == '\'',
        s[i + 1] == '\\',
        s[k] == '\'',
        forall|q: int| i + 1 < q < k ==> s[q] != '\'',
    ensures
        uncommented_from(s, i) == s.subrange(i, k + 1) + uncommented_from(s, k + 1),
{
    lemma_token_end_bounds(s, i);
    lemma_next_index_at(s, i + 1, '\'', k);
}

/// A quote that starts no character literal (a lifetime such as `'a`) is
/// kept alone, and what follows it is read afresh.
pub proof fn law_lifetime_quote_kept(s: Seq<char>, i: int)
    requires
        0 <= i < s.len(),
        s[i] == '\'',
        !(i + 2 < s.len() && (s[i + 1] == '\\' || s[i + 2] == '\'')),
    ensures
        uncommented_from(s, i) == seq!['\''] + uncommented_from(s, i + 1),
{
    lemma_token_end_bounds(s, i);
    assert(s.subrange(i, i + 1) =~= seq!['\'']);
}

/// No opening `/*` or closing `*/` begins at `q`.
pub open spec fn no_block_marker_at(s: Seq<char>, q: int) -> bool {
    !(q + 1 < s.len() && s[q] == '/' && s[q + 1] == '*') && !(q + 1 < s.len() && s[q] == '*' && s[q
        + 1] == '/')
}

proof fn lemma_block_end_plain(s: Seq<char>, k: int, e: int, d: nat)
    requires
        0 <= k <= e <= s.len(),
        d > 0,
        forall|q: int| k <= q < e ==> no_block_marker_at(s, q),
    ensures
        block_end(s, k, d) == block_end(s, e, d),
    decreases e - k,
{
    if k < e {
        assert(no_block_marker_at(s, k));
        lemma_block_end_plain(s, k + 1, e, d);
    }
}

/// A block comment is removed whole, up to the `*/` that closes it, and
/// what follows it is read afresh. Shown for a comment without nested
/// comments: `/*` at `i`, its first `*/` at `e`, no `/*` between.
pub proof fn law_block_comment_removed(s: Seq<char>, i: int, e: int)
    requires
        0 <= i,
        i + 2 <= e,
        e + 1 < s.len(),
        s[i] == '/' && s[i + 1] == '*',
        s[e] == '*' && s[e + 1] == '/',
        forall|q: int| i + 2 <= q < e ==> #[trigger] no_block_marker_at(s, q),
    ensures
        uncommented_from(s, i) == uncommented_from(s, e + 2),
{
    lemma_token_end_bounds(s, i);
    lemma_block_end_plain(s, i + 2, e, 1);
    assert(block_end(s, e + 2, 0) == e + 2);
    assert(block_end(s, e, 1) == e + 2);
    assert(token_is_comment(s, i));
    assert(token_end(s, i) == e + 2);
    assert(uncommented_from(s, i) == Seq::<char>::empty() + uncommented_from(s, e + 2));
    assert(Seq::<char>::empty() + uncommented_from(s, e + 2) =~= uncommented_from(s, e + 2));
}

/// Block comments nest: in `/* .. /* .. */ .. */` the first `*/` closes
/// the inner comment only, and the whole outer one is removed. Shown with
/// `/*` at `i` and `a`, `*/` at `b` and `e`, and no other marker in between.
pub proof fn law_nested_block_comment_removed(s: Seq<char>, i: int, a: int, b: int, e: int)
    requires
        0 <= i,
        i + 2 <= a,
        a + 2 <= b,
        b + 2 <= e,
        e + 1 < s.len(),
        s[i] == '/' && s[i + 1] == '*',
        s[a] == '/' && s[a + 1] == '*',
        s[b] == '*' && s[b + 1] == '/',
        s[e] == '*' && s[e + 1] == '/',
        forall|q: int|
            i + 2 <= q < e && q != a && q != b ==> #[trigger] no_block_marker_at(s, q),
    ensures
        uncommented_from(s, i) == uncommented_from(s, e + 2),
{
    lemma_token_end_bounds(s, i);
    lemma_block_end_plain(s, i + 2, a, 1);
    lemma_block_end_plain(s, a + 2, b, 2);
    lemma_block_end_plain(s, b + 2, e, 1);
    assert(block_end(s, a, 1) == block_end(s, a + 2, 2));
    assert(block_end(s, b, 2) == block_end(s, b + 2, 1));
    assert(block_end(s, e + 2, 0) == e + 2);
    assert(block_end(s, e, 1) == e + 2);
    assert(token_is_comment(s, i));
    assert(token_end(s, i) == e + 2);
    assert(uncommented_from(s, i) == Seq::<char>::empty() + uncommented_from(s, e + 2));
    assert(Seq::<char>::empty() + uncommented_from(s, e + 2) =~= uncommented_from(s, e + 2));
}

proof fn lemma_line_start_at(s: Seq<char>, p: int, i: int)
    requires
        0 <= p <= i < s.len(),
        p == 0 || s[p - 1] == '\n',
        forall|q: int| p <= q < i ==> s[q] != '\n',
    ensures
        line_start(s, i) == p,
    decreases i - p,
{
    if i > p {
        lemma_line_start_at(s, p, i - 1);
    }
}

/// A line comment `//` is removed up to the end of its line (the newline
/// stays), and what follows is read afresh; but the separator line
/// `// --- bundled ---` is kept as it is. The line runs from `p` to `j`
/// and the comment starts at `i` on it.
pub proof fn law_line_comment_removed(s: Seq<char>, p: int, i: int, j: int)
    requires
        0 <= p <= i,
        i + 1 < s.len(),
        s[i] == '/' && s[i + 1] == '/',
        p == 0 || s[p - 1] == '\n',
        i < j <= s.len(),
        j < s.len() ==> s[j] == '\n',
        forall|q: int| p <= q < j ==> s[q] != '\n',
    ensures
        trim(s.subrange(p, j)) != separator_line() ==> uncommented_from(s, i) == uncommented_from(s, j),
        trim(s.subrange(p, j)) == separator_line() ==> uncommented_from(s, i) == s.subrange(i, j)
            + uncommented_from(s, j),
{
    lemma_token_end_bounds(s, i);
    lemma_line_start_at(s, p, i);
    lemma_next_index_at(s, i, '\n', j);
    assert(token_end(s, i) == j);
    if trim(s.subrange(p, j)) != separator_line() {
        assert(token_is_comment(s, i));
        assert(Seq::<char>::empty() + uncommented_from(s, j) =~= uncommented_from(s, j));
    } else {
        assert(!token_is_comment(s, i));
    }
}

/// `h` times `#`.
pub open spec fn hashes(h: nat) -> Seq<char> {
    Seq::new(h, |_j: int| '#')
}

proof fn lemma_hash_run_at(s: Seq<char>, j: int, h: nat, max: nat)
    requires
        0 <= j,
        j + h <= s.len(),
        h <= max,
        forall|q: int| j <= q < j + h ==> s[q] == '#',
        h < max ==> j + h == s.len() || s[j + h] != '#',
    ensures
        hash_run(s, j, max) == h,
    decreases h,
{
    if h > 0 {
        lemma_hash_run_at(s, j + 1, (h - 1) as nat, (max - 1) as nat);
    } else if max > 0 {
        assert(!(0 <= j < s.len() && s[j] == '#'));
    }
}

proof fn lemma_raw_end_at(s: Seq<char>, k: int, c: int, h: nat)
    requires
        0 <= k <= c,
        c + 1 + h <= s.len(),
        crate::text::occurs_at(s, seq!['"'] + hashes(h), c),
        forall|q: int| k <= q < c ==> !#[trigger] crate::text::occurs_at(s, seq!['"'] + hashes(h), q),
    ensures
        raw_end(s, k, h) == c + 1 + h,
    decreases c - k,
{
    let pat = seq!['"'] + hashes(h);
    if k < c {
        if s[k] == '"' && hash_run(s, k + 1, h) == h {
            lemma_hash_run(s, k + 1, h);
            assert(s.subrange(k, k + 1 + h) =~= pat) by {
                assert forall|q: int| 0 <= q < 1 + h implies s.subrange(k, k + 1 + h)[q] == pat[q] by {
                    if q > 0 {
                        assert(s[k + q] == '#');
                    }
                }
            }
            assert(crate::text::occurs_at(s, pat, k));
        }
        lemma_raw_end_at(s, k + 1, c, h);
    } else {
        assert(s[c] == s.subrange(c, c + 1 + h)[0]);
        assert forall|q: int| c + 1 <= q < c + 1 + h implies s[q] == '#' by {
            assert(s[q] == s.subrange(c, c + 1 + h)[q - c]);
        }
        lemma_hash_run_at(s, c + 1, h, h);
    }
}

/// A raw string literal `r"..."` or `r#"..."#` is one token, kept whole:
/// it runs from the `r` and its `h` hashes to the first `"` that is
/// followed by `h` hashes (here at `c`); quotes, backslashes and comment
/// markers inside it mean nothing.
pub proof fn law_raw_string_kept(s: Seq<char>, i: int, h: nat, c: int)
    requires
        0 <= i,
        i + 2 + h <= c,
        c + 1 + h <= s.len(),
        s.subrange(i, i + 2 + h) == seq!['r'] + hashes(h) + seq!['"'],
        crate::text::occurs_at(s, seq!['"'] + hashes(h), c),
        forall|q: int|
            i + 2 + h <= q < c ==> !#[trigger] crate::text::occurs_at(s, seq!['"'] + hashes(h), q),
    ensures
        uncommented_from(s, i) == s.subrange(i, c + 1 + h) + uncommented_from(s, c + 1 + h),
{
    let op = seq!['r'] + hashes(h) + seq!['"'];
    assert(s[i] == op[0]);
    assert forall|q: int| i + 1 <= q < i + 1 + h implies s[q] == '#' by {
        assert(s[q] == s.subrange(i, i + 2 + h)[q - i]);
        assert(op[q - i] == '#');
    }
    assert(s[i + 1 + h] == op[1 + h as int]);
    lemma_hash_run_at(s, i + 1, h, s.len());
    assert(s[i + 1] == '"' || s[i + 1] == '#');
    assert(raw_start(s, i));
    lemma_raw_end_at(s, i + 2 + h, c, h);
    lemma_token_end_bounds(s, i);
    assert(token_end(s, i) == c + 1 + h);
}

/// Any other character is kept, and scanning goes on at the next one.
pub proof fn law_plain_char_kept(s: Seq<char>, i: int)
    requires
        0 <= i < s.len(),
        s[i] != '"' && s[i] != '\'' && s[i] != 'r',
        s[i] == '/' ==> i + 1 == s.len() || (s[i + 1] != '/' && s[i + 1] != '*'),
    ensures
        uncommented_from(s, i) == seq![s[i]] + uncommented_from(s, i + 1),
{
    lemma_token_end_bounds(s, i);
    assert(s.subrange(i, i + 1) =~= seq![s[i]]);
}

proof fn lemma_string_end_skip(s: Seq<char>, j: int, e: int)
    requires
        0 <= j <= e,
        e + 1 < s.len(),
        s[e] == '\\',
        forall|q: int| j <= q < e ==> s[q] != '"' && s[q] != '\\',
    ensures
        string_end(s, j) == string_end(s, e + 2),
    decreases e - j,
{
    if j < e {
        lemma_string_end_skip(s, j + 1, e);
    }
}

/// Removing `#[cfg(test)]` items keeps some of the text's lines, in their
/// order, and a final newline.
pub proof fn law_cfg_test_kept_lines_in_order(s: Seq<char>)
    ensures
        is_subsequence(without_cfg_test(lines(s)), lines(s)),
        s.len() > 0 && s.last() == '\n' ==> cfg_test_removed(s).len() > 0
            && cfg_test_removed(s).last() == '\n',
{
    lemma_cfg_test_subsequence(lines(s));
}

/// A text without `\r` is its lines joined by newlines, with its final
/// newline.
#[verifier::spinoff_prover]
#[verifier::rlimit(40)]
pub proof fn lemma_lines_join(s: Seq<char>)
    requires
        !s.contains('\r'),
    ensures
        join(lines(s), seq!['\n']) + final_newline(s) == s,
    decreases s.len(),
{
    if s.len() == 0 {
        assert(join(lines(s), seq!['\n']) + final_newline(s) =~= s);
    } else {
        let k = crate::text::find_char(s, '\n');
        crate::text::lemma_find_char_bound(s, '\n');
        lemma_find_char_prefix(s, '\n');
        if k >= s.len() {
            if s.last() == '\n' {
                assert(s[s.len() - 1] != '\n');
            }
            assert(join(lines(s), seq!['\n']) + final_newline(s) =~= s);
        } else {
            let t = s.take(k as int);
            if t.len() > 0 && t.last() == '\r' {
                assert(s[k - 1] == '\r');
                assert(s.contains('\r'));
            }
            let rest = s.skip(k as int + 1);
            if rest.len() == 0 {
                assert(lines(rest) =~= Seq::<Seq<char>>::empty());
                assert(lines(s) =~= seq![t]);
                assert(s.last() == '\n');
                assert(join(lines(s), seq!['\n']) + final_newline(s) =~= s);
            } else {
                assert forall|j: int| 0 <= j < rest.len() implies rest[j] != '\r' by {
                    assert(rest[j] == s[k + 1 + j]);
                }
                lemma_lines_join(rest);
                let l = lines(rest);
                assert(l.len() > 0);
                assert(lines(s) =~= seq![t] + l);
                assert((seq![t] + l).drop_first() =~= l);
                assert(final_newline(s) == final_newline(rest));
                assert(join(lines(s), seq!['\n']) == t + seq!['\n'] + join(l, seq!['\n']));
                assert(s =~= t + seq!['\n'] + rest);
                assert(join(lines(s), seq!['\n']) + final_newline(s) =~= s);
            }
        }
    }
}

/// A text without `\r` and without a `#[cfg(test)]` line is left as it
/// is by `#[cfg(test)]` removal.
pub proof fn law_no_cfg_test_text_unchanged(s: Seq<char>)
    requires
        !s.contains('\r'),
        forall|j: int| 0 <= j < lines(s).len() ==> trim(#[trigger] lines(s)[j]) != cfg_test_attr(),
    ensures
        cfg_test_removed(s) == s,
{
    law_no_cfg_test_all_kept(lines(s));
    lemma_lines_join(s);
}

// ---------------------------------------------------------------------
// Executable scanners
// ---------------------------------------------------------------------

fn string_end_at(s: &Vec<char>, j: usize) -> (e: usize)
    requires
        j <= s@.len(),
    ensures
        e == string_end(s@, j as int),
{
    let n = s.len();
    let mut k = j;
    while k < n && s[k] != '"'
        invariant
            j <= k <= n,
            n == s@.len(),
            string_end(s@, j as int) == string_end(s@, k as int),
        decreases n - k,
    {
        if s[k] == '\\' {
            if k + 1 < n {
                k += 2;
            } else {
                k = n;
            }
        } else {
            k += 1;
        }
    }
    if k < n {
        k + 1
    } else {
        n
    }
}

fn hash_run_at(s: &Vec<char>, j: usize, max: usize) -> (h: usize)
    requires
        j <= s@.len(),
    ensures
        h == hash_run(s@, j as int, max as nat),
{
    let n = s.len();
    let mut k = j;
    let mut h: usize = 0;
    while k < n && s[k] == '#' && h < max
        invariant
            j <= k <= n,
            n == s@.len(),
            h == k - j,
            h <= max,
            hash_run(s@, j as int, max as nat) == h + hash_run(s@, k as int, (max - h) as nat),
        decreases n - k,
    {
        k += 1;
        h += 1;
    }
    h
}

fn raw_end_at(s: &Vec<char>, k0: usize, h: usize) -> (e: usize)
    requires
        k0 <= s@.len(),
    ensures
        e == raw_end(s@, k0 as int, h as nat),
{
    let n = s.len();
    let mut k = k0;
    while k < n
        invariant
            k0 <= k <= n,
            n == s@.len(),
            raw_end(s@, k0 as int, h as nat) == raw_end(s@, k as int, h as nat),
        decreases n - k,
    {
        proof {
            lemma_hash_run(s@, k + 1, h as nat);
        }
        if s[k] == '"' && hash_run_at(s, k + 1, h) == h {
            return k + 1 + h;
        }
        k += 1;
    }
    n
}

fn next_index_at(s: &Vec<char>, j: usize, c: char) -> (e: usize)
    requires
        j <= s@.len(),
    ensures
        e == next_index(s@, j as int, c),
{
    let n = s.len();
    let mut k = j;
    while k < n && s[k] != c
        invariant
            j <= k <= n,
            n == s@.len(),
            next_index(s@, j as int, c) == next_index(s@, k as int, c),
        decreases n - k,
    {
        k += 1;
    }
    k
}

fn block_end_at(s: &Vec<char>, k0: usize) -> (e: usize)
    requires
        2 <= k0 <= s@.len(),
    ensures
        e == block_end(s@, k0 as int, 1),
{
    let n = s.len();
    let mut k = k0;
    let mut depth: usize = 1;
    while k < n && depth > 0
        invariant
            k0 <= k <= n,
            n == s@.len(),
            depth <= k,
            block_end(s@, k0 as int, 1) == block_end(s@, k as int, depth as nat),
        decreases n - k,
    {
        if k + 1 < n && s[k] == '/' && s[k + 1] == '*' {
            depth += 1;
            k += 2;
        } else if k + 1 < n && s[k] == '*' && s[k + 1] == '/' {
            depth -= 1;
            k += 2;
        } else {
            k += 1;
        }
    }
    k
}

/// The end of the token that begins at `i`, and whether it is a comment.
fn token_at(s: &Vec<char>, i: usize) -> (r: (usize, bool))
    requires
        i < s@.len(),
    ensures
        r.0 == token_end(s@, i as int),
        r.1 == token_is_comment(s@, i as int),
{
    let n = s.len();
    let c = s[i];
    if c == '"' {
        return (string_end_at(s, i + 1), false);
    }
    if c == 'r' && i + 1 < n && (s[i + 1] == '"' || s[i + 1] == '#') {
        let h = hash_run_at(s, i + 1, n);
        proof {
            lemma_hash_run(s@, i + 1, n as nat);
        }
        if i + 1 + h < n && s[i + 1 + h] == '"' {
            return (raw_end_at(s, i + 2 + h, h), false);
        }
    }
    if c == '\'' {
        if n - i > 2 && s[i + 1] == '\\' {
            let k = next_index_at(s, i + 1, '\'');
            return (if k < n { k + 1 } else { n }, false);
        } else if n - i > 2 && s[i + 2] == '\'' {
            return (i + 3, false);
        } else {
            return (i + 1, false);
        }
    }
    if i + 1 < n && c == '/' && s[i + 1] == '*' {
        return (block_end_at(s, i + 2), true);
    }
    if i + 1 < n && c == '/' && s[i + 1] == '/' {
        let e = next_index_at(s, i, '\n');
        return (e, !is_separator_line(s, i, e));
    }
    (i + 1, false)
}

/// The line that holds position `i`, whose end is `e`, is the separator line.
fn is_separator_line(s: &Vec<char>, i: usize, e: usize) -> (b: bool)
    requires
        i < s@.len(),
        e == next_index(s@, i as int, '\n'),
    ensures
        b == separator_line_at(s@, i as int),
{
    proof {
        lemma_next_index(s@, i as int, '\n');
    }
    let mut j: usize = i;
    while j > 0 && s[j - 1] != '\n'
        invariant
            j <= i < s@.len(),
            line_start(s@, j as int) == line_start(s@, i as int),
        decreases j,
    {
        j -= 1;
    }
    let line = slice_vec(s, j, e);
    let t = crate::text::trimmed(&line);
    let sep: Vec<char> = vec!['/', '/', ' ', '-', '-', '-', ' ', 'b', 'u', 'n', 'd', 'l', 'e', 'd', ' ', '-', '-', '-'];
    assert(sep@ =~= separator_line());
    chars_eq(&t, &sep)
}

/// The text with its comments left out.
fn uncommented(s: &Vec<char>) -> (r: Vec<char>)
    ensures
        r@ == uncommented_from(s@, 0),
{
    let n = s.len();
    let mut out: Vec<char> = Vec::new();
    let mut i: usize = 0;
    while i < n
        invariant
            i <= n,
            n == s@.len(),
            uncommented_from(s@, 0) == out@ + uncommented_from(s@, i as int),
        decreases n - i,
    {
        let (e, comment) = token_at(s, i);
        proof {
            lemma_token_end_bounds(s@, i as int);
        }
        if !comment {
            let piece = slice_vec(s, i, e);
            let ghost before = out@;
            crate::text::append_chars(&mut out, &piece);
            assert(before + (s@.subrange(i as int, e as int) + uncommented_from(s@, e as int))
                =~= out@ + uncommented_from(s@, e as int));
        } else {
            assert(Seq::<char>::empty() + uncommented_from(s@, e as int) =~= uncommented_from(
                s@,
                e as int,
            ));
        }
        i = e;
    }
    assert(out@ + uncommented_from(s@, n as int) =~= out@);
    out
}

/// Each line without trailing whitespace, newline-terminated, a blank
/// line after a blank line left out.
fn tidy(s: &Vec<char>) -> (r: Vec<char>)
    ensures
        r@ == terminated(tidy_lines(lines(s@), false)),
{
    let ls = lines_of(s);
    let ghost all = views(ls@);
    let mut cleaned: Vec<char> = Vec::new();
    let mut prev_blank = false;
    let mut i: usize = 0;
    while i < ls.len()
        invariant
            i <= ls@.len(),
            all == views(ls@),
            terminated(tidy_lines(all, false)) == cleaned@ + terminated(
                tidy_lines(all.skip(i as int), prev_blank),
            ),
        decreases ls@.len() - i,
    {
        let line = &ls[i];
        let end = trim_end_index(line, 0, line.len());
        assert(line@.subrange(0, line@.len() as int) =~= line@);
        let is_blank = end == 0;
        let ghost rest = all.skip(i as int);
        assert(rest[0] == line@);
        assert(rest.drop_first() =~= all.skip(i + 1));
        if is_blank && prev_blank {
        } else {
            let ghost before = cleaned@;
            let piece = slice_vec(line, 0, end);
            crate::text::append_chars(&mut cleaned, &piece);
            cleaned.push('\n');
            assert(terminated(seq![piece@] + tidy_lines(all.skip(i + 1), is_blank)) == piece@ + seq![
                '\n',
            ] + terminated(tidy_lines(all.skip(i + 1), is_blank)));
            assert(before + (piece@ + seq!['\n'] + terminated(tidy_lines(all.skip(i + 1), is_blank)))
                =~= cleaned@ + terminated(tidy_lines(all.skip(i + 1), is_blank)));
            prev_blank = is_blank;
        }
        i += 1;
    }
    assert(all.skip(ls@.len() as int) =~= Seq::<Seq<char>>::empty());
    assert(cleaned@ + Seq::<char>::empty() =~= cleaned@);
    assert(all == lines(s@));
    cleaned
}

/// Removes all comments (`//`, `///`, `//!` and nested `/* ... */`) from
/// source code, keeping string, raw string and character literals whole
/// and the separator line of the bundled libraries (`// --- bundled ---`);
/// then drops trailing whitespace from each line, keeps no blank line that
/// follows a blank line, and ends the text with at most one newline.
pub fn remove_comments_chars(source: &Vec<char>) -> (r: Vec<char>)
    ensures
        r@ == comments_removed(source@),
{
    let mut cleaned = tidy(&uncommented(source));
    while cleaned.len() >= 2 && cleaned[cleaned.len() - 1] == '\n' && cleaned[cleaned.len() - 2]
        == '\n'
        invariant
            comments_removed(source@) == single_final_newline(cleaned@),
        decreases cleaned@.len(),
    {
        cleaned.pop();
    }
    cleaned
}

/// Removes all comments from source code (see `remove_comments_chars`).
pub fn remove_comments(source: &str) -> (r: String)
    ensures
        r@ == comments_removed(source@),
{
    string_of(&remove_comments_chars(&chars_of(source)))
}

/// The numbers of `{` and of `}` in a line.
pub fn brace_counts(l: &Vec<char>) -> (r: (usize, usize))
    ensures
        r.0 == count_char(l@, '{'),
        r.1 == count_char(l@, '}'),
        r.0 + r.1 <= l@.len(),
{
    let mut opens: usize = 0;
    let mut closes: usize = 0;
    let mut i = l.len();
    while i > 0
        invariant
            i <= l.len(),
            opens == count_char(l@.skip(i as int), '{'),
            closes == count_char(l@.skip(i as int), '}'),
            opens + closes <= l.len() - i,
        decreases i,
    {
        i -= 1;
        assert(l@.skip(i as int).drop_first() =~= l@.skip(i + 1));
        assert(l@.skip(i as int)[0] == l@[i as int]);
        if l[i] == '{' {
            opens += 1;
        } else if l[i] == '}' {
            closes += 1;
        }
    }
    assert(l@.skip(0) =~= l@);
    (opens, closes)
}

/// The index just after the braced block that starts at line `start`.
#[verifier::rlimit(40)]
#[verifier::spinoff_prover]
fn skip_block(ls: &Vec<Vec<char>>, start: usize, Ghost(bound): Ghost<nat>) -> (end: usize)
    requires
        start < ls@.len(),
        total_len(views(ls@)) <= bound,
        bound <= i64::MAX,
    ensures
        end == start + block_lines(views(ls@).skip(start as int), 0),
{
    let ghost all = views(ls@);
    let n = ls.len();
    let mut i = start;
    let mut depth: i64 = 0;
    proof {
        lemma_total_len_take(all, start as int);
    }
    loop
        invariant
            start <= i <= n,
            n == ls@.len(),
            all == views(ls@),
            total_len(all) <= bound <= i64::MAX,
            i == start ==> depth == 0,
            -total_len(all.take(i as int)) <= depth <= total_len(all.take(i as int)),
            start + block_lines(all.skip(start as int), 0) == i + block_lines(
                all.skip(i as int),
                depth as int,
            ),
        decreases n - i,
    {
        if i >= n {
            assert(all.skip(i as int) =~= Seq::<Seq<char>>::empty());
            return i;
        }
        let (opens, closes) = brace_counts(&ls[i]);
        proof {
            assert(all.take(i + 1) =~= all.take(i as int).push(all[i as int]));
            lemma_total_len_push(all.take(i as int), all[i as int]);
            lemma_total_len_take(all, i + 1);
            assert(all.skip(i as int)[0] == all[i as int]);
            assert(all.skip(i as int).drop_first() =~= all.skip(i + 1));
        }
        depth = depth + opens as i64 - closes as i64;
        i += 1;
        if depth == 0 {
            return i;
        }
        if i == n {
            assert(all.skip(i - 1).len() == 1);
        }
    }
}

/// Removes each `#[cfg(test)]` line together with the item it marks: the
/// braced block that starts on the next line, or else that line alone.
#[verifier::rlimit(40)]
#[verifier::spinoff_prover]
pub fn remove_cfg_test_chars(source: &Vec<char>) -> (r: Vec<char>)
    requires
        source@.len() <= i64::MAX,
    ensures
        r@ == cfg_test_removed(source@),
{
    let ls = lines_of(source);
    let ghost all = views(ls@);
    proof {
        lemma_total_len_lines(source@);
    }
    let attr: Vec<char> = vec!['#', '[', 'c', 'f', 'g', '(', 't', 'e', 's', 't', ')', ']'];
    assert(attr@ =~= cfg_test_attr());
    let n = ls.len();
    let mut kept: Vec<Vec<char>> = Vec::new();
    let mut i: usize = 0;
    while i < n
        invariant
            i <= n,
            n == ls@.len(),
            all == views(ls@),
            all == lines(source@),
            attr@ == cfg_test_attr(),
            total_len(all) <= source@.len() <= i64::MAX,
            without_cfg_test(all) == views(kept@) + without_cfg_test(all.skip(i as int)),
        decreases n - i,
    {
        let line = &ls[i];
        let k = trim_start_index(line, 0, line.len());
        let m = trim_end_index(line, k, line.len());
        assert(line@.subrange(0, line@.len() as int) =~= line@);
        let trimmed = slice_vec(line, k, m);
        let ghost rest = all.skip(i as int);
        assert(rest[0] == line@);
        if chars_eq(&trimmed, &attr) {
            if i + 1 >= n {
                assert(rest.len() == 1);
                i = n;
                assert(views(kept@) + Seq::<Seq<char>>::empty() =~= views(kept@));
            } else {
                assert(rest[1] == ls@[i + 1]@);
                if crate::text::contains_char(&ls[i + 1], '{') {
                    let end = skip_block(&ls, i + 1, Ghost(source@.len()));
                    assert(rest.skip(1) =~= all.skip(i + 1));
                    proof {
                        lemma_block_lines_bounds(all.skip(i + 1), 0);
                    }
                    assert(rest.skip(1 + block_lines(rest.skip(1), 0) as int) =~= all.skip(end as int));
                    i = end;
                } else {
                    assert(rest.skip(2) =~= all.skip(i + 2));
                    i = i + 2;
                }
            }
        } else {
            let copy = copy_chars(line);
            assert(rest.drop_first() =~= all.skip(i + 1));
            assert(views(kept@) + (seq![line@] + without_cfg_test(all.skip(i + 1)))
                =~= views(kept@).push(copy@) + without_cfg_test(all.skip(i + 1)));
            kept.push(copy);
            i += 1;
        }
    }
    assert(all.skip(n as int) =~= Seq::<Seq<char>>::empty());
    assert(views(kept@) + Seq::<Seq<char>>::empty() =~= views(kept@));
    let nlv: Vec<char> = vec!['\n'];
    assert(nlv@ =~= seq!['\n']);
    let mut out = join_chars(&kept, &nlv);
    let ghost joined = out@;
    if source.len() > 0 && source[source.len() - 1] == '\n' {
        out.push('\n');
    }
    assert(out@ =~= joined + final_newline(source@));
    out
}

/// Removes `#[cfg(test)]` items from source text (see `remove_cfg_test_chars`).
pub fn remove_cfg_test(source: &str) -> (r: String)
    requires
        source@.len() <= i64::MAX,
    ensures
        r@ == cfg_test_removed(source@),
{
    string_of(&remove_cfg_test_chars(&chars_of(source)))
}

} // verus!
