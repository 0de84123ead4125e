//! Rewriting of `use` paths and macro paths so that the code of a local
//! crate can live as a module of the bundled program.

use vstd::prelude::*;

use crate::text::{
    append_chars, chars_eq, chars_of, has_prefix, join, join_chars, lines, lines_of,
    replace_all, replace_chars, slice_vec, starts_with, string_of, trim, trim_end_index,
    trim_start, trim_start_index, underscored, views,
};

verus! {

broadcast use vstd::seq_lib::group_seq_properties, crate::text::lemma_views_push;

// ---------------------------------------------------------------------
// Specification
// ---------------------------------------------------------------------

/// `use ` (with its space).
pub open spec fn use_kw() -> Seq<char> {
    seq!['u', 's', 'e', ' ']
}

/// `::`.
pub open spec fn colons() -> Seq<char> {
    seq![':', ':']
}

/// `use crate::`.
pub open spec fn use_crate() -> Seq<char> {
    seq!['u', 's', 'e', ' ', 'c', 'r', 'a', 't', 'e', ':', ':']
}

/// `super`.
pub open spec fn super_kw() -> Seq<char> {
    seq!['s', 'u', 'p', 'e', 'r']
}

/// The whitespace that a line starts with.
pub open spec fn leading_ws(line: Seq<char>) -> Seq<char> {
    line.take(line.len() - trim_start(line).len())
}

/// The texts of a list of strings.
pub open spec fn texts(v: Seq<String>) -> Seq<Seq<char>> {
    v.map_values(|s: String| s@)
}

/// A `use` line after its path is made to start at the bundled crate's
/// module: the first crate of `crates` (in order) whose path `name::...`
/// or `name;` follows the `use ` decides; with none, the line is unchanged.
pub open spec fn use_line_rewritten(line: Seq<char>, crates: Seq<Seq<char>>) -> Seq<char>
    decreases crates.len(),
{
    if crates.len() == 0 {
        line
    } else {
        let after = trim(line).skip(4);
        let u = underscored(crates[0]);
        if starts_with(after, u + colons()) {
            leading_ws(line) + use_crate() + u + colons() + after.skip(u.len() as int + 2)
        } else if after == u + seq![';'] {
            leading_ws(line) + use_crate() + u + seq![';']
        } else {
            use_line_rewritten(line, crates.drop_first())
        }
    }
}

/// A line with every `name::` of each crate of `crates` removed, the
/// crates taken in order.
pub open spec fn crate_paths_removed(line: Seq<char>, crates: Seq<Seq<char>>) -> Seq<char>
    decreases crates.len(),
{
    if crates.len() == 0 {
        line
    } else {
        crate_paths_removed(
            replace_all(line, underscored(crates[0]) + colons(), seq![]),
            crates.drop_first(),
        )
    }
}

/// What `rewrite_line` makes of a line.
pub open spec fn rewritten_line(line: Seq<char>, crates: Seq<Seq<char>>) -> Seq<char> {
    if starts_with(trim(line), use_kw()) {
        use_line_rewritten(line, crates)
    } else {
        crate_paths_removed(line, crates)
    }
}

/// `super::super::...::super`, `depth` times.
pub open spec fn super_chain(depth: nat) -> Seq<char> {
    join(Seq::new(depth, |_i: int| super_kw()), colons())
}

/// What `rewrite_crate_self_refs` makes of a line.
pub open spec fn self_refs_rewritten(line: Seq<char>, depth: nat) -> Seq<char> {
    replace_all(line, use_crate(), use_kw() + super_chain(depth) + colons())
}

/// `\n` when `s` ends with one, else nothing.
pub open spec fn final_newline(s: Seq<char>) -> Seq<char> {
    if s.len() > 0 && s.last() == '\n' {
        seq!['\n']
    } else {
        seq![]
    }
}

/// What `rewrite_source` makes of a source text.
pub open spec fn rewritten_source(source: Seq<char>, crates: Seq<Seq<char>>) -> Seq<char> {
    join(lines(source).map_values(|l: Seq<char>| rewritten_line(l, crates)), seq!['\n'])
        + final_newline(source)
}

// ---------------------------------------------------------------------
// Laws
// ---------------------------------------------------------------------

/// The line names none of the crates: no `name::` occurs in it, and it is
/// not `use name;`.
pub open spec fn names_no_crate(line: Seq<char>, crates: Seq<Seq<char>>) -> bool {
    forall|k: int|
        0 <= k < crates.len() ==> !crate::text::contains_seq(
            line,
            underscored(#[trigger] crates[k]) + colons(),
        ) && trim(line).skip(4) != underscored(crates[k]) + seq![';']
}

/// A line that names none of the local crates is left as it is.
pub proof fn law_line_without_crates_unchanged(line: Seq<char>, crates: Seq<Seq<char>>)
    requires
        names_no_crate(line, crates),
    ensures
        rewritten_line(line, crates) == line,
    decreases crates.len(),
{
    if crates.len() > 0 {
        assert(names_no_crate(line, crates.drop_first())) by {
            assert forall|k: int| 0 <= k < crates.drop_first().len() implies !crate::text::contains_seq(
                line,
                underscored(#[trigger] crates.drop_first()[k]) + colons(),
            ) && trim(line).skip(4) != underscored(crates.drop_first()[k]) + seq![';'] by {
                assert(crates.drop_first()[k] == crates[k + 1]);
            }
        }
        law_line_without_crates_unchanged(line, crates.drop_first());
        let u = underscored(crates[0]);
        crate::text::lemma_replace_absent(line, u + colons(), seq![]);
        if starts_with(trim(line), use_kw()) {
            let after = trim(line).skip(4);
            if starts_with(after, u + colons()) {
                // `name::` would then occur in the line
                crate::text::lemma_trim_start_shape(line);
                crate::text::lemma_trim_end_shape(trim_start(line));
                let off = line.len() - trim_start(line).len() + 4;
                assert(line.subrange(off, off + u.len() + 2) =~= after.take(u.len() as int + 2));
                assert(crate::text::occurs_at(line, u + colons(), off));
                assert(false);
            }
        }
    }
}

/// A text without `\r` none of whose lines names a local crate is left as
/// it is by the rewriting of a program's source.
pub proof fn law_source_without_crates_unchanged(s: Seq<char>, crates: Seq<Seq<char>>)
    requires
        !s.contains('\r'),
        forall|j: int| 0 <= j < lines(s).len() ==> names_no_crate(#[trigger] lines(s)[j], crates),
    ensures
        rewritten_source(s, crates) == s,
{
    let ls = lines(s);
    let m = ls.map_values(|l: Seq<char>| rewritten_line(l, crates));
    assert forall|j: int| 0 <= j < ls.len() implies m[j] == ls[j] by {
        law_line_without_crates_unchanged(ls[j], crates);
    }
    assert(m =~= ls);
    crate::strip::lemma_lines_join(s);
}

/// A line without `use crate::` keeps its text whatever its depth.
pub proof fn law_self_refs_absent_unchanged(line: Seq<char>, depth: nat)
    requires
        !crate::text::contains_seq(line, use_crate()),
    ensures
        self_refs_rewritten(line, depth) == line,
{
    crate::text::lemma_replace_absent(line, use_crate(), use_kw() + super_chain(depth) + colons());
}

/// Replacing never creates text that starts with `q` when `q` lacks the
/// first character of the replacement: what the replaced text starts
/// with, the text before it started with.
proof fn lemma_replace_keeps_prefix(x: Seq<char>, pat: Seq<char>, rep: Seq<char>, q: Seq<char>)
    requires
        pat.len() > 0,
        rep.len() > 0,
        forall|j: int| 0 <= j < q.len() ==> q[j] != rep[0],
        starts_with(replace_all(x, pat, rep), q),
    ensures
        starts_with(x, q),
    decreases x.len(),
{
    let out = replace_all(x, pat, rep);
    if q.len() == 0 {
        assert(x.take(0) =~= q);
    } else if x.len() < pat.len() {
    } else if starts_with(x, pat) {
        assert(out == rep + replace_all(x.skip(pat.len() as int), pat, rep));
        assert(out[0] == rep[0]);
        assert(out.take(q.len() as int)[0] == q[0]);
    } else {
        let r = replace_all(x.drop_first(), pat, rep);
        assert(out == seq![x[0]] + r);
        assert(r.take(q.len() - 1) =~= q.drop_first()) by {
            assert forall|j: int| 0 <= j < q.len() - 1 implies r.take(q.len() - 1)[j] == q.drop_first()[j] by {
                assert(out.take(q.len() as int)[j + 1] == q[j + 1]);
            }
        }
        lemma_replace_keeps_prefix(x.drop_first(), pat, rep, q.drop_first());
        assert(out.take(q.len() as int)[0] == q[0]);
        assert(x.take(q.len() as int) =~= q) by {
            assert forall|j: int| 0 <= j < q.len() implies x.take(q.len() as int)[j] == q[j] by {
                if j > 0 {
                    assert(x.drop_first().take(q.len() - 1)[j - 1] == q.drop_first()[j - 1]);
                }
            }
        }
    }
}

/// After replacing, the pattern no longer occurs, when its first character
/// occurs nowhere else in it, the replacement starts with it, and no
/// place of the replacement where that character stands agrees with the
/// pattern on their common length.
proof fn lemma_replace_removes(s: Seq<char>, pat: Seq<char>, rep: Seq<char>)
    requires
        pat.len() > 0,
        rep.len() > 0,
        rep[0] == pat[0],
        forall|j: int| 1 <= j < pat.len() ==> #[trigger] pat[j] != pat[0],
        forall|k: int|
            0 <= k < rep.len() && rep[k] == pat[0] ==> !starts_with(#[trigger] rep.skip(k), pat)
                && !starts_with(pat, rep.skip(k)),
    ensures
        !crate::text::contains_seq(replace_all(s, pat, rep), pat),
    decreases s.len(),
{
    let out = replace_all(s, pat, rep);
    if s.len() < pat.len() {
        assert forall|i: int| !crate::text::occurs_at(out, pat, i) by {}
    } else if starts_with(s, pat) {
        let r = replace_all(s.skip(pat.len() as int), pat, rep);
        lemma_replace_removes(s.skip(pat.len() as int), pat, rep);
        assert(out == rep + r);
        assert forall|i: int| !#[trigger] crate::text::occurs_at(out, pat, i) by {
            if crate::text::occurs_at(out, pat, i) {
                let w = out.subrange(i, i + pat.len());
                if i >= rep.len() {
                    assert(r.subrange(i - rep.len(), i - rep.len() + pat.len()) =~= w);
                    assert(crate::text::occurs_at(r, pat, i - rep.len()));
                } else {
                    assert(w[0] == out[i]);
                    assert(out[i] == rep[i]);
                    if rep.len() - i >= pat.len() {
                        assert(rep.skip(i).take(pat.len() as int) =~= w);
                    } else {
                        assert(pat.take(rep.len() - i) =~= rep.skip(i)) by {
                            assert forall|j: int| 0 <= j < rep.len() - i implies pat.take(rep.len() - i)[j]
                                == rep.skip(i)[j] by {
                                assert(w[j] == out[i + j]);
                            }
                        }
                    }
                }
            }
        }
    } else {
        let r = replace_all(s.drop_first(), pat, rep);
        lemma_replace_removes(s.drop_first(), pat, rep);
        assert(out == seq![s[0]] + r);
        assert forall|i: int| !#[trigger] crate::text::occurs_at(out, pat, i) by {
            if crate::text::occurs_at(out, pat, i) {
                let w = out.subrange(i, i + pat.len());
                if i >= 1 {
                    assert(r.subrange(i - 1, i - 1 + pat.len()) =~= w);
                    assert(crate::text::occurs_at(r, pat, i - 1));
                } else {
                    let q = pat.drop_first();
                    assert(r.take(q.len() as int) =~= q) by {
                        assert forall|j: int| 0 <= j < q.len() implies r.take(q.len() as int)[j] == q[j] by {
                            assert(w[j + 1] == out[j + 1]);
                        }
                    }
                    lemma_replace_keeps_prefix(s.drop_first(), pat, rep, q);
                    assert(s.take(pat.len() as int) =~= pat) by {
                        assert forall|j: int| 0 <= j < pat.len() implies s.take(pat.len() as int)[j] == pat[j] by {
                            if j > 0 {
                                assert(s.drop_first().take(q.len() as int)[j - 1] == q[j - 1]);
                            } else {
                                assert(w[0] == out[0]);
                            }
                        }
                    }
                }
            }
        }
    }
}

/// The number of places where `p` occurs in `s` (for a pattern that
/// cannot overlap itself, as `use super::` cannot, the number of matches
/// `str::matches` finds).
pub open spec fn occurrences(s: Seq<char>, p: Seq<char>) -> nat
    decreases s.len(),
{
    if s.len() == 0 {
        0
    } else {
        (if starts_with(s, p) {
            1nat
        } else {
            0nat
        }) + occurrences(s.drop_first(), p)
    }
}

/// One of the two is a prefix of the other.
pub open spec fn compatible(a: Seq<char>, b: Seq<char>) -> bool {
    starts_with(a, b) || starts_with(b, a)
}

/// Two prefixes of one text are compatible.
proof fn lemma_prefixes_compatible(x: Seq<char>, a: Seq<char>, b: Seq<char>)
    requires
        starts_with(x, a),
        starts_with(x, b),
    ensures
        compatible(a, b),
{
    if a.len() <= b.len() {
        assert(b.take(a.len() as int) =~= a) by {
            assert forall|i: int| 0 <= i < a.len() implies b.take(a.len() as int)[i] == a[i] by {
                assert(x.take(a.len() as int)[i] == x.take(b.len() as int)[i]);
            }
        }
    } else {
        assert(a.take(b.len() as int) =~= b) by {
            assert forall|i: int| 0 <= i < b.len() implies a.take(b.len() as int)[i] == b[i] by {
                assert(x.take(a.len() as int)[i] == x.take(b.len() as int)[i]);
            }
        }
    }
}

/// Text that starts with `q` still does after replacing, when no place of
/// `q` where the pattern could begin agrees with the pattern.
proof fn lemma_replace_keeps_prefix_fwd(x: Seq<char>, pat: Seq<char>, rep: Seq<char>, q: Seq<char>)
    requires
        pat.len() > 0,
        starts_with(x, q),
        forall|j: int| 0 <= j < q.len() && q[j] == pat[0] ==> !compatible(#[trigger] q.skip(j), pat),
    ensures
        starts_with(replace_all(x, pat, rep), q),
    decreases x.len(),
{
    let out = replace_all(x, pat, rep);
    if q.len() == 0 {
        assert(out.take(0) =~= q);
    } else if x.len() < pat.len() {
    } else if starts_with(x, pat) {
        lemma_prefixes_compatible(x, q, pat);
        assert(q.skip(0) =~= q);
        assert(q[0] == x[0]);
        assert(pat[0] == x[0]);
    } else {
        let r = replace_all(x.drop_first(), pat, rep);
        assert(out == seq![x[0]] + r);
        let q1 = q.drop_first();
        assert(x.drop_first().take(q1.len() as int) =~= q1) by {
            assert forall|i: int| 0 <= i < q1.len() implies x.drop_first().take(q1.len() as int)[i] == q1[i] by {
                assert(x.take(q.len() as int)[i + 1] == q[i + 1]);
            }
        }
        assert forall|j: int| 0 <= j < q1.len() && q1[j] == pat[0] implies !compatible(#[trigger] q1.skip(j), pat) by {
            assert(q1.skip(j) =~= q.skip(j + 1));
            assert(q[j + 1] == q1[j]);
        }
        lemma_replace_keeps_prefix_fwd(x.drop_first(), pat, rep, q1);
        assert(out.take(q.len() as int) =~= q) by {
            assert forall|i: int| 0 <= i < q.len() implies out.take(q.len() as int)[i] == q[i] by {
                if i > 0 {
                    assert(r.take(q1.len() as int)[i - 1] == q1[i - 1]);
                } else {
                    assert(x.take(q.len() as int)[0] == q[0]);
                }
            }
        }
    }
}

/// What replaced text starts with, the text before it started with, when no
/// place of it where the replacement could begin agrees with the
/// replacement.
proof fn lemma_replace_keeps_prefix_back(x: Seq<char>, pat: Seq<char>, rep: Seq<char>, q: Seq<char>)
    requires
        pat.len() > 0,
        rep.len() > 0,
        starts_with(replace_all(x, pat, rep), q),
        forall|j: int| 0 <= j < q.len() && q[j] == rep[0] ==> !compatible(#[trigger] q.skip(j), rep),
    ensures
        starts_with(x, q),
    decreases x.len(),
{
    let out = replace_all(x, pat, rep);
    if q.len() == 0 {
        assert(x.take(0) =~= q);
    } else if x.len() < pat.len() {
    } else if starts_with(x, pat) {
        let r = replace_all(x.skip(pat.len() as int), pat, rep);
        assert(out == rep + r);
        assert(starts_with(out, rep)) by {
            assert(out.take(rep.len() as int) =~= rep);
        }
        lemma_prefixes_compatible(out, q, rep);
        assert(q.skip(0) =~= q);
        assert(out.take(q.len() as int)[0] == q[0]);
    } else {
        let r = replace_all(x.drop_first(), pat, rep);
        assert(out == seq![x[0]] + r);
        let q1 = q.drop_first();
        assert(r.take(q1.len() as int) =~= q1) by {
            assert forall|i: int| 0 <= i < q1.len() implies r.take(q1.len() as int)[i] == q1[i] by {
                assert(out.take(q.len() as int)[i + 1] == q[i + 1]);
            }
        }
        assert forall|j: int| 0 <= j < q1.len() && q1[j] == rep[0] implies !compatible(#[trigger] q1.skip(j), rep) by {
            assert(q1.skip(j) =~= q.skip(j + 1));
            assert(q[j + 1] == q1[j]);
        }
        lemma_replace_keeps_prefix_back(x.drop_first(), pat, rep, q1);
        assert(out.take(q.len() as int)[0] == q[0]);
        assert(x.take(q.len() as int) =~= q) by {
            assert forall|i: int| 0 <= i < q.len() implies x.take(q.len() as int)[i] == q[i] by {
                if i > 0 {
                    assert(x.drop_first().take(q1.len() as int)[i - 1] == q1[i - 1]);
                }
            }
        }
    }
}

/// Text in front of `y` adds no occurrence of `p` when no place of it
/// where `p` could begin agrees with `p`.
proof fn lemma_occurrences_front(a: Seq<char>, y: Seq<char>, p: Seq<char>)
    requires
        p.len() > 0,
        forall|i: int| 0 <= i < a.len() && a[i] == p[0] ==> !compatible(#[trigger] a.skip(i), p),
    ensures
        occurrences(a + y, p) == occurrences(y, p),
    decreases a.len(),
{
    if a.len() > 0 {
        assert((a + y).drop_first() =~= a.drop_first() + y);
        assert forall|i: int| 0 <= i < a.drop_first().len() && a.drop_first()[i] == p[0] implies !compatible(
            #[trigger] a.drop_first().skip(i),
            p,
        ) by {
            assert(a.drop_first().skip(i) =~= a.skip(i + 1));
            assert(a[i + 1] == a.drop_first()[i]);
        }
        lemma_occurrences_front(a.drop_first(), y, p);
        if starts_with(a + y, p) {
            assert(a.skip(0) =~= a);
            assert((a + y)[0] == a[0]);
            assert((a + y).take(p.len() as int)[0] == p[0]);
            if a.len() >= p.len() {
                assert(a.take(p.len() as int) =~= (a + y).take(p.len() as int));
            } else {
                assert(p.take(a.len() as int) =~= a) by {
                    assert forall|i: int| 0 <= i < a.len() implies p.take(a.len() as int)[i] == a[i] by {
                        assert((a + y).take(p.len() as int)[i] == p[i]);
                    }
                }
            }
        }
    } else {
        assert(a + y =~= y);
    }
}

/// Replacing `c` by `rp` adds one occurrence of `sp` for each occurrence
/// of `c`, under conditions on how the three texts can overlap.
proof fn lemma_replace_count(s: Seq<char>, c: Seq<char>, rp: Seq<char>, sp: Seq<char>)
    requires
        c.len() > 0,
        sp.len() > 0,
        rp.len() > 0,
        rp[0] == c[0],
        sp[0] == c[0],
        forall|j: int| 1 <= j < c.len() ==> #[trigger] c[j] != c[0],
        !compatible(sp, c),
        starts_with(rp, sp),
        forall|i: int| 1 <= i < rp.len() && rp[i] == sp[0] ==> !compatible(#[trigger] rp.skip(i), sp),
        forall|j: int|
            0 <= j < sp.drop_first().len() && sp.drop_first()[j] == c[0] ==> !compatible(
                #[trigger] sp.drop_first().skip(j),
                c,
            ),
        forall|j: int|
            0 <= j < sp.drop_first().len() && sp.drop_first()[j] == rp[0] ==> !compatible(
                #[trigger] sp.drop_first().skip(j),
                rp,
            ),
    ensures
        occurrences(replace_all(s, c, rp), sp) == occurrences(s, sp) + occurrences(s, c),
    decreases s.len(),
{
    let out = replace_all(s, c, rp);
    if s.len() < c.len() {
        lemma_occurrences_none(s, c);
    } else if starts_with(s, c) {
        let rest = s.skip(c.len() as int);
        let r = replace_all(rest, c, rp);
        lemma_replace_count(rest, c, rp, sp);
        assert(out == rp + r);
        // the replacement holds one occurrence, at its start
        let rp1 = rp.drop_first();
        assert forall|i: int| 0 <= i < rp1.len() && rp1[i] == sp[0] implies !compatible(#[trigger] rp1.skip(i), sp) by {
            assert(rp1.skip(i) =~= rp.skip(i + 1));
            assert(rp[i + 1] == rp1[i]);
        }
        lemma_occurrences_front(rp1, r, sp);
        assert((rp + r).drop_first() =~= rp1 + r);
        assert(starts_with(rp + r, sp)) by {
            assert((rp + r).take(sp.len() as int) =~= rp.take(sp.len() as int));
        }
        // the replaced text holds none of `sp` and one of `c`
        assert(s =~= c + rest) by {
            assert(s.take(c.len() as int) == c);
        }
        assert forall|i: int| 0 <= i < c.len() && c[i] == sp[0] implies !compatible(#[trigger] c.skip(i), sp) by {
            assert(i == 0);
            assert(c.skip(0) =~= c);
            if compatible(c, sp) {
                if starts_with(c, sp) {
                    assert(starts_with(sp, c) || starts_with(c, sp));
                }
            }
        }
        lemma_occurrences_front(c, rest, sp);
        let c1 = c.drop_first();
        assert forall|i: int| 0 <= i < c1.len() && c1[i] == c[0] implies !compatible(#[trigger] c1.skip(i), c) by {
            assert(c[i + 1] == c1[i]);
        }
        lemma_occurrences_front(c1, rest, c);
        assert((c + rest).drop_first() =~= c1 + rest);
        assert(starts_with(c + rest, c));
    } else {
        let s1 = s.drop_first();
        let r = replace_all(s1, c, rp);
        lemma_replace_count(s1, c, rp, sp);
        assert(out == seq![s[0]] + r);
        assert(out.drop_first() =~= r);
        let q = sp.drop_first();
        if starts_with(s, sp) {
            assert(s1.take(q.len() as int) =~= q) by {
                assert forall|i: int| 0 <= i < q.len() implies s1.take(q.len() as int)[i] == q[i] by {
                    assert(s.take(sp.len() as int)[i + 1] == sp[i + 1]);
                }
            }
            lemma_replace_keeps_prefix_fwd(s1, c, rp, q);
            assert(out.take(sp.len() as int) =~= sp) by {
                assert forall|i: int| 0 <= i < sp.len() implies out.take(sp.len() as int)[i] == sp[i] by {
                    if i > 0 {
                        assert(r.take(q.len() as int)[i - 1] == q[i - 1]);
                    } else {
                        assert(s.take(sp.len() as int)[0] == sp[0]);
                    }
                }
            }
        }
        if starts_with(out, sp) {
            assert(r.take(q.len() as int) =~= q) by {
                assert forall|i: int| 0 <= i < q.len() implies r.take(q.len() as int)[i] == q[i] by {
                    assert(out.take(sp.len() as int)[i + 1] == sp[i + 1]);
                }
            }
            lemma_replace_keeps_prefix_back(s1, c, rp, q);
            assert(s.take(sp.len() as int) =~= sp) by {
                assert forall|i: int| 0 <= i < sp.len() implies s.take(sp.len() as int)[i] == sp[i] by {
                    if i > 0 {
                        assert(s1.take(q.len() as int)[i - 1] == q[i - 1]);
                    } else {
                        assert(out.take(sp.len() as int)[0] == sp[0]);
                    }
                }
            }
        }
    }
}

/// A text shorter than the pattern holds no occurrence of it.
proof fn lemma_occurrences_none(s: Seq<char>, p: Seq<char>)
    requires
        s.len() < p.len(),
    ensures
        occurrences(s, p) == 0,
    decreases s.len(),
{
    if s.len() > 0 {
        lemma_occurrences_none(s.drop_first(), p);
    }
}

/// `super::super::...` holds no `c` and, for a depth of one or more,
/// ends with `super`.
proof fn lemma_super_chain(d: nat)
    ensures
        forall|j: int| 0 <= j < super_chain(d).len() ==> super_chain(d)[j] != 'c',
        d >= 1 ==> super_chain(d).len() >= 5 && super_chain(d).skip(super_chain(d).len() - 5)
            == super_kw(),
    decreases d,
{
    let ss = Seq::new(d, |_i: int| super_kw());
    if d == 1 {
        assert(super_chain(d) == super_kw());
        assert(super_kw().skip(0) =~= super_kw());
    } else if d >= 2 {
        assert(ss.drop_first() =~= Seq::new((d - 1) as nat, |_i: int| super_kw()));
        lemma_super_chain((d - 1) as nat);
        let rest = super_chain((d - 1) as nat);
        assert(super_chain(d) == super_kw() + colons() + rest);
        assert(super_chain(d).skip(super_chain(d).len() - 5) =~= rest.skip(rest.len() - 5));
    }
}

/// With a depth of one or more, no `use crate::` is left in the line.
pub proof fn law_self_refs_all_rewritten(line: Seq<char>, depth: nat)
    requires
        depth >= 1,
    ensures
        !crate::text::contains_seq(self_refs_rewritten(line, depth), use_crate()),
{
    let pat = use_crate();
    let chain = super_chain(depth);
    let rep = use_kw() + chain + colons();
    lemma_super_chain(depth);
    assert forall|j: int| 0 <= j < rep.len() implies rep[j] != 'c' by {
        if 4 <= j < 4 + chain.len() {
            assert(rep[j] == chain[j - 4]);
        }
    }
    assert forall|k: int|
        0 <= k < rep.len() && rep[k] == pat[0] implies !starts_with(#[trigger] rep.skip(k), pat)
            && !starts_with(pat, rep.skip(k)) by {
        if rep.len() - k >= 5 {
            assert(rep.skip(k)[4] == rep[k + 4]);
            if starts_with(rep.skip(k), pat) {
                assert(rep.skip(k).take(pat.len() as int)[4] == pat[4]);
            }
            if starts_with(pat, rep.skip(k)) {
                assert(pat.take(rep.skip(k).len() as int)[4] == pat[4]);
            }
        } else {
            let n = rep.len();
            assert(rep[n - 1] == ':' && rep[n - 2] == ':');
            assert(chain[chain.len() - 1] == chain.skip(chain.len() - 5)[4]);
            assert(chain[chain.len() - 2] == chain.skip(chain.len() - 5)[3]);
            assert(rep[n - 3] == chain[chain.len() - 1]);
            assert(rep[n - 4] == chain[chain.len() - 2]);
        }
    }
    lemma_replace_removes(line, pat, rep);
}

/// `use super::`.
pub open spec fn use_super() -> Seq<char> {
    seq!['u', 's', 'e', ' ', 's', 'u', 'p', 'e', 'r', ':', ':']
}

/// `super::super::...` starts with `super`, then `::` when there is more,
/// and each `u` in it is followed by `p`.
proof fn lemma_super_chain_shape(d: nat)
    ensures
        forall|i: int|
            0 <= i < super_chain(d).len() && #[trigger] super_chain(d)[i] == 'u' ==> i + 1 < super_chain(d).len()
                && super_chain(d)[i + 1] == 'p',
        d >= 1 ==> super_chain(d).len() >= 5 && super_chain(d).take(5) == super_kw(),
        d >= 2 ==> super_chain(d).len() >= 7 && super_chain(d)[5] == ':' && super_chain(d)[6] == ':',
        d == 1 ==> super_chain(d) == super_kw(),
        d == 0 ==> super_chain(d).len() == 0,
    decreases d,
{
    let ss = Seq::new(d, |_i: int| super_kw());
    if d == 1 {
        assert(super_chain(d) == super_kw());
        assert(super_kw().take(5) =~= super_kw());
    } else if d >= 2 {
        assert(ss.drop_first() =~= Seq::new((d - 1) as nat, |_i: int| super_kw()));
        lemma_super_chain_shape((d - 1) as nat);
        let rest = super_chain((d - 1) as nat);
        let ch = super_chain(d);
        assert(ch == super_kw() + colons() + rest);
        assert(ch.take(5) =~= super_kw());
        assert forall|i: int| 0 <= i < ch.len() && #[trigger] ch[i] == 'u' implies i + 1 < ch.len() && ch[i + 1] == 'p' by {
            if i >= 7 {
                assert(ch[i] == rest[i - 7]);
                assert(ch[i + 1] == rest[i - 6]);
            }
        }
    }
}

/// Each `use crate::` made `use super::...::` adds one `use super::`: the
/// rewritten line holds as many `use super::` as the line held `use
/// super::` and `use crate::` together (at a depth of one or more).
pub proof fn law_self_refs_count(line: Seq<char>, depth: nat)
    requires
        depth >= 1,
    ensures
        occurrences(self_refs_rewritten(line, depth), use_super()) == occurrences(line, use_super())
            + occurrences(line, use_crate()),
{
    let c = use_crate();
    let sp = use_super();
    let chain = super_chain(depth);
    let rp = use_kw() + chain + colons();
    lemma_super_chain_shape(depth);
    assert forall|j: int| 1 <= j < c.len() implies #[trigger] c[j] != c[0] by {}
    assert(!compatible(sp, c)) by {
        if starts_with(sp, c) {
            assert(sp.take(c.len() as int)[4] == c[4]);
        }
        if starts_with(c, sp) {
            assert(c.take(sp.len() as int)[4] == sp[4]);
        }
    }
    assert(starts_with(rp, sp)) by {
        if depth == 1 {
            assert(rp =~= sp);
            assert(rp.take(sp.len() as int) =~= sp);
        } else {
            assert(rp.take(sp.len() as int) =~= sp) by {
                assert forall|i: int| 0 <= i < sp.len() implies rp.take(sp.len() as int)[i] == sp[i] by {
                    if 4 <= i < 9 {
                        assert(rp[i] == chain[i - 4]);
                        assert(chain[i - 4] == chain.take(5)[i - 4]);
                    } else if 9 <= i < 11 {
                        assert(rp[i] == chain[i - 4]);
                    }
                }
            }
        }
    }
    assert forall|i: int| 1 <= i < rp.len() && rp[i] == sp[0] implies !compatible(#[trigger] rp.skip(i), sp) by {
        assert(4 <= i < 4 + chain.len());
        assert(rp[i] == chain[i - 4]);
        assert(rp[i + 1] == chain[i - 3]);
        assert(rp.skip(i)[1] == 'p');
        if starts_with(rp.skip(i), sp) {
            assert(rp.skip(i).take(sp.len() as int)[1] == sp[1]);
        }
        if starts_with(sp, rp.skip(i)) {
            assert(sp.take(rp.skip(i).len() as int)[1] == sp[1]);
        }
    }
    let q = sp.drop_first();
    assert forall|j: int| 0 <= j < q.len() && q[j] == c[0] implies !compatible(#[trigger] q.skip(j), c) by {
        assert(j == 4);
        if starts_with(q.skip(j), c) {
            assert(q.skip(j).take(c.len() as int)[1] == c[1]);
        }
        if starts_with(c, q.skip(j)) {
            assert(c.take(q.skip(j).len() as int)[1] == q.skip(j)[1]);
        }
    }
    assert forall|j: int| 0 <= j < q.len() && q[j] == rp[0] implies !compatible(#[trigger] q.skip(j), rp) by {
        assert(j == 4);
        if starts_with(q.skip(j), rp) {
            assert(q.skip(j).take(rp.len() as int)[1] == rp[1]);
        }
        if starts_with(rp, q.skip(j)) {
            assert(rp.take(q.skip(j).len() as int)[1] == q.skip(j)[1]);
        }
    }
    lemma_replace_count(line, c, rp, sp);
}

/// The text holds no newline.
pub open spec fn no_newline(s: Seq<char>) -> bool {
    forall|i: int| 0 <= i < s.len() ==> #[trigger] s[i] != '\n'
}

proof fn lemma_nl_replace(s: Seq<char>, pat: Seq<char>, rep: Seq<char>)
    requires
        no_newline(s),
        no_newline(rep),
    ensures
        no_newline(replace_all(s, pat, rep)),
    decreases s.len(),
{
    if pat.len() == 0 || s.len() < pat.len() {
    } else if starts_with(s, pat) {
        lemma_nl_replace(s.skip(pat.len() as int), pat, rep);
        let r = replace_all(s.skip(pat.len() as int), pat, rep);
        assert forall|i: int| 0 <= i < (rep + r).len() implies #[trigger] (rep + r)[i] != '\n' by {
            if i >= rep.len() {
                assert((rep + r)[i] == r[i - rep.len()]);
            }
        }
    } else {
        lemma_nl_replace(s.drop_first(), pat, rep);
        let r = replace_all(s.drop_first(), pat, rep);
        assert forall|i: int| 0 <= i < (seq![s[0]] + r).len() implies #[trigger] (seq![s[0]] + r)[i] != '\n' by {
            if i >= 1 {
                assert((seq![s[0]] + r)[i] == r[i - 1]);
            }
        }
    }
}

proof fn lemma_nl_paths_removed(line: Seq<char>, crates: Seq<Seq<char>>)
    requires
        no_newline(line),
    ensures
        no_newline(crate_paths_removed(line, crates)),
    decreases crates.len(),
{
    if crates.len() > 0 {
        lemma_nl_replace(line, underscored(crates[0]) + colons(), seq![]);
        lemma_nl_paths_removed(replace_all(line, underscored(crates[0]) + colons(), seq![]), crates.drop_first());
    }
}

pub proof fn lemma_nl_concat(a: Seq<char>, b: Seq<char>)
    requires
        no_newline(a),
        no_newline(b),
    ensures
        no_newline(a + b),
{
    assert forall|i: int| 0 <= i < (a + b).len() implies #[trigger] (a + b)[i] != '\n' by {
        if i >= a.len() {
            assert((a + b)[i] == b[i - a.len()]);
        }
    }
}

pub proof fn lemma_nl_trim(line: Seq<char>)
    requires
        no_newline(line),
    ensures
        no_newline(trim(line)),
        no_newline(leading_ws(line)),
{
    crate::text::lemma_trim_start_shape(line);
    let ts = trim_start(line);
    crate::text::lemma_trim_end_shape(ts);
    assert forall|i: int| 0 <= i < trim(line).len() implies #[trigger] trim(line)[i] != '\n' by {
        assert(trim(line)[i] == ts[i]);
        assert(ts[i] == line[line.len() - ts.len() + i]);
    }
}

proof fn lemma_nl_use_line(line: Seq<char>, crates: Seq<Seq<char>>)
    requires
        no_newline(line),
        starts_with(trim(line), use_kw()),
        forall|k: int| 0 <= k < crates.len() ==> no_newline(#[trigger] crates[k]),
    ensures
        no_newline(use_line_rewritten(line, crates)),
    decreases crates.len(),
{
    if crates.len() > 0 {
        lemma_nl_trim(line);
        let after = trim(line).skip(4);
        let u = underscored(crates[0]);
        assert(no_newline(crates[0]));
        assert forall|i: int| 0 <= i < u.len() implies #[trigger] u[i] != '\n' by {
            assert(crates[0][i] != '\n');
        }
        assert(no_newline(after)) by {
            assert forall|i: int| 0 <= i < after.len() implies #[trigger] after[i] != '\n' by {
                assert(after[i] == trim(line)[i + 4]);
            }
        }
        assert(no_newline(use_crate()));
        assert(no_newline(colons()));
        assert(no_newline(seq![';']));
        lemma_nl_concat(leading_ws(line), use_crate());
        lemma_nl_concat(leading_ws(line) + use_crate(), u);
        lemma_nl_concat(leading_ws(line) + use_crate() + u, colons());
        if u.len() + 2 <= after.len() {
            let t = after.skip(u.len() as int + 2);
            assert forall|i: int| 0 <= i < t.len() implies #[trigger] t[i] != '\n' by {
                assert(t[i] == after[i + u.len() + 2]);
            }
            lemma_nl_concat(leading_ws(line) + use_crate() + u + colons(), t);
        }
        lemma_nl_concat(leading_ws(line) + use_crate() + u, seq![';']);
        lemma_nl_use_line(line, crates.drop_first());
        assert forall|k: int| 0 <= k < crates.drop_first().len() implies no_newline(#[trigger] crates.drop_first()[k]) by {
            assert(crates.drop_first()[k] == crates[k + 1]);
        }
        lemma_nl_use_line(line, crates.drop_first());
    }
}

proof fn lemma_nl_chain(d: nat)
    ensures
        no_newline(super_chain(d)),
    decreases d,
{
    let ss = Seq::new(d, |_i: int| super_kw());
    if d == 1 {
        assert(super_chain(d) == super_kw());
    } else if d >= 2 {
        assert(ss.drop_first() =~= Seq::new((d - 1) as nat, |_i: int| super_kw()));
        lemma_nl_chain((d - 1) as nat);
        assert(super_chain(d) == super_kw() + colons() + super_chain((d - 1) as nat));
        lemma_nl_concat(super_kw(), colons());
        lemma_nl_concat(super_kw() + colons(), super_chain((d - 1) as nat));
    }
}

/// A rewritten line holds no newline when the line and the crate names
/// hold none.
pub proof fn lemma_nl_rewritten(line: Seq<char>, crates: Seq<Seq<char>>, depth: nat)
    requires
        no_newline(line),
        forall|k: int| 0 <= k < crates.len() ==> no_newline(#[trigger] crates[k]),
    ensures
        no_newline(rewritten_line(line, crates)),
        no_newline(self_refs_rewritten(rewritten_line(line, crates), depth)),
{
    if starts_with(trim(line), use_kw()) {
        lemma_nl_use_line(line, crates);
    } else {
        lemma_nl_paths_removed(line, crates);
    }
    lemma_nl_chain(depth);
    lemma_nl_concat(use_kw(), super_chain(depth));
    lemma_nl_concat(use_kw() + super_chain(depth), colons());
    lemma_nl_replace(rewritten_line(line, crates), use_crate(), use_kw() + super_chain(depth) + colons());
}

/// A `use` line naming a local crate `crates[k]` (`use name::...` or
/// `use name;`, with `-` written `_`) is made to start at `crate::name`,
/// its indent kept, when no crate before it in the list is named that way.
pub proof fn law_use_line_rewritten_for_any_crate(line: Seq<char>, crates: Seq<Seq<char>>, k: int)
    requires
        0 <= k < crates.len(),
        starts_with(trim(line), use_kw()),
        forall|j: int|
            0 <= j < k ==> !starts_with(trim(line).skip(4), #[trigger] underscored(crates[j]) + colons())
                && trim(line).skip(4) != underscored(crates[j]) + seq![';'],
    ensures
        starts_with(trim(line).skip(4), underscored(crates[k]) + colons()) ==> rewritten_line(line, crates)
            == leading_ws(line) + use_crate() + underscored(crates[k]) + colons() + trim(line).skip(4).skip(
            underscored(crates[k]).len() as int + 2,
        ),
        trim(line).skip(4) == underscored(crates[k]) + seq![';'] ==> rewritten_line(line, crates)
            == leading_ws(line) + use_crate() + underscored(crates[k]) + seq![';'],
    decreases k,
{
    lemma_use_line_from(line, crates, k);
}

/// In a line that is not a `use` line, the path `name::` of a local crate
/// `crates[k]` (with `-` written `_`) before a macro or item is taken out,
/// whatever the crate's place in the list: where the line holds it once and
/// names no other local crate, the rest of the line is what remains.
pub proof fn law_crate_path_removed_for_any_crate(
    a: Seq<char>,
    b: Seq<char>,
    crates: Seq<Seq<char>>,
    k: int,
)
    requires
        0 <= k < crates.len(),
        !starts_with(trim(a + underscored(crates[k]) + colons() + b), use_kw()),
        forall|q: int|
            0 <= q < a.len() ==> !#[trigger] crate::text::occurs_at(
                a + underscored(crates[k]) + colons() + b,
                underscored(crates[k]) + colons(),
                q,
            ),
        !crate::text::contains_seq(b, underscored(crates[k]) + colons()),
        forall|j: int|
            0 <= j < k ==> !crate::text::contains_seq(
                a + underscored(crates[k]) + colons() + b,
                #[trigger] underscored(crates[j]) + colons(),
            ),
        forall|j: int|
            k < j < crates.len() ==> !crate::text::contains_seq(
                a + b,
                #[trigger] underscored(crates[j]) + colons(),
            ),
    ensures
        rewritten_line(a + underscored(crates[k]) + colons() + b, crates) == a + b,
{
    let u = underscored(crates[k]);
    let line = a + u + colons() + b;
    lemma_paths_absent_from(line, crates, k);
    assert(crate::text::occurs_at(line, u + colons(), a.len() as int)) by {
        assert(line.subrange(a.len() as int, a.len() + u.len() + 2int) =~= u + colons());
    }
    crate::text::lemma_replace_first(line, u + colons(), seq![], a.len() as int);
    assert(line.take(a.len() as int) =~= a);
    assert(line.skip(a.len() + u.len() + 2int) =~= b);
    crate::text::lemma_replace_absent(b, u + colons(), seq![]);
    assert(a + seq![] + b =~= a + b);
    let rest = crates.skip(k);
    assert(rest.drop_first() =~= crates.skip(k + 1));
    assert forall|j: int| 0 <= j < crates.skip(k + 1).len() implies !crate::text::contains_seq(
        a + b,
        #[trigger] underscored(crates.skip(k + 1)[j]) + colons(),
    ) by {
        assert(crates.skip(k + 1)[j] == crates[k + 1 + j]);
    }
    lemma_paths_absent(a + b, crates.skip(k + 1));
}

proof fn lemma_paths_absent(line: Seq<char>, crates: Seq<Seq<char>>)
    requires
        forall|j: int|
            0 <= j < crates.len() ==> !crate::text::contains_seq(line, #[trigger] underscored(crates[j]) + colons()),
    ensures
        crate_paths_removed(line, crates) == line,
    decreases crates.len(),
{
    if crates.len() > 0 {
        crate::text::lemma_replace_absent(line, underscored(crates[0]) + colons(), seq![]);
        assert forall|j: int| 0 <= j < crates.drop_first().len() implies !crate::text::contains_seq(
            line,
            #[trigger] underscored(crates.drop_first()[j]) + colons(),
        ) by {
            assert(crates.drop_first()[j] == crates[j + 1]);
        }
        lemma_paths_absent(line, crates.drop_first());
    }
}

proof fn lemma_paths_absent_from(line: Seq<char>, crates: Seq<Seq<char>>, k: int)
    requires
        0 <= k <= crates.len(),
        forall|j: int|
            0 <= j < k ==> !crate::text::contains_seq(line, #[trigger] underscored(crates[j]) + colons()),
    ensures
        crate_paths_removed(line, crates) == crate_paths_removed(line, crates.skip(k)),
    decreases k,
{
    if k == 0 {
        assert(crates.skip(0) =~= crates);
    } else {
        crate::text::lemma_replace_absent(line, underscored(crates[0]) + colons(), seq![]);
        let c1 = crates.drop_first();
        assert forall|j: int| 0 <= j < k - 1 implies !crate::text::contains_seq(
            line,
            #[trigger] underscored(c1[j]) + colons(),
        ) by {
            assert(c1[j] == crates[j + 1]);
        }
        lemma_paths_absent_from(line, c1, k - 1);
        assert(c1.skip(k - 1) =~= crates.skip(k));
    }
}

/// An indented `use crate::...` line, trimmed, is its text from the `use`
/// on, up to its last non-whitespace character.
pub proof fn lemma_use_crate_line_is_use(w: Seq<char>, rest: Seq<char>)
    requires
        forall|j: int| 0 <= j < w.len() ==> crate::text::is_ws(#[trigger] w[j]),
    ensures
        starts_with(trim(w + use_crate() + rest), use_kw()),
        10 < trim(w + use_crate() + rest).len() <= (use_crate() + rest).len(),
        trim(w + use_crate() + rest) == (use_crate() + rest).take(trim(w + use_crate() + rest).len() as int),
{
    let line = w + use_crate() + rest;
    let x = use_crate() + rest;
    assert(line =~= w + x);
    assert(x[0] == 'u');
    crate::text::lemma_trim_start_ws_prefix(w, x);
    assert(x[10] == ':');
    crate::text::lemma_trim_end_keeps(x, 10);
    crate::text::lemma_trim_end_shape(x);
    let te = crate::text::trim_end(x);
    assert(trim(line) == te);
    assert(use_crate().take(4) =~= use_kw());
    assert forall|j: int| 0 <= j < 4 implies te[j] == use_kw()[j] by {
        assert(te[j] == x.take(te.len() as int)[j]);
        assert(use_crate()[j] == use_crate().take(4)[j]);
    }
    assert(te.take(4) =~= use_kw());
}

/// A `use crate::...` line that names no local crate, at a depth of one or
/// more below the crate root, comes out as `use super::...::` with one
/// `super` for each level, its indent and the rest of its path kept.
pub proof fn law_use_crate_line_gets_supers(w: Seq<char>, rest: Seq<char>, crates: Seq<Seq<char>>, depth: nat)
    requires
        depth >= 1,
        forall|j: int| 0 <= j < w.len() ==> crate::text::is_ws(#[trigger] w[j]),
        !crate::text::contains_seq(rest, use_crate()),
        forall|k: int|
            0 <= k < crates.len() ==> !starts_with(
                trim(w + use_crate() + rest).skip(4),
                #[trigger] underscored(crates[k]) + colons(),
            ) && trim(w + use_crate() + rest).skip(4) != underscored(crates[k]) + seq![';'],
    ensures
        self_refs_rewritten(rewritten_line(w + use_crate() + rest, crates), depth) == w + use_kw()
            + super_chain(depth) + colons() + rest,
{
    let line = w + use_crate() + rest;
    lemma_use_crate_line_is_use(w, rest);
    if crates.len() > 0 {
        lemma_use_line_from(line, crates, crates.len() - 1);
        let last = crates.skip(crates.len() - 1);
        assert(last[0] == crates[crates.len() - 1]);
        assert(last.drop_first().len() == 0);
        let after = trim(line).skip(4);
        assert(!starts_with(after, underscored(last[0]) + colons()));
        assert(after != underscored(last[0]) + seq![';']);
        assert(use_line_rewritten(line, last) == use_line_rewritten(line, last.drop_first()));
    }
    assert(rewritten_line(line, crates) == line);
    let pat = use_crate();
    let rep = use_kw() + super_chain(depth) + colons();
    let n = w.len() as int;
    assert(line.subrange(n, n + 11) =~= pat);
    assert forall|q: int| 0 <= q < n implies !#[trigger] crate::text::occurs_at(line, pat, q) by {
        if crate::text::occurs_at(line, pat, q) {
            assert(line.subrange(q, q + 11)[0] == line[q]);
            assert(line[q] == w[q]);
        }
    }
    crate::text::lemma_replace_first(line, pat, rep, n);
    assert(line.take(n) =~= w);
    assert(line.skip(n + 11) =~= rest);
    crate::text::lemma_replace_absent(rest, pat, rep);
    assert(w + rep + rest =~= w + use_kw() + super_chain(depth) + colons() + rest);
}

proof fn lemma_use_line_from(line: Seq<char>, crates: Seq<Seq<char>>, k: int)
    requires
        0 <= k < crates.len(),
        forall|j: int|
            0 <= j < k ==> !starts_with(trim(line).skip(4), #[trigger] underscored(crates[j]) + colons())
                && trim(line).skip(4) != underscored(crates[j]) + seq![';'],
    ensures
        use_line_rewritten(line, crates) == use_line_rewritten(line, crates.skip(k)),
    decreases k,
{
    if k == 0 {
        assert(crates.skip(0) =~= crates);
    } else {
        let c1 = crates.drop_first();
        assert(!starts_with(trim(line).skip(4), underscored(crates[0]) + colons()));
        assert(trim(line).skip(4) != underscored(crates[0]) + seq![';']);
        assert forall|j: int|
            0 <= j < k - 1 implies !starts_with(trim(line).skip(4), #[trigger] underscored(c1[j]) + colons())
                && trim(line).skip(4) != underscored(c1[j]) + seq![';'] by {
            assert(c1[j] == crates[j + 1]);
            assert(!starts_with(trim(line).skip(4), underscored(crates[j + 1]) + colons()));
        }
        lemma_use_line_from(line, c1, k - 1);
        assert(c1.skip(k - 1) =~= crates.skip(k));
    }
}

// ---------------------------------------------------------------------
// Executable code
// ---------------------------------------------------------------------

/// The characters of `name` with each `-` made `_`.
pub fn underscore_chars(name: &Vec<char>) -> (r: Vec<char>)
    ensures
        r@ == underscored(name@),
{
    let mut r: Vec<char> = Vec::new();
    let mut i: usize = 0;
    while i < name.len()
        invariant
            i <= name@.len(),
            r@ == underscored(name@.take(i as int)),
        decreases name@.len() - i,
    {
        let c = name[i];
        r.push(if c == '-' { '_' } else { c });
        assert(underscored(name@.take(i + 1)) =~= underscored(name@.take(i as int)).push(
            if c == '-' { '_' } else { c },
        ));
        i += 1;
    }
    assert(name@.take(name@.len() as int) =~= name@);
    r
}

/// The characters of each of the strings.
pub fn chars_of_all(v: &Vec<String>) -> (r: Vec<Vec<char>>)
    ensures
        views(r@) == texts(v@),
{
    let mut r: Vec<Vec<char>> = Vec::new();
    let mut i: usize = 0;
    while i < v.len()
        invariant
            i <= v@.len(),
            views(r@) == texts(v@.take(i as int)),
        decreases v@.len() - i,
    {
        let c = chars_of(v[i].as_str());
        proof {
            assert(views(r@.push(c)) =~= views(r@).push(c@));
            assert(texts(v@.take(i + 1)) =~= texts(v@.take(i as int)).push(v@[i as int]@));
        }
        r.push(c);
        i += 1;
    }
    assert(v@.take(v@.len() as int) =~= v@);
    r
}

/// A copy of a text.
pub fn copy_chars(v: &Vec<char>) -> (r: Vec<char>)
    ensures
        r@ == v@,
{
    let r = slice_vec(v, 0, v.len());
    assert(v@.subrange(0, v@.len() as int) =~= v@);
    r
}

/// The leading whitespace of a line and the line trimmed at both ends.
fn split_indent(line: &Vec<char>) -> (r: (Vec<char>, Vec<char>))
    ensures
        r.0@ == leading_ws(line@),
        r.1@ == trim(line@),
{
    let n = line.len();
    let k = trim_start_index(line, 0, n);
    let m = trim_end_index(line, k, n);
    assert(line@.subrange(0, n as int) =~= line@);
    (slice_vec(line, 0, k), slice_vec(line, k, m))
}

/// `use crate_name::Item` becomes `use crate::crate_name::Item`.
fn rewrite_use_line(line: &Vec<char>, crates: &Vec<Vec<char>>) -> (r: Vec<char>)
    requires
        starts_with(trim(line@), use_kw()),
    ensures
        r@ == use_line_rewritten(line@, views(crates@)),
{
    let (indent, trimmed) = split_indent(line);
    let after = slice_vec(&trimmed, 4, trimmed.len());
    let colons_v: Vec<char> = vec![':', ':'];
    let mut i: usize = 0;
    while i < crates.len()
        invariant
            i <= crates@.len(),
            indent@ == leading_ws(line@),
            after@ == trim(line@).skip(4),
            colons_v@ == colons(),
            use_line_rewritten(line@, views(crates@)) == use_line_rewritten(
                line@,
                views(crates@).skip(i as int),
            ),
        decreases crates@.len() - i,
    {
        let mut prefix = underscore_chars(&crates[i]);
        append_chars(&mut prefix, &colons_v);
        let mut bare = underscore_chars(&crates[i]);
        bare.push(';');
        let ghost u = underscored(crates@[i as int]@);
        assert(bare@ =~= u + seq![';']);
        assert(prefix@ =~= u + colons());
        assert(views(crates@).skip(i as int).drop_first() =~= views(crates@).skip(i + 1));
        assert(views(crates@).skip(i as int)[0] == crates@[i as int]@);
        if has_prefix(&after, &prefix) {
            let mut r = copy_chars(&indent);
            append_chars(&mut r, &vec!['u', 's', 'e', ' ', 'c', 'r', 'a', 't', 'e', ':', ':']);
            append_chars(&mut r, &prefix);
            append_chars(&mut r, &slice_vec(&after, prefix.len(), after.len()));
            return r;
        }
        if chars_eq(&after, &bare) {
            let mut r = copy_chars(&indent);
            append_chars(&mut r, &vec!['u', 's', 'e', ' ', 'c', 'r', 'a', 't', 'e', ':', ':']);
            append_chars(&mut r, &bare);
            return r;
        }
        i += 1;
    }
    assert(views(crates@).skip(crates@.len() as int) =~= Seq::<Seq<char>>::empty());
    copy_chars(line)
}

/// `crate_name::macro_name!(...)` becomes `macro_name!(...)`.
fn rewrite_macro_invocation(line: &Vec<char>, crates: &Vec<Vec<char>>) -> (r: Vec<char>)
    ensures
        r@ == crate_paths_removed(line@, views(crates@)),
{
    let mut result = copy_chars(line);
    let colons_v: Vec<char> = vec![':', ':'];
    let empty: Vec<char> = Vec::new();
    let mut i: usize = 0;
    while i < crates.len()
        invariant
            i <= crates@.len(),
            colons_v@ == colons(),
            empty@ == Seq::<char>::empty(),
            crate_paths_removed(line@, views(crates@)) == crate_paths_removed(
                result@,
                views(crates@).skip(i as int),
            ),
        decreases crates@.len() - i,
    {
        let mut prefix = underscore_chars(&crates[i]);
        append_chars(&mut prefix, &colons_v);
        assert(views(crates@).skip(i as int).drop_first() =~= views(crates@).skip(i + 1));
        assert(views(crates@).skip(i as int)[0] == crates@[i as int]@);
        result = replace_chars(&result, &prefix, &empty);
        i += 1;
    }
    assert(views(crates@).skip(crates@.len() as int) =~= Seq::<Seq<char>>::empty());
    result
}

/// One line of a source rewritten.
pub fn rewrite_line_chars(line: &Vec<char>, crates: &Vec<Vec<char>>) -> (r: Vec<char>)
    ensures
        r@ == rewritten_line(line@, views(crates@)),
{
    let (_indent, trimmed) = split_indent(line);
    if has_prefix(&trimmed, &vec!['u', 's', 'e', ' ']) {
        rewrite_use_line(line, crates)
    } else {
        rewrite_macro_invocation(line, crates)
    }
}

/// Rewrites a single line: a `use` of a local crate is made to go through
/// `crate::`, and any other line loses the `name::` of each local crate.
pub fn rewrite_line(line: &str, local_crates: &Vec<String>) -> (r: String)
    ensures
        r@ == rewritten_line(line@, texts(local_crates@)),
{
    let crates = chars_of_all(local_crates);
    string_of(&rewrite_line_chars(&chars_of(line), &crates))
}

/// `super::super::...::super`, `depth` times.
fn super_chain_chars(depth: usize) -> (r: Vec<char>)
    ensures
        r@ == super_chain(depth as nat),
{
    let mut pieces: Vec<Vec<char>> = Vec::new();
    let mut i: usize = 0;
    while i < depth
        invariant
            i <= depth,
            views(pieces@) == Seq::new(i as nat, |_i: int| super_kw()),
        decreases depth - i,
    {
        let piece: Vec<char> = vec!['s', 'u', 'p', 'e', 'r'];
        assert(piece@ =~= super_kw());
        assert(Seq::new(i as nat, |_i: int| super_kw()).push(super_kw()) =~= Seq::new(
            (i + 1) as nat,
            |_i: int| super_kw(),
        ));
        pieces.push(piece);
        i += 1;
    }
    join_chars(&pieces, &vec![':', ':'])
}

/// `use crate::` becomes `use super::...::` (with `depth` times `super`).
pub fn rewrite_crate_self_refs_chars(line: &Vec<char>, depth: usize) -> (r: Vec<char>)
    ensures
        r@ == self_refs_rewritten(line@, depth as nat),
{
    let mut to: Vec<char> = vec!['u', 's', 'e', ' '];
    append_chars(&mut to, &super_chain_chars(depth));
    append_chars(&mut to, &vec![':', ':']);
    replace_chars(line, &vec!['u', 's', 'e', ' ', 'c', 'r', 'a', 't', 'e', ':', ':'], &to)
}

/// Rewrites `use crate::X` to `use super::...::X` for a module inlined
/// `depth` levels below the crate root.
pub fn rewrite_crate_self_refs(line: &str, depth: usize) -> (r: String)
    ensures
        r@ == self_refs_rewritten(line@, depth as nat),
{
    string_of(&rewrite_crate_self_refs_chars(&chars_of(line), depth))
}

/// Rewrites every line of a source text; a final newline is kept.
pub fn rewrite_source_chars(source: &Vec<char>, crates: &Vec<Vec<char>>) -> (r: Vec<char>)
    ensures
        r@ == rewritten_source(source@, views(crates@)),
{
    let ls = lines_of(source);
    let mut out: Vec<Vec<char>> = Vec::new();
    let mut i: usize = 0;
    while i < ls.len()
        invariant
            i <= ls@.len(),
            views(out@) == views(ls@).take(i as int).map_values(
                |l: Seq<char>| rewritten_line(l, views(crates@)),
            ),
        decreases ls@.len() - i,
    {
        let nl = rewrite_line_chars(&ls[i], crates);
        assert(views(ls@).take(i + 1) =~= views(ls@).take(i as int).push(ls@[i as int]@));
        assert(views(ls@).take(i as int).push(ls@[i as int]@).map_values(
            |l: Seq<char>| rewritten_line(l, views(crates@)),
        ) =~= views(ls@).take(i as int).map_values(
            |l: Seq<char>| rewritten_line(l, views(crates@)),
        ).push(nl@));
        out.push(nl);
        i += 1;
    }
    assert(views(ls@).take(ls@.len() as int) =~= views(ls@));
    assert(views(out@) == lines(source@).map_values(
        |l: Seq<char>| rewritten_line(l, views(crates@)),
    ));
    let nlv: Vec<char> = vec!['\n'];
    assert(nlv@ =~= seq!['\n']);
    let mut result = join_chars(&out, &nlv);
    let ghost joined = result@;
    if source.len() > 0 && source[source.len() - 1] == '\n' {
        result.push('\n');
        assert(result@ =~= joined + final_newline(source@));
    } else {
        assert(result@ =~= joined + final_newline(source@));
    }
    result
}

/// Rewrites the `use` paths and macro invocations of a source text
/// (the program's `main.rs`).
pub fn rewrite_source(source: &str, local_crates: &Vec<String>) -> (r: String)
    ensures
        r@ == rewritten_source(source@, texts(local_crates@)),
{
    let crates = chars_of_all(local_crates);
    string_of(&rewrite_source_chars(&chars_of(source), &crates))
}

} // verus!
