//! The bundled file: the program with its paths rewritten, then, after a
//! separator, one `pub mod` per local crate holding its expanded
//! `lib.rs`; `#[cfg(test)]` items are removed from the whole.

use vstd::prelude::*;

use crate::expand::{depth_fits, expand_chars, expanded, SourceFile};
use crate::path::{chars_of_all, rewrite_source_chars, rewritten_source, texts, underscore_chars};
use crate::strip::{cfg_test_removed, remove_cfg_test_chars};
use crate::text::{append_chars, chars_of, ends_with, string_of, underscored, views};

verus! {

/// A crate to bundle: its name, the text of its `lib.rs`, its source
/// directory, and the files under that directory.
pub struct BundledCrate {
    pub name: String,
    pub lib_source: String,
    pub src_dir: String,
    pub files: Vec<SourceFile>,
}

// ---------------------------------------------------------------------
// Specification
// ---------------------------------------------------------------------

/// `// --- bundled ---` and a blank line.
pub open spec fn separator() -> Seq<char> {
    seq![
        '/', '/', ' ', '-', '-', '-', ' ', 'b', 'u', 'n', 'd', 'l', 'e', 'd', ' ', '-', '-', '-',
        '\n', '\n',
    ]
}

/// The text made to end in a blank line (a newline is added where the
/// text does not end in two).
pub open spec fn blank_line_after(t: Seq<char>) -> Seq<char> {
    if ends_with(t, seq!['\n', '\n']) {
        t
    } else if ends_with(t, seq!['\n']) {
        t + seq!['\n']
    } else {
        t + seq!['\n', '\n']
    }
}

/// `pub mod name {` (with `-` written `_`), the crate's expanded `lib.rs`
/// at four spaces of indent, `}` and a blank line.
pub open spec fn crate_module(c: BundledCrate, crates: Seq<Seq<char>>, rc: bool) -> Seq<char> {
    seq!['p', 'u', 'b', ' ', 'm', 'o', 'd', ' '] + underscored(c.name@) + seq![' ', '{', '\n']
        + expanded(c.lib_source@, c.src_dir@, c.files@, crates, seq![' ', ' ', ' ', ' '], 0, rc)
        + seq!['}', '\n', '\n']
}

/// The modules of the crates, one after the other.
pub open spec fn crate_modules(cs: Seq<BundledCrate>, crates: Seq<Seq<char>>, rc: bool) -> Seq<char>
    decreases cs.len(),
{
    if cs.len() == 0 {
        seq![]
    } else {
        crate_modules(cs.drop_last(), crates, rc) + crate_module(cs.last(), crates, rc)
    }
}

/// The bundle before `#[cfg(test)]` items are removed: the program's
/// source with the paths of `crates` rewritten and, when there are crates
/// to bundle, a blank line, the separator and their modules.
pub open spec fn assembled(main: Seq<char>, crates: Seq<Seq<char>>, cs: Seq<BundledCrate>, rc: bool) -> Seq<
    char,
> {
    let m = rewritten_source(main, crates);
    if cs.len() == 0 {
        m
    } else {
        blank_line_after(m) + separator() + crate_modules(cs, crates, rc)
    }
}

/// Every crate's expansion keeps its module depths within `usize`.
pub open spec fn all_fit(cs: Seq<BundledCrate>) -> bool {
    forall|i: int|
        0 <= i < cs.len() ==> depth_fits(
            (#[trigger] cs[i]).lib_source@.len(),
            cs[i].src_dir@,
            cs[i].files@,
            0,
        )
}

/// The bundle is the program with its paths rewritten; with crates to
/// bundle, then at most two newlines so that the program ends in a blank
/// line, the separator line and a blank line, and the crates' modules.
pub proof fn law_bundle_layout(main: Seq<char>, crates: Seq<Seq<char>>, cs: Seq<BundledCrate>, rc: bool)
    ensures
        cs.len() == 0 ==> assembled(main, crates, cs, rc) == rewritten_source(main, crates),
        cs.len() > 0 ==> ({
            let a = assembled(main, crates, cs, rc);
            let m = rewritten_source(main, crates);
            let mods = crate_modules(cs, crates, rc);
            let p = a.len() - mods.len() - separator().len();
            &&& m.len() <= p <= m.len() + 2
            &&& a.take(m.len() as int) == m
            &&& a.subrange(m.len() as int, p) == Seq::new((p - m.len()) as nat, |_j: int| '\n')
            &&& ends_with(a.take(p), seq!['\n', '\n'])
            &&& a.subrange(p, p + separator().len()) == separator()
            &&& a.skip(p + separator().len()) == mods
        }),
{
    if cs.len() > 0 {
        let a = assembled(main, crates, cs, rc);
        let m = rewritten_source(main, crates);
        let mods = crate_modules(cs, crates, rc);
        let b = blank_line_after(m);
        let p = b.len() as int;
        assert(a == b + separator() + mods);
        assert(a.take(p) =~= b);
        assert(a.subrange(p, p + separator().len()) =~= separator());
        assert(a.skip(p + separator().len()) =~= mods);
        assert(a.take(m.len() as int) =~= m);
        let nl = Seq::new((p - m.len()) as nat, |_j: int| '\n');
        if ends_with(m, seq!['\n', '\n']) {
            assert(b.subrange(m.len() as int, p) =~= nl);
        } else if ends_with(m, seq!['\n']) {
            assert(b.subrange(m.len() as int, p) =~= nl);
            assert(b.skip(b.len() - 2) =~= seq!['\n', '\n']) by {
                assert(b[b.len() - 2] == m.skip(m.len() - 1)[0]);
            }
        } else {
            assert(b.subrange(m.len() as int, p) =~= nl);
            assert(b.skip(b.len() - 2) =~= seq!['\n', '\n']);
        }
        assert(a.subrange(m.len() as int, p) =~= b.subrange(m.len() as int, p));
    }
}

/// The modules of two lists of crates, one after the other, are the
/// modules of the first list followed by those of the second: each crate's
/// module stands in the order of the list.
pub proof fn law_crate_modules_in_order(
    cs: Seq<BundledCrate>,
    ds: Seq<BundledCrate>,
    crates: Seq<Seq<char>>,
    rc: bool,
)
    ensures
        crate_modules(cs + ds, crates, rc) == crate_modules(cs, crates, rc) + crate_modules(ds, crates, rc),
    decreases ds.len(),
{
    if ds.len() == 0 {
        assert(cs + ds =~= cs);
        assert(crate_modules(cs, crates, rc) + Seq::<char>::empty() =~= crate_modules(cs, crates, rc));
    } else {
        law_crate_modules_in_order(cs, ds.drop_last(), crates, rc);
        assert((cs + ds).drop_last() =~= cs + ds.drop_last());
        assert((cs + ds).last() == ds.last());
        assert(crate_modules(cs + ds, crates, rc) =~= crate_modules(cs, crates, rc) + crate_modules(
            ds,
            crates,
            rc,
        ));
    }
}

/// One crate's module is `pub mod name {` (with `-` written `_`), its
/// expanded `lib.rs`, `}` and a blank line.
pub proof fn law_single_crate_module(c: BundledCrate, crates: Seq<Seq<char>>, rc: bool)
    ensures
        crate_modules(seq![c], crates, rc) == seq!['p', 'u', 'b', ' ', 'm', 'o', 'd', ' '] + underscored(
            c.name@,
        ) + seq![' ', '{', '\n'] + expanded(
            c.lib_source@,
            c.src_dir@,
            c.files@,
            crates,
            seq![' ', ' ', ' ', ' '],
            0,
            rc,
        ) + seq!['}', '\n', '\n'],
{
    assert(seq![c].drop_last() =~= Seq::<BundledCrate>::empty());
    assert(crate_modules(Seq::<BundledCrate>::empty(), crates, rc) + crate_module(c, crates, rc)
        =~= crate_module(c, crates, rc));
}

/// The module of the crate at place `i` of the list stands after the
/// modules of all the crates before it and before those of all the crates
/// after it.
pub proof fn law_crate_module_at_its_place(cs: Seq<BundledCrate>, i: int, crates: Seq<Seq<char>>, rc: bool)
    requires
        0 <= i < cs.len(),
    ensures
        crate_modules(cs, crates, rc) == crate_modules(cs.take(i), crates, rc) + crate_module(cs[i], crates, rc)
            + crate_modules(cs.skip(i + 1), crates, rc),
{
    assert(cs =~= cs.take(i) + (seq![cs[i]] + cs.skip(i + 1)));
    law_crate_modules_in_order(cs.take(i), seq![cs[i]] + cs.skip(i + 1), crates, rc);
    law_crate_modules_in_order(seq![cs[i]], cs.skip(i + 1), crates, rc);
    law_single_crate_module(cs[i], crates, rc);
    assert(crate_modules(seq![cs[i]], crates, rc) == crate_module(cs[i], crates, rc));
    assert(crate_modules(cs.take(i), crates, rc) + (crate_module(cs[i], crates, rc) + crate_modules(
        cs.skip(i + 1),
        crates,
        rc,
    )) =~= crate_modules(cs.take(i), crates, rc) + crate_module(cs[i], crates, rc) + crate_modules(
        cs.skip(i + 1),
        crates,
        rc,
    ));
}

/// Bundling one crate more appends its module at the end, after those of
/// the crates before it.
pub proof fn law_bundle_appends_crate(
    main: Seq<char>,
    crates: Seq<Seq<char>>,
    cs: Seq<BundledCrate>,
    c: BundledCrate,
    rc: bool,
)
    requires
        cs.len() > 0,
    ensures
        assembled(main, crates, cs.push(c), rc) == assembled(main, crates, cs, rc) + crate_modules(
            seq![c],
            crates,
            rc,
        ),
{
    assert(cs.push(c) =~= cs + seq![c]);
    law_crate_modules_in_order(cs, seq![c], crates, rc);
}

// ---------------------------------------------------------------------
// Executable code
// ---------------------------------------------------------------------

/// Bundles a program (`main_source`) with its local crates `cs`, in the
/// order given; `local_crates` are the names whose paths are rewritten.
/// `#[cfg(test)]` items are removed from the result and, with
/// `remove_comments`, comments from the crates' sources. `None` when a
/// crate's module depths would not fit in `usize` or the bundle is longer
/// than `i64::MAX` characters.
pub fn bundle_text(
    main_source: &str,
    local_crates: &Vec<String>,
    cs: &Vec<BundledCrate>,
    remove_comments: bool,
) -> (r: Option<String>)
    ensures
        r is Some <==> all_fit(cs@) && assembled(
            main_source@,
            texts(local_crates@),
            cs@,
            remove_comments,
        ).len() <= i64::MAX,
        r matches Some(s) ==> s@ == cfg_test_removed(
            assembled(main_source@, texts(local_crates@), cs@, remove_comments),
        ),
{
    let ghost crates_v = texts(local_crates@);
    let crates = chars_of_all(local_crates);
    let mut out = rewrite_source_chars(&chars_of(main_source), &crates);
    let ghost m = out@;
    if cs.len() > 0 {
        let two: Vec<char> = vec!['\n', '\n'];
        let one: Vec<char> = vec!['\n'];
        let ends_two = out.len() >= 2 && out[out.len() - 2] == '\n' && out[out.len() - 1] == '\n';
        let ends_one = out.len() >= 1 && out[out.len() - 1] == '\n';
        proof {
            assert(two@ =~= seq!['\n', '\n']);
            assert(one@ =~= seq!['\n']);
            assert(ends_two == ends_with(m, two@)) by {
                if m.len() >= 2 {
                    assert(m.skip(m.len() - 2) =~= seq![m[m.len() - 2], m[m.len() - 1]]);
                }
            }
            assert(ends_one == ends_with(m, one@)) by {
                if m.len() >= 1 {
                    assert(m.skip(m.len() - 1) =~= seq![m[m.len() - 1]]);
                }
            }
            assert(two@ =~= seq!['\n', '\n']);
            assert(one@ =~= seq!['\n']);
        }
        if !ends_two {
            if !ends_one {
                out.push('\n');
            }
            out.push('\n');
        }
        assert(out@ =~= blank_line_after(m));
        let sep: Vec<char> = vec![
            '/', '/', ' ', '-', '-', '-', ' ', 'b', 'u', 'n', 'd', 'l', 'e', 'd', ' ', '-', '-', '-',
            '\n', '\n',
        ];
        assert(sep@ =~= separator());
        append_chars(&mut out, &sep);
    }
    let ghost head = out@;
    assert(cs@.take(0) =~= Seq::<BundledCrate>::empty());
    let open_kw: Vec<char> = vec!['p', 'u', 'b', ' ', 'm', 'o', 'd', ' '];
    let open_brace: Vec<char> = vec![' ', '{', '\n'];
    let close: Vec<char> = vec!['}', '\n', '\n'];
    let indent: Vec<char> = vec![' ', ' ', ' ', ' '];
    let mut i: usize = 0;
    while i < cs.len()
        invariant
            i <= cs@.len(),
            views(crates@) == crates_v,
            crates_v == texts(local_crates@),
            open_kw@ == seq!['p', 'u', 'b', ' ', 'm', 'o', 'd', ' '],
            open_brace@ == seq![' ', '{', '\n'],
            close@ == seq!['}', '\n', '\n'],
            indent@ == seq![' ', ' ', ' ', ' '],
            out@ == head + crate_modules(cs@.take(i as int), crates_v, remove_comments),
            all_fit(cs@.take(i as int)),
        decreases cs@.len() - i,
    {
        let c = &cs[i];
        let fits = crate::expand::expansion_fits(c.lib_source.as_str(), c.src_dir.as_str(), &c.files, 0);
        if !fits {
            proof {
                assert(!all_fit(cs@)) by {
                    assert(cs@[i as int] == *c);
                }
            }
            return None;
        }
        let ghost before = out@;
        append_chars(&mut out, &open_kw);
        append_chars(&mut out, &underscore_chars(&chars_of(c.name.as_str())));
        append_chars(&mut out, &open_brace);
        let e = expand_chars(
            &chars_of(c.lib_source.as_str()),
            &chars_of(c.src_dir.as_str()),
            &c.files,
            &crates,
            &indent,
            0,
            remove_comments,
        );
        append_chars(&mut out, &e);
        append_chars(&mut out, &close);
        proof {
            assert(cs@.take(i + 1).drop_last() =~= cs@.take(i as int));
            assert(cs@.take(i + 1).last() == *c);
            assert(out@ =~= before + crate_module(*c, crates_v, remove_comments));
            assert forall|j: int| 0 <= j < cs@.take(i + 1).len() implies depth_fits(
                (#[trigger] cs@.take(i + 1)[j]).lib_source@.len(),
                cs@.take(i + 1)[j].src_dir@,
                cs@.take(i + 1)[j].files@,
                0,
            ) by {
                if j < i {
                    assert(cs@.take(i + 1)[j] == cs@.take(i as int)[j]);
                }
            }
        }
        i += 1;
    }
    assert(cs@.take(cs@.len() as int) =~= cs@);
    assert(out@ =~= assembled(main_source@, crates_v, cs@, remove_comments));
    if out.len() as u64 > i64::MAX as u64 {
        return None;
    }
    let r = remove_cfg_test_chars(&out);
    Some(string_of(&r))
}

} // verus!
