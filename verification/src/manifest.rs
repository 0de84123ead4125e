//! The `[dependencies]` of a `Cargo.toml`: which are local (a `path`
//! key) and which come from a registry.

use vstd::prelude::*;

use toml::Value;

verus! {

// ---------------------------------------------------------------------
// TOML values as plain data
// ---------------------------------------------------------------------

/// A TOML value, as the `toml` crate parses it; a float and a datetime
/// are held as the text that `Display` gives them.
#[derive(Debug, PartialEq)]
pub enum TomlValue {
    String(String),
    Integer(i64),
    Float(String),
    Boolean(bool),
    Datetime(String),
    Array(Vec<TomlValue>),
    Table(Vec<(String, TomlValue)>),
}

/// The mathematical model of a TOML value.
pub enum TomlView {
    String(Seq<char>),
    Integer(int),
    Float(Seq<char>),
    Boolean(bool),
    Datetime(Seq<char>),
    Array(Seq<TomlView>),
    Table(Seq<(Seq<char>, TomlView)>),
}

/// The model of a TOML value.
pub open spec fn toml_view(v: TomlValue) -> TomlView
    decreases v,
{
    match v {
        TomlValue::String(s) => TomlView::String(s@),
        TomlValue::Integer(i) => TomlView::Integer(i as int),
        TomlValue::Float(s) => TomlView::Float(s@),
        TomlValue::Boolean(b) => TomlView::Boolean(b),
        TomlValue::Datetime(s) => TomlView::Datetime(s@),
        TomlValue::Array(a) => TomlView::Array(
            Seq::new(
                a@.len(),
                |i: int|
                    if 0 <= i < a@.len() {
                        toml_view(a@[i])
                    } else {
                        TomlView::Boolean(false)
                    },
            ),
        ),
        TomlValue::Table(t) => TomlView::Table(
            Seq::new(
                t@.len(),
                |i: int|
                    if 0 <= i < t@.len() {
                        (t@[i].0@, toml_view(t@[i].1))
                    } else {
                        (seq![], TomlView::Boolean(false))
                    },
            ),
        ),
    }
}

/// The value of the first entry with key `k`.
pub open spec fn table_get(t: Seq<(Seq<char>, TomlView)>, k: Seq<char>) -> Option<TomlView>
    decreases t.len(),
{
    if t.len() == 0 {
        None
    } else if t[0].0 == k {
        Some(t[0].1)
    } else {
        table_get(t.drop_first(), k)
    }
}

/// The value under key `k` of a table; `None` for a value of another kind.
pub open spec fn value_get(v: TomlView, k: Seq<char>) -> Option<TomlView> {
    match v {
        TomlView::Table(t) => table_get(t, k),
        _ => None,
    }
}

/// `dependencies`.
pub open spec fn dependencies_key() -> Seq<char> {
    seq!['d', 'e', 'p', 'e', 'n', 'd', 'e', 'n', 'c', 'i', 'e', 's']
}

/// `path`.
pub open spec fn path_key() -> Seq<char> {
    seq!['p', 'a', 't', 'h']
}

/// The entries of the document's `[dependencies]` table (none when it has
/// no such table).
pub open spec fn dependency_entries(doc: TomlView) -> Seq<(Seq<char>, TomlView)> {
    match value_get(doc, dependencies_key()) {
        Some(TomlView::Table(t)) => t,
        _ => seq![],
    }
}

/// The string under a dependency's `path` key.
pub open spec fn dep_path(v: TomlView) -> Option<Seq<char>> {
    match value_get(v, path_key()) {
        Some(TomlView::String(s)) => Some(s),
        _ => None,
    }
}

/// A dependency given as a table with a `path` key (of any kind).
pub open spec fn has_path_key(v: TomlView) -> bool {
    value_get(v, path_key()) is Some
}

/// The local dependencies of the entries: name and path of each entry
/// whose `path` is a string, in order.
pub open spec fn local_entries(es: Seq<(Seq<char>, TomlView)>) -> Seq<(Seq<char>, Seq<char>)>
    decreases es.len(),
{
    if es.len() == 0 {
        seq![]
    } else {
        let rest = local_entries(es.drop_last());
        match dep_path(es.last().1) {
            Some(p) => rest.push((es.last().0, p)),
            None => rest,
        }
    }
}

/// The entries without a `path` key, in order.
pub open spec fn external_entries(es: Seq<(Seq<char>, TomlView)>) -> Seq<(Seq<char>, TomlView)>
    decreases es.len(),
{
    if es.len() == 0 {
        seq![]
    } else {
        let rest = external_entries(es.drop_last());
        if has_path_key(es.last().1) {
            rest
        } else {
            rest.push(es.last())
        }
    }
}

// ---------------------------------------------------------------------
// The outside parser
// ---------------------------------------------------------------------

#[verifier::external_type_specification]
#[verifier::external_body]
pub struct ExTomlValue(toml::Value);

#[verifier::external_type_specification]
#[verifier::external_body]
pub struct ExTomlError(toml::de::Error);

/// What the `toml` crate parses a document into (`None` for a text that
/// is not valid TOML).
pub uninterp spec fn toml_parsed(content: Seq<char>) -> Option<TomlView>;

/// `toml::Value`, converted one variant for one into a `TomlValue`.
#[verifier::external_body]
fn plain_value(v: toml::Value) -> TomlValue {
    match v {
        toml::Value::String(s) => TomlValue::String(s),
        toml::Value::Integer(i) => TomlValue::Integer(i),
        toml::Value::Float(f) => TomlValue::Float(f.to_string()),
        toml::Value::Boolean(b) => TomlValue::Boolean(b),
        toml::Value::Datetime(d) => TomlValue::Datetime(d.to_string()),
        toml::Value::Array(a) => TomlValue::Array(a.into_iter().map(plain_value).collect()),
        toml::Value::Table(t) => TomlValue::Table(
            t.into_iter().map(|(k, x)| (k, plain_value(x))).collect(),
        ),
    }
}

/// `str::parse::<toml::Value>` (the `toml` crate's parser of a document).
/// The result is named `toml_parsed` of the text, and nothing is said of
/// it beyond that name.
#[verifier::external_body]
fn parse_toml(content: &str) -> (r: Result<TomlValue, toml::de::Error>)
    ensures
        r is Ok <==> toml_parsed(content@) is Some,
        r matches Ok(v) ==> toml_parsed(content@) == Some(toml_view(v)),
{
    content.parse::<toml::Value>().map(plain_value)
}

/// What `toml::to_string_pretty` prints for a value (`None` when it
/// reports an error, or when a float or datetime text of the value does
/// not parse back).
pub uninterp spec fn toml_printed(v: TomlView) -> Option<Seq<char>>;

/// A `TomlValue` as a `toml::Value`, one variant for one; `None` when the
/// text of a float or a datetime does not parse back.
#[verifier::external_body]
fn outside_value(v: &TomlValue) -> Option<Value> {
    Some(match v {
        TomlValue::String(s) => Value::String(s.clone()),
        TomlValue::Integer(i) => Value::Integer(*i),
        TomlValue::Float(s) => Value::Float(s.parse().ok()?),
        TomlValue::Boolean(b) => Value::Boolean(*b),
        TomlValue::Datetime(s) => Value::Datetime(s.parse().ok()?),
        TomlValue::Array(a) => Value::Array(a.iter().map(outside_value).collect::<Option<_>>()?),
        TomlValue::Table(t) => Value::Table(
            t.iter().map(|(k, x)| outside_value(x).map(|y| (k.clone(), y))).collect::<Option<_>>()?,
        ),
    })
}

/// `toml::to_string_pretty` of the value; the printed text is taken to be
/// `toml_printed` of the value's model, which is not stated here.
#[verifier::external_body]
fn print_toml(v: &TomlValue) -> (r: Option<String>)
    ensures
        r is Some <==> toml_printed(toml_view(*v)) is Some,
        r matches Some(s) ==> toml_printed(toml_view(*v)) == Some(s@),
{
    outside_value(v).and_then(|x| toml::to_string_pretty(&x).ok())
}

/// Why a manifest could not be read.
pub enum ManifestError {
    /// The text is not valid TOML.
    Toml(toml::de::Error),
    /// The document could not be printed as TOML.
    Unprintable,
}

// ---------------------------------------------------------------------
// Executable code
// ---------------------------------------------------------------------

/// The value of the first entry with key `k`.
fn get_entry<'a>(t: &'a Vec<(String, TomlValue)>, k: &Vec<char>) -> (r: Option<&'a TomlValue>)
    ensures
        match (r, table_get(toml_view(TomlValue::Table(*t))->Table_0, k@)) {
            (None, None) => true,
            (Some(v), Some(sv)) => toml_view(*v) == sv,
            _ => false,
        },
{
    let ghost tv = toml_view(TomlValue::Table(*t))->Table_0;
    assert(tv.skip(0) =~= tv);
    let mut i: usize = 0;
    while i < t.len()
        invariant
            i <= t@.len(),
            tv == toml_view(TomlValue::Table(*t))->Table_0,
            tv.len() == t@.len(),
            forall|j: int| 0 <= j < t@.len() ==> #[trigger] tv[j] == (t@[j].0@, toml_view(t@[j].1)),
            table_get(tv, k@) == table_get(tv.skip(i as int), k@),
        decreases t@.len() - i,
    {
        assert(tv.skip(i as int).drop_first() =~= tv.skip(i + 1));
        assert(tv.skip(i as int)[0] == tv[i as int]);
        if crate::text::chars_eq(&crate::text::chars_of(t[i].0.as_str()), k) {
            return Some(&t[i].1);
        }
        i += 1;
    }
    None
}

/// The value under key `k` of a table value.
fn value_get_exec<'a>(v: &'a TomlValue, k: &Vec<char>) -> (r: Option<&'a TomlValue>)
    ensures
        match (r, value_get(toml_view(*v), k@)) {
            (None, None) => true,
            (Some(x), Some(sx)) => toml_view(*x) == sx,
            _ => false,
        },
{
    match v {
        TomlValue::Table(t) => get_entry(t, k),
        _ => None,
    }
}

/// The entries of the document's `[dependencies]` table.
fn dependency_table(doc: &TomlValue) -> (r: Option<&Vec<(String, TomlValue)>>)
    ensures
        match r {
            None => dependency_entries(toml_view(*doc)) == Seq::<(Seq<char>, TomlView)>::empty(),
            Some(t) => dependency_entries(toml_view(*doc)) == toml_view(TomlValue::Table(*t))->Table_0,
        },
{
    let key: Vec<char> = vec!['d', 'e', 'p', 'e', 'n', 'd', 'e', 'n', 'c', 'i', 'e', 's'];
    assert(key@ =~= dependencies_key());
    match value_get_exec(doc, &key) {
        Some(TomlValue::Table(t)) => Some(t),
        _ => None,
    }
}

/// The local dependencies (name and `path` string of each) that a
/// manifest's `[dependencies]` table names, in the table's order; the
/// error of the parser when the text is not valid TOML.
pub fn local_dep_paths(content: &str) -> (r: Result<Vec<(String, String)>, ManifestError>)
    ensures
        r is Ok <==> toml_parsed(content@) is Some,
        r matches Ok(v) ==> v@.map_values(|e: (String, String)| (e.0@, e.1@)) == local_entries(
            dependency_entries(toml_parsed(content@)->0),
        ),
{
    match parse_toml(content) {
        Ok(d) => Ok(local_deps_of(&d)),
        Err(e) => Err(ManifestError::Toml(e)),
    }
}

/// The local dependencies (name and `path` string of each) that the
/// `[dependencies]` table of a parsed manifest names, in the table's order.
pub fn local_deps_of(doc: &TomlValue) -> (r: Vec<(String, String)>)
    ensures
        r@.map_values(|e: (String, String)| (e.0@, e.1@)) == local_entries(
            dependency_entries(toml_view(*doc)),
        ),
{
    let mut out: Vec<(String, String)> = Vec::new();
    let table = match dependency_table(doc) {
        Some(t) => t,
        None => {
            assert(out@.map_values(|e: (String, String)| (e.0@, e.1@)) =~= Seq::<(Seq<char>, Seq<char>)>::empty());
            return out;
        },
    };
    let ghost es = toml_view(TomlValue::Table(*table))->Table_0;
    let key: Vec<char> = vec!['p', 'a', 't', 'h'];
    assert(key@ =~= path_key());
    let mut i: usize = 0;
    while i < table.len()
        invariant
            i <= table@.len(),
            key@ == path_key(),
            es == toml_view(TomlValue::Table(*table))->Table_0,
            es.len() == table@.len(),
            forall|j: int| 0 <= j < table@.len() ==> #[trigger] es[j] == (table@[j].0@, toml_view(table@[j].1)),
            out@.map_values(|e: (String, String)| (e.0@, e.1@)) == local_entries(es.take(i as int)),
        decreases table@.len() - i,
    {
        let ghost before = out@;
        assert(es.take(i + 1).drop_last() =~= es.take(i as int));
        assert(es.take(i + 1).last() == es[i as int]);
        match value_get_exec(&table[i].1, &key) {
            Some(TomlValue::String(p)) => {
                out.push((table[i].0.clone(), p.clone()));
                assert(out@.map_values(|e: (String, String)| (e.0@, e.1@)) =~= before.map_values(
                    |e: (String, String)| (e.0@, e.1@),
                ).push((table@[i as int].0@, p@)));
            },
            _ => {},
        }
        i += 1;
    }
    assert(es.take(table@.len() as int) =~= es);
    out
}

/// The registry dependencies (entries without a `path` key) that a
/// manifest's `[dependencies]` table names, each with its value, in the
/// table's order; the error of the parser when the text is not valid TOML.
pub fn external_dep_entries(content: &str) -> (r: Result<Vec<(String, TomlValue)>, ManifestError>)
    ensures
        r is Ok <==> toml_parsed(content@) is Some,
        r matches Ok(v) ==> v@.map_values(|e: (String, TomlValue)| (e.0@, toml_view(e.1)))
            == external_entries(dependency_entries(toml_parsed(content@)->0)),
{
    match parse_toml(content) {
        Ok(d) => Ok(external_deps_of(&d)),
        Err(e) => Err(ManifestError::Toml(e)),
    }
}

/// The registry dependencies (entries without a `path` key) that the
/// `[dependencies]` table of a parsed manifest names, each with its value,
/// in the table's order.
pub fn external_deps_of(doc: &TomlValue) -> (r: Vec<(String, TomlValue)>)
    ensures
        r@.map_values(|e: (String, TomlValue)| (e.0@, toml_view(e.1))) == external_entries(
            dependency_entries(toml_view(*doc)),
        ),
{
    match dependency_table(doc) {
        Some(t) => external_of_table(t),
        None => {
            let out: Vec<(String, TomlValue)> = Vec::new();
            assert(out@.map_values(|e: (String, TomlValue)| (e.0@, toml_view(e.1))) =~= Seq::<(Seq<char>, TomlView)>::empty());
            out
        },
    }
}

/// The entries of a table without a `path` key, in order.
fn external_of_table(table: &Vec<(String, TomlValue)>) -> (r: Vec<(String, TomlValue)>)
    ensures
        r@.map_values(|e: (String, TomlValue)| (e.0@, toml_view(e.1))) == external_entries(
            toml_view(TomlValue::Table(*table))->Table_0,
        ),
{
    let mut out: Vec<(String, TomlValue)> = Vec::new();
    let ghost es = toml_view(TomlValue::Table(*table))->Table_0;
    let key: Vec<char> = vec!['p', 'a', 't', 'h'];
    assert(key@ =~= path_key());
    let mut i: usize = 0;
    assert(out@.map_values(|e: (String, TomlValue)| (e.0@, toml_view(e.1))) =~= external_entries(es.take(0)));
    while i < table.len()
        invariant
            i <= table@.len(),
            key@ == path_key(),
            es == toml_view(TomlValue::Table(*table))->Table_0,
            es.len() == table@.len(),
            forall|j: int| 0 <= j < table@.len() ==> #[trigger] es[j] == (table@[j].0@, toml_view(table@[j].1)),
            out@.map_values(|e: (String, TomlValue)| (e.0@, toml_view(e.1))) == external_entries(es.take(i as int)),
        decreases table@.len() - i,
    {
        let ghost before = out@;
        assert(es.take(i + 1).drop_last() =~= es.take(i as int));
        assert(es.take(i + 1).last() == es[i as int]);
        if value_get_exec(&table[i].1, &key).is_none() {
            let copy = copy_value(&table[i].1);
            out.push((table[i].0.clone(), copy));
            assert(out@.map_values(|e: (String, TomlValue)| (e.0@, toml_view(e.1))) =~= before.map_values(
                |e: (String, TomlValue)| (e.0@, toml_view(e.1)),
            ).push(es[i as int]));
        }
        i += 1;
    }
    assert(es.take(table@.len() as int) =~= es);
    out
}

/// A copy of a TOML value.
fn copy_value(v: &TomlValue) -> (r: TomlValue)
    ensures
        toml_view(r) == toml_view(*v),
    decreases *v,
{
    match v {
        TomlValue::String(s) => TomlValue::String(s.clone()),
        TomlValue::Integer(i) => TomlValue::Integer(*i),
        TomlValue::Float(s) => TomlValue::Float(s.clone()),
        TomlValue::Boolean(b) => TomlValue::Boolean(*b),
        TomlValue::Datetime(s) => TomlValue::Datetime(s.clone()),
        TomlValue::Array(a) => {
            let mut out: Vec<TomlValue> = Vec::new();
            let mut i: usize = 0;
            while i < a.len()
                invariant
                    i <= a@.len(),
                    *v == TomlValue::Array(*a),
                    out@.len() == i,
                    forall|j: int| 0 <= j < i ==> toml_view(#[trigger] out@[j]) == toml_view(a@[j]),
                decreases a@.len() - i,
            {
                proof {
                    assert(decreases_to!(*v => (*v)->Array_0));
                    assert(decreases_to!(*a => a@));
                    assert(decreases_to!(a@ => a@[i as int]));
                    assert(decreases_to!(*v => a@[i as int]));
                }
                out.push(copy_value(&a[i]));
                i += 1;
            }
            let r = TomlValue::Array(out);
            assert(toml_view(r)->Array_0 =~= toml_view(*v)->Array_0);
            r
        },
        TomlValue::Table(t) => {
            let mut out: Vec<(String, TomlValue)> = Vec::new();
            let mut i: usize = 0;
            while i < t.len()
                invariant
                    i <= t@.len(),
                    *v == TomlValue::Table(*t),
                    out@.len() == i,
                    forall|j: int| 0 <= j < i ==> (#[trigger] out@[j]).0@ == t@[j].0@ && toml_view(out@[j].1) == toml_view(t@[j].1),
                decreases t@.len() - i,
            {
                proof {
                    assert(decreases_to!(*v => (*v)->Table_0));
                    assert(decreases_to!(*t => t@));
                    assert(decreases_to!(t@ => t@[i as int]));
                    assert(decreases_to!(t@[i as int] => t@[i as int].1));
                    assert(decreases_to!(*v => t@[i as int].1));
                }
                out.push((t[i].0.clone(), copy_value(&t[i].1)));
                i += 1;
            }
            let r = TomlValue::Table(out);
            assert(toml_view(r)->Table_0 =~= toml_view(*v)->Table_0);
            r
        },
    }
}


// ---------------------------------------------------------------------
// Merging the registry dependencies of bundled crates
// ---------------------------------------------------------------------

/// The models of (name, value) entries.
pub open spec fn entry_views(v: Seq<(String, TomlValue)>) -> Seq<(Seq<char>, TomlView)> {
    v.map_values(|e: (String, TomlValue)| (e.0@, toml_view(e.1)))
}

/// The entries of several manifests, one manifest after another.
pub open spec fn all_entries(libs: Seq<Vec<(String, TomlValue)>>) -> Seq<(Seq<char>, TomlView)>
    decreases libs.len(),
{
    if libs.len() == 0 {
        seq![]
    } else {
        all_entries(libs.drop_last()) + entry_views(libs.last()@)
    }
}

/// The entries that a first-seen merge adds to a table whose names are
/// `own`: the first entry of each name that `own` lacks, in order.
pub open spec fn merged_entries(own: Seq<Seq<char>>, es: Seq<(Seq<char>, TomlView)>) -> Seq<
    (Seq<char>, TomlView),
>
    decreases es.len(),
{
    if es.len() == 0 {
        seq![]
    } else {
        let rest = merged_entries(own, es.drop_last());
        let e = es.last();
        if own.contains(e.0) || table_get(es.drop_last(), e.0) is Some {
            rest
        } else {
            rest.push(e)
        }
    }
}

/// For each entry whose name came before with a value not equal to it
/// (see `toml_eq`): the name and the value that came first, in order.
pub open spec fn conflicting_entries(es: Seq<(Seq<char>, TomlView)>) -> Seq<(Seq<char>, TomlView)>
    decreases es.len(),
{
    if es.len() == 0 {
        seq![]
    } else {
        let rest = conflicting_entries(es.drop_last());
        let e = es.last();
        match table_get(es.drop_last(), e.0) {
            Some(v) => if !toml_eq(v, e.1) {
                rest.push((e.0, v))
            } else {
                rest
            },
            None => rest,
        }
    }
}

proof fn lemma_table_get_push(t: Seq<(Seq<char>, TomlView)>, e: (Seq<char>, TomlView), k: Seq<char>)
    ensures
        table_get(t.push(e), k) == (match table_get(t, k) {
            Some(v) => Some(v),
            None => if e.0 == k {
                Some(e.1)
            } else {
                None
            },
        }),
    decreases t.len(),
{
    if t.len() == 0 {
        assert(t.push(e).drop_first() =~= Seq::<(Seq<char>, TomlView)>::empty());
    } else {
        assert(t.push(e).drop_first() =~= t.drop_first().push(e));
        lemma_table_get_push(t.drop_first(), e, k);
    }
}

proof fn lemma_table_view(t: Vec<(String, TomlValue)>)
    ensures
        toml_view(TomlValue::Table(t))->Table_0 == entry_views(t@),
{
    assert(toml_view(TomlValue::Table(t))->Table_0 =~= entry_views(t@));
}

/// The text that `Display` gives a float that is zero: `0` or `-0`.
pub open spec fn zero_text(t: Seq<char>) -> bool {
    t == seq!['0'] || t == seq!['-', '0']
}

/// The text that `Display` gives a float that is not a number.
pub open spec fn nan_text(t: Seq<char>) -> bool {
    t == seq!['N', 'a', 'N']
}

/// Two floats, given as the text that `Display` gives them, are equal as
/// `f64` values: NaN equals nothing, zero equals negative zero, and other
/// floats are equal when their texts are.
pub open spec fn float_text_eq(a: Seq<char>, b: Seq<char>) -> bool {
    !nan_text(a) && !nan_text(b) && (a == b || (zero_text(a) && zero_text(b)))
}

/// Two TOML values are equal as `toml::Value`s: of the same kind, floats
/// equal as `f64`s, arrays and tables equal entry by entry.
pub open spec fn toml_eq(a: TomlView, b: TomlView) -> bool
    decreases a,
{
    match a {
        TomlView::Float(x) => match b {
            TomlView::Float(y) => float_text_eq(x, y),
            _ => false,
        },
        TomlView::Array(x) => match b {
            TomlView::Array(y) => toml_seq_eq(x, y),
            _ => false,
        },
        TomlView::Table(x) => match b {
            TomlView::Table(y) => toml_table_eq(x, y),
            _ => false,
        },
        _ => a == b,
    }
}

/// Two arrays are equal entry by entry (see `toml_eq`).
pub open spec fn toml_seq_eq(x: Seq<TomlView>, y: Seq<TomlView>) -> bool
    decreases x,
{
    if x.len() == 0 {
        y.len() == 0
    } else {
        y.len() > 0 && toml_eq(x[0], y[0]) && toml_seq_eq(x.drop_first(), y.drop_first())
    }
}

/// Two tables are equal entry by entry: the same keys, values equal (see
/// `toml_eq`).
pub open spec fn toml_table_eq(x: Seq<(Seq<char>, TomlView)>, y: Seq<(Seq<char>, TomlView)>) -> bool
    decreases x,
{
    if x.len() == 0 {
        y.len() == 0
    } else {
        y.len() > 0 && x[0].0 == y[0].0 && toml_eq(x[0].1, y[0].1) && toml_table_eq(
            x.drop_first(),
            y.drop_first(),
        )
    }
}

/// `toml_seq_eq` entry by entry.
proof fn lemma_toml_seq_eq(x: Seq<TomlView>, y: Seq<TomlView>)
    ensures
        toml_seq_eq(x, y) == (x.len() == y.len() && forall|i: int|
            0 <= i < x.len() ==> #[trigger] toml_eq(x[i], y[i])),
    decreases x.len(),
{
    if x.len() > 0 && y.len() > 0 {
        lemma_toml_seq_eq(x.drop_first(), y.drop_first());
        assert(toml_seq_eq(x, y) == (toml_eq(x[0], y[0]) && toml_seq_eq(x.drop_first(), y.drop_first())));
        if x.len() == y.len() && (forall|i: int| 0 <= i < x.len() ==> #[trigger] toml_eq(x[i], y[i])) {
            assert forall|i: int| 0 <= i < x.drop_first().len() implies #[trigger] toml_eq(
                x.drop_first()[i],
                y.drop_first()[i],
            ) by {
                assert(toml_eq(x[i + 1], y[i + 1]));
            }
        }
        if toml_seq_eq(x, y) {
            assert forall|i: int| 0 <= i < x.len() implies #[trigger] toml_eq(x[i], y[i]) by {
                if i > 0 {
                    assert(toml_eq(x.drop_first()[i - 1], y.drop_first()[i - 1]));
                }
            }
            assert(x.len() == y.len());
        }
    } else if x.len() == 0 {
        assert(toml_seq_eq(x, y) == (y.len() == 0));
    } else {
        assert(!toml_seq_eq(x, y));
    }
}

/// Tables of different lengths are not equal.
proof fn lemma_table_eq_len(x: Seq<(Seq<char>, TomlView)>, y: Seq<(Seq<char>, TomlView)>)
    requires
        x.len() != y.len(),
    ensures
        !toml_table_eq(x, y),
    decreases x.len(),
{
    if x.len() > 0 && y.len() > 0 {
        lemma_table_eq_len(x.drop_first(), y.drop_first());
    }
}

/// Two float texts denote equal `f64`s.
fn same_float(x: &String, y: &String) -> (r: bool)
    ensures
        r == float_text_eq(x@, y@),
{
    let xs = crate::text::chars_of(x.as_str());
    let ys = crate::text::chars_of(y.as_str());
    let nan: Vec<char> = vec!['N', 'a', 'N'];
    let z: Vec<char> = vec!['0'];
    let nz: Vec<char> = vec!['-', '0'];
    assert(nan@ =~= seq!['N', 'a', 'N']);
    assert(z@ =~= seq!['0']);
    assert(nz@ =~= seq!['-', '0']);
    if crate::text::chars_eq(&xs, &nan) || crate::text::chars_eq(&ys, &nan) {
        return false;
    }
    if crate::text::chars_eq(&xs, &ys) {
        return true;
    }
    (crate::text::chars_eq(&xs, &z) || crate::text::chars_eq(&xs, &nz)) && (crate::text::chars_eq(
        &ys,
        &z,
    ) || crate::text::chars_eq(&ys, &nz))
}

/// The two values are equal as TOML values (see `toml_eq`).
fn same_value(a: &TomlValue, b: &TomlValue) -> (r: bool)
    ensures
        r == toml_eq(toml_view(*a), toml_view(*b)),
    decreases *a,
{
    match (a, b) {
        (TomlValue::String(x), TomlValue::String(y)) => crate::text::chars_eq(
            &crate::text::chars_of(x.as_str()),
            &crate::text::chars_of(y.as_str()),
        ),
        (TomlValue::Integer(x), TomlValue::Integer(y)) => *x == *y,
        (TomlValue::Float(x), TomlValue::Float(y)) => same_float(x, y),
        (TomlValue::Boolean(x), TomlValue::Boolean(y)) => *x == *y,
        (TomlValue::Datetime(x), TomlValue::Datetime(y)) => crate::text::chars_eq(
            &crate::text::chars_of(x.as_str()),
            &crate::text::chars_of(y.as_str()),
        ),
        (TomlValue::Array(x), TomlValue::Array(y)) => {
            let ghost vx = toml_view(*a)->Array_0;
            let ghost vy = toml_view(*b)->Array_0;
            assert(toml_view(*a) == TomlView::Array(vx));
            assert(toml_view(*b) == TomlView::Array(vy));
            proof {
                lemma_toml_seq_eq(vx, vy);
            }
            if x.len() != y.len() {
                assert(vx.len() != vy.len());
                return false;
            }
            let mut i: usize = 0;
            while i < x.len()
                invariant
                    i <= x@.len(),
                    x@.len() == y@.len(),
                    *a == TomlValue::Array(*x),
                    *b == TomlValue::Array(*y),
                    toml_view(*a) == TomlView::Array(vx),
                    toml_view(*b) == TomlView::Array(vy),
                    vx.len() == x@.len(),
                    vy.len() == y@.len(),
                    vx == toml_view(*a)->Array_0,
                    vy == toml_view(*b)->Array_0,
                    forall|j: int| 0 <= j < i ==> #[trigger] toml_eq(vx[j], vy[j]),
                decreases x@.len() - i,
            {
                proof {
                    assert(decreases_to!(*a => (*a)->Array_0));
                    assert(decreases_to!(*x => x@));
                    assert(decreases_to!(x@ => x@[i as int]));
                    assert(decreases_to!(*a => x@[i as int]));
                }
                let same = same_value(&x[i], &y[i]);
                assert(vx[i as int] == toml_view(x@[i as int]));
                assert(vy[i as int] == toml_view(y@[i as int]));
                if !same {
                    assert(!toml_eq(vx[i as int], vy[i as int]));
                    proof {
                        lemma_toml_seq_eq(vx, vy);
                    }
                    return false;
                }
                i += 1;
            }
            proof {
                lemma_toml_seq_eq(vx, vy);
            }
            true
        },
        (TomlValue::Table(x), TomlValue::Table(y)) => {
            let ghost vx = toml_view(*a)->Table_0;
            let ghost vy = toml_view(*b)->Table_0;
            assert(toml_view(*a) == TomlView::Table(vx));
            assert(toml_view(*b) == TomlView::Table(vy));
            if x.len() != y.len() {
                proof {
                    lemma_table_eq_len(vx, vy);
                }
                return false;
            }
            let mut i: usize = 0;
            assert(vx.skip(0) =~= vx);
            assert(vy.skip(0) =~= vy);
            while i < x.len()
                invariant
                    i <= x@.len(),
                    x@.len() == y@.len(),
                    *a == TomlValue::Table(*x),
                    *b == TomlValue::Table(*y),
                    toml_view(*a) == TomlView::Table(vx),
                    toml_view(*b) == TomlView::Table(vy),
                    vx.len() == x@.len(),
                    vy.len() == y@.len(),
                    vx == toml_view(*a)->Table_0,
                    vy == toml_view(*b)->Table_0,
                    toml_table_eq(vx, vy) == toml_table_eq(vx.skip(i as int), vy.skip(i as int)),
                decreases x@.len() - i,
            {
                proof {
                    assert(decreases_to!(*a => (*a)->Table_0));
                    assert(decreases_to!(*x => x@));
                    assert(decreases_to!(x@ => x@[i as int]));
                    assert(decreases_to!(x@[i as int] => x@[i as int].1));
                    assert(decreases_to!(*a => x@[i as int].1));
                }
                let ghost sx = vx.skip(i as int);
                let ghost sy = vy.skip(i as int);
                assert(sx[0] == vx[i as int]);
                assert(sy[0] == vy[i as int]);
                assert(sx.drop_first() =~= vx.skip(i + 1));
                assert(sy.drop_first() =~= vy.skip(i + 1));
                assert(toml_table_eq(sx, sy) == (sx[0].0 == sy[0].0 && toml_eq(sx[0].1, sy[0].1)
                    && toml_table_eq(sx.drop_first(), sy.drop_first())));
                assert(vx[i as int] == (x@[i as int].0@, toml_view(x@[i as int].1)));
                assert(vy[i as int] == (y@[i as int].0@, toml_view(y@[i as int].1)));
                if x[i].0 != y[i].0 {
                    return false;
                }
                if !same_value(&x[i].1, &y[i].1) {
                    return false;
                }
                i += 1;
            }
            assert(vx.skip(i as int) =~= Seq::<(Seq<char>, TomlView)>::empty());
            assert(vy.skip(i as int) =~= Seq::<(Seq<char>, TomlView)>::empty());
            true
        },
        _ => {
            proof {
                assert(!toml_eq(toml_view(*a), toml_view(*b)));
            }
            false
        },
    }
}

/// Merges the registry dependencies of several manifests (`libs`, each as
/// `external_dep_entries` gives it) into a table whose names are `own`:
/// for each name the entry that comes first counts. Returns the entries
/// to add (the first of each name that `own` lacks, in order) and, for
/// each later entry of a name with another value, that name with the value
/// that counts.
pub fn merge_external_deps(own: &Vec<String>, libs: &Vec<Vec<(String, TomlValue)>>) -> (r: (
    Vec<(String, TomlValue)>,
    Vec<(String, TomlValue)>,
))
    ensures
        entry_views(r.0@) == merged_entries(crate::path::texts(own@), all_entries(libs@)),
        entry_views(r.1@) == conflicting_entries(all_entries(libs@)),
{
    let ghost ownv = crate::path::texts(own@);
    let mut seen: Vec<(String, TomlValue)> = Vec::new();
    let mut added: Vec<(String, TomlValue)> = Vec::new();
    let mut conflicts: Vec<(String, TomlValue)> = Vec::new();
    let mut i: usize = 0;
    assert(libs@.take(0) =~= Seq::<Vec<(String, TomlValue)>>::empty());
    while i < libs.len()
        invariant
            i <= libs@.len(),
            ownv == crate::path::texts(own@),
            forall|k: Seq<char>|
                #[trigger] table_get(entry_views(seen@), k) == table_get(
                    all_entries(libs@.take(i as int)),
                    k,
                ),
            entry_views(added@) == merged_entries(ownv, all_entries(libs@.take(i as int))),
            entry_views(conflicts@) == conflicting_entries(all_entries(libs@.take(i as int))),
        decreases libs@.len() - i,
    {
        let lib = &libs[i];
        let ghost before = all_entries(libs@.take(i as int));
        let ghost lv = entry_views(lib@);
        assert(before + lv.take(0) =~= before);
        let mut j: usize = 0;
        while j < lib.len()
            invariant
                j <= lib@.len(),
                ownv == crate::path::texts(own@),
                lv == entry_views(lib@),
                forall|k: Seq<char>|
                    #[trigger] table_get(entry_views(seen@), k) == table_get(
                        before + lv.take(j as int),
                        k,
                    ),
                entry_views(added@) == merged_entries(ownv, before + lv.take(j as int)),
                entry_views(conflicts@) == conflicting_entries(before + lv.take(j as int)),
            decreases lib@.len() - j,
        {
            let ghost es = before + lv.take(j as int);
            let ghost e = lv[j as int];
            assert((before + lv.take(j + 1)).drop_last() =~= es);
            assert((before + lv.take(j + 1)).last() == e);
            assert(before + lv.take(j + 1) =~= es.push(e));
            let nm = crate::text::chars_of(lib[j].0.as_str());
            proof {
                lemma_table_view(seen);
            }
            let found: Option<TomlValue> = match get_entry(&seen, &nm) {
                Some(v) => Some(copy_value(v)),
                None => None,
            };
            let ghost seen0 = entry_views(seen@);
            match found {
                Some(v) => {
                    assert(table_get(es, e.0) == Some(toml_view(v)));
                    if !same_value(&v, &lib[j].1) {
                        let ghost c0 = conflicts@;
                        conflicts.push((lib[j].0.clone(), v));
                        assert(entry_views(conflicts@) =~= entry_views(c0).push((e.0, table_get(es, e.0)->0)));
                    }
                    assert forall|k: Seq<char>|
                        #[trigger] table_get(entry_views(seen@), k) == table_get(es.push(e), k) by {
                        lemma_table_get_push(es, e, k);
                    }
                },
                None => {
                    assert(table_get(es, e.0) is None);
                    let ghost s0 = seen@;
                    let c = copy_value(&lib[j].1);
                    seen.push((lib[j].0.clone(), c));
                    assert(entry_views(seen@) =~= entry_views(s0).push(e));
                    assert forall|k: Seq<char>|
                        #[trigger] table_get(entry_views(seen@), k) == table_get(es.push(e), k) by {
                        lemma_table_get_push(es, e, k);
                        lemma_table_get_push(entry_views(s0), e, k);
                    }
                    if !crate::deps::contains_name(own, &lib[j].0) {
                        let ghost a0 = added@;
                        let c2 = copy_value(&lib[j].1);
                        added.push((lib[j].0.clone(), c2));
                        assert(entry_views(added@) =~= entry_views(a0).push(e));
                    }
                },
            }
            j += 1;
        }
        assert(lv.take(lib@.len() as int) =~= lv);
        assert(libs@.take(i + 1).drop_last() =~= libs@.take(i as int));
        assert(libs@.take(i + 1).last() == lib);
        i += 1;
    }
    assert(libs@.take(libs@.len() as int) =~= libs@);
    (added, conflicts)
}


proof fn lemma_table_get_names(t: Seq<(Seq<char>, TomlView)>, k: Seq<char>)
    ensures
        table_get(t, k) is None <==> !entry_names(t).contains(k),
    decreases t.len(),
{
    if t.len() > 0 {
        lemma_table_get_names(t.drop_first(), k);
        assert(entry_names(t) =~= seq![t[0].0] + entry_names(t.drop_first()));
        let en = entry_names(t);
        let er = entry_names(t.drop_first());
        if t[0].0 == k {
            assert(en[0] == k);
        } else {
            if en.contains(k) {
                let i = choose|i: int| 0 <= i < en.len() && en[i] == k;
                assert(i > 0);
                assert(er[i - 1] == k);
            }
            if er.contains(k) {
                let i = choose|i: int| 0 <= i < er.len() && er[i] == k;
                assert(en[i + 1] == k);
            }
        }
    }
}

/// Merging keeps, for each name that the table lacks, the value of the
/// first entry of that name (first seen wins), adds nothing for a name the
/// table has, and adds each name once.
pub proof fn law_merge_first_seen(own: Seq<Seq<char>>, es: Seq<(Seq<char>, TomlView)>)
    ensures
        forall|n: Seq<char>|
            #[trigger] table_get(merged_entries(own, es), n) == (if own.contains(n) {
                None
            } else {
                table_get(es, n)
            }),
        entry_names(merged_entries(own, es)).no_duplicates(),
    decreases es.len(),
{
    if es.len() > 0 {
        let dl = es.drop_last();
        let e = es.last();
        law_merge_first_seen(own, dl);
        let rest = merged_entries(own, dl);
        assert(dl.push(e) =~= es);
        assert forall|n: Seq<char>|
            #[trigger] table_get(merged_entries(own, es), n) == (if own.contains(n) {
                None
            } else {
                table_get(es, n)
            }) by {
            lemma_table_get_push(dl, e, n);
            lemma_table_get_push(rest, e, n);
            assert(table_get(rest, n) == (if own.contains(n) {
                None
            } else {
                table_get(dl, n)
            }));
        }
        if !(own.contains(e.0) || table_get(dl, e.0) is Some) {
            assert(table_get(rest, e.0) is None);
            lemma_table_get_names(rest, e.0);
            assert(entry_names(rest.push(e)) =~= entry_names(rest).push(e.0));
            let names = entry_names(rest.push(e));
            assert forall|a: int, b: int| 0 <= a < b < names.len() implies names[a] != names[b] by {
                if b == names.len() - 1 {
                    assert(names[a] == entry_names(rest)[a]);
                } else {
                    assert(names[a] == entry_names(rest)[a]);
                    assert(names[b] == entry_names(rest)[b]);
                }
            }
        }
    } else {
        assert(entry_names(merged_entries(own, es)) =~= Seq::<Seq<char>>::empty());
    }
}

/// Each conflict names an entry that came again with a value not equal to
/// the first one, and gives that first value; there is none exactly when
/// every entry equals the first of its name.
pub proof fn law_conflicts_exact(es: Seq<(Seq<char>, TomlView)>)
    ensures
        forall|i: int|
            0 <= i < conflicting_entries(es).len() ==> table_get(es, (#[trigger] conflicting_entries(es)[i]).0)
                == Some(conflicting_entries(es)[i].1),
        conflicting_entries(es).len() == 0 <==> (forall|j: int|
            0 <= j < es.len() ==> match table_get(#[trigger] es.take(j), es[j].0) {
                Some(v) => toml_eq(v, es[j].1),
                None => true,
            }),
    decreases es.len(),
{
    if es.len() > 0 {
        let dl = es.drop_last();
        let e = es.last();
        law_conflicts_exact(dl);
        let rest = conflicting_entries(dl);
        assert(dl.push(e) =~= es);
        assert(es.take(es.len() - 1) =~= dl);
        assert forall|j: int| 0 <= j < dl.len() implies #[trigger] es.take(j) == dl.take(j) && es[j] == dl[j] by {
            assert(es.take(j) =~= dl.take(j));
        }
        assert forall|i: int|
            0 <= i < conflicting_entries(es).len() implies table_get(es, (#[trigger] conflicting_entries(es)[i]).0)
                == Some(conflicting_entries(es)[i].1) by {
            let c = conflicting_entries(es)[i];
            lemma_table_get_push(dl, e, c.0);
            if i < rest.len() {
                assert(c == rest[i]);
            }
        }
        let all_ok = forall|j: int|
            0 <= j < es.len() ==> match table_get(#[trigger] es.take(j), es[j].0) {
                Some(v) => toml_eq(v, es[j].1),
                None => true,
            };
        let dl_ok = forall|j: int|
            0 <= j < dl.len() ==> match table_get(#[trigger] dl.take(j), dl[j].0) {
                Some(v) => toml_eq(v, dl[j].1),
                None => true,
            };
        if all_ok {
            assert(dl_ok) by {
                assert forall|j: int| 0 <= j < dl.len() implies match table_get(#[trigger] dl.take(j), dl[j].0) {
                    Some(v) => toml_eq(v, dl[j].1),
                    None => true,
                } by {
                    assert(es.take(j) == dl.take(j));
                }
            }
            let j = es.len() - 1;
            assert(es.take(j) == dl);
        }
        if conflicting_entries(es).len() == 0 {
            assert(rest.len() == 0);
            assert(all_ok) by {
                assert forall|j: int| 0 <= j < es.len() implies match table_get(#[trigger] es.take(j), es[j].0) {
                    Some(v) => toml_eq(v, es[j].1),
                    None => true,
                } by {
                    if j < dl.len() {
                        assert(es.take(j) == dl.take(j));
                    } else {
                        assert(es.take(j) == dl);
                    }
                }
            }
        }
    }
}

// ---------------------------------------------------------------------
// The manifest of the checking project
// ---------------------------------------------------------------------

/// The names of the entries.
pub open spec fn entry_names(es: Seq<(Seq<char>, TomlView)>) -> Seq<Seq<char>> {
    es.map_values(|e: (Seq<char>, TomlView)| e.0)
}

/// The entries with the value of the first entry named `k` made `v`.
pub open spec fn replace_first(t: Seq<(Seq<char>, TomlView)>, k: Seq<char>, v: TomlView) -> Seq<
    (Seq<char>, TomlView),
>
    decreases t.len(),
{
    if t.len() == 0 {
        t
    } else if t[0].0 == k {
        seq![(k, v)] + t.drop_first()
    } else {
        seq![t[0]] + replace_first(t.drop_first(), k, v)
    }
}

/// The document has a `[dependencies]` table.
pub open spec fn has_dependency_table(doc: TomlView) -> bool {
    value_get(doc, dependencies_key()) matches Some(TomlView::Table(_))
}

/// The `[dependencies]` of the checking project: the entries of the table
/// without a `path` key, then those that merging the libraries' entries
/// `es` adds to them.
pub open spec fn checked_dependencies(d: Seq<(Seq<char>, TomlView)>, es: Seq<(Seq<char>, TomlView)>) -> Seq<
    (Seq<char>, TomlView),
> {
    external_entries(d) + merged_entries(entry_names(external_entries(d)), es)
}

/// The manifest of the checking project: the document with its
/// `[dependencies]` table, where it has one, made `checked_dependencies`;
/// otherwise the document unchanged.
pub open spec fn checked_document(doc: TomlView, es: Seq<(Seq<char>, TomlView)>) -> TomlView {
    match doc {
        TomlView::Table(t) => match table_get(t, dependencies_key()) {
            Some(TomlView::Table(d)) => TomlView::Table(
                replace_first(t, dependencies_key(), TomlView::Table(checked_dependencies(d, es))),
            ),
            _ => doc,
        },
        _ => doc,
    }
}

/// The names of the entries, as strings.
fn names_of(es: &Vec<(String, TomlValue)>) -> (r: Vec<String>)
    ensures
        crate::path::texts(r@) == entry_names(entry_views(es@)),
{
    let mut r: Vec<String> = Vec::new();
    let mut i: usize = 0;
    while i < es.len()
        invariant
            i <= es@.len(),
            crate::path::texts(r@) == entry_names(entry_views(es@)).take(i as int),
        decreases es@.len() - i,
    {
        r.push(es[i].0.clone());
        assert(entry_names(entry_views(es@)).take(i + 1) =~= entry_names(entry_views(es@)).take(
            i as int,
        ).push(es@[i as int].0@));
        assert(crate::path::texts(r@) =~= entry_names(entry_views(es@)).take(i + 1));
        i += 1;
    }
    assert(entry_names(entry_views(es@)).take(es@.len() as int) =~= entry_names(entry_views(es@)));
    r
}

/// The entries with the value of the first entry named `k` made `v`.
fn replace_entry(t: Vec<(String, TomlValue)>, k: &Vec<char>, v: TomlValue) -> (r: Vec<(String, TomlValue)>)
    ensures
        entry_views(r@) == replace_first(entry_views(t@), k@, toml_view(v)),
{
    let ghost tv = entry_views(t@);
    let mut rest = t;
    let mut out: Vec<(String, TomlValue)> = Vec::new();
    let mut pending: Option<TomlValue> = Some(v);
    let ghost vv = toml_view(v);
    let n = rest.len();
    let mut i: usize = 0;
    assert(tv.skip(0) =~= tv);
    while rest.len() > 0
        invariant
            i <= n,
            n == tv.len(),
            entry_views(rest@) == tv.skip(i as int),
            pending is Some ==> toml_view(pending->0) == vv,
            pending is Some ==> entry_views(out@) + replace_first(tv.skip(i as int), k@, vv)
                == replace_first(tv, k@, vv),
            pending is None ==> entry_views(out@) + tv.skip(i as int) == replace_first(tv, k@, vv),
        decreases rest@.len(),
    {
        assert(tv.skip(i as int).len() > 0);
        let e = rest.remove(0);
        let ghost sk = tv.skip(i as int);
        assert(sk[0] == (e.0@, toml_view(e.1)));
        assert(sk.drop_first() =~= tv.skip(i + 1));
        assert(entry_views(rest@) =~= tv.skip(i + 1));
        let ghost o0 = entry_views(out@);
        let is_k = crate::text::chars_eq(&crate::text::chars_of(e.0.as_str()), k);
        if is_k && pending.is_some() {
            let nv = match pending.take() {
                Some(x) => x,
                None => TomlValue::Boolean(false),
            };
            out.push((e.0, nv));
            assert(entry_views(out@) =~= o0.push((k@, vv)));
            assert(o0 + replace_first(sk, k@, vv) =~= entry_views(out@) + tv.skip(i + 1));
        } else {
            let ghost ev = (e.0@, toml_view(e.1));
            out.push(e);
            assert(entry_views(out@) =~= o0.push(ev));
            proof {
                if pending is Some {
                    assert(o0 + replace_first(sk, k@, vv) =~= entry_views(out@) + replace_first(tv.skip(i + 1), k@, vv));
                } else {
                    assert(o0 + sk =~= entry_views(out@) + tv.skip(i + 1));
                }
            }
        }
        i += 1;
    }
    assert(tv.skip(i as int) =~= Seq::<(Seq<char>, TomlView)>::empty());
    assert(entry_views(out@) + Seq::<(Seq<char>, TomlView)>::empty() =~= entry_views(out@));
    out
}

/// The document with its `[dependencies]` table made the checking
/// project's (see `checked_document`), and the conflicts that merging the
/// libraries' entries reports (none when it has no such table).
fn with_merged_dependencies(doc: TomlValue, libs: &Vec<Vec<(String, TomlValue)>>) -> (r: (
    TomlValue,
    Vec<(String, TomlValue)>,
))
    ensures
        toml_view(r.0) == checked_document(toml_view(doc), all_entries(libs@)),
        entry_views(r.1@) == (if has_dependency_table(toml_view(doc)) {
            conflicting_entries(all_entries(libs@))
        } else {
            Seq::<(Seq<char>, TomlView)>::empty()
        }),
{
    let ghost es = all_entries(libs@);
    match doc {
        TomlValue::Table(t) => {
            let key: Vec<char> = vec!['d', 'e', 'p', 'e', 'n', 'd', 'e', 'n', 'c', 'i', 'e', 's'];
            assert(key@ =~= dependencies_key());
            proof {
                lemma_table_view(t);
            }
            let found: Option<(Vec<(String, TomlValue)>, Vec<(String, TomlValue)>)> = match get_entry(
                &t,
                &key,
            ) {
                Some(TomlValue::Table(d)) => {
                    proof {
                        lemma_table_view(*d);
                    }
                    let ext = external_of_table(d);
                    assert(entry_views(ext@) == external_entries(entry_views(d@)));
                    let own = names_of(&ext);
                    let (added, conflicts) = merge_external_deps(&own, libs);
                    let mut nd = ext;
                    let ghost n0 = entry_views(nd@);
                    let mut added = added;
                    let ghost av = entry_views(added@);
                    let mut j: usize = 0;
                    let m = added.len();
                    assert(av.skip(0) =~= av);
                    while added.len() > 0
                        invariant
                            j <= m,
                            m == av.len(),
                            entry_views(added@) == av.skip(j as int),
                            entry_views(nd@) + av.skip(j as int) == n0 + av,
                        decreases added@.len(),
                    {
                        assert(av.skip(j as int).len() > 0);
                        let e = added.remove(0);
                        let ghost ev = (e.0@, toml_view(e.1));
                        let ghost nd0 = entry_views(nd@);
                        assert(av.skip(j as int)[0] == ev);
                        assert(av.skip(j as int) =~= seq![ev] + av.skip(j + 1));
                        assert(av.skip(j as int).drop_first() =~= av.skip(j + 1));
                        assert(entry_views(added@) =~= av.skip(j + 1));
                        nd.push(e);
                        assert(entry_views(nd@) =~= nd0.push(ev));
                        assert(entry_views(nd@) + av.skip(j + 1) =~= nd0 + av.skip(j as int));
                        j += 1;
                    }
                    assert(av.skip(j as int) =~= Seq::<(Seq<char>, TomlView)>::empty());
                    assert(entry_views(nd@) =~= n0 + av);
                    Some((nd, conflicts))
                },
                _ => None,
            };
            match found {
                Some((nd, conflicts)) => {
                    let ghost ndv = entry_views(nd@);
                    let nt = replace_entry(t, &key, TomlValue::Table(nd));
                    proof {
                        lemma_table_view(nd);
                        lemma_table_view(nt);
                    }
                    (TomlValue::Table(nt), conflicts)
                },
                None => (TomlValue::Table(t), Vec::new()),
            }
        },
        other => (other, Vec::new()),
    }
}

/// The manifest of the project that checks the bundle: the target's
/// manifest (`main_manifest`) with its `[dependencies]` table keeping the
/// registry entries and gaining the registry entries of the bundled
/// libraries (`libs`, each as `external_dep_entries` gives it) that it
/// lacks, the first of each name counting; printed as TOML. Also returns
/// the conflicts of the merge (see `merge_external_deps`). A document
/// without a `[dependencies]` table is printed unchanged, with no
/// conflicts.
pub fn check_manifest(main_manifest: &str, libs: &Vec<Vec<(String, TomlValue)>>) -> (r: Result<
    (String, Vec<(String, TomlValue)>),
    ManifestError,
>)
    ensures
        (r matches Err(ManifestError::Toml(_))) <==> toml_parsed(main_manifest@) is None,
        r is Ok <==> toml_parsed(main_manifest@) is Some && toml_printed(
            checked_document(toml_parsed(main_manifest@)->0, all_entries(libs@)),
        ) is Some,
        r matches Ok((text, conflicts)) ==> toml_printed(
            checked_document(toml_parsed(main_manifest@)->0, all_entries(libs@)),
        ) == Some(text@) && entry_views(conflicts@) == (if has_dependency_table(
            toml_parsed(main_manifest@)->0,
        ) {
            conflicting_entries(all_entries(libs@))
        } else {
            Seq::<(Seq<char>, TomlView)>::empty()
        }),
{
    let doc = match parse_toml(main_manifest) {
        Ok(d) => d,
        Err(e) => return Err(ManifestError::Toml(e)),
    };
    let (checked, conflicts) = with_merged_dependencies(doc, libs);
    match print_toml(&checked) {
        Some(text) => Ok((text, conflicts)),
        None => Err(ManifestError::Unprintable),
    }
}

} // verus!
