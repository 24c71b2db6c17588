//! Where trigger generation reads a schema from: a SQLite database file, a
//! single `.sql` script, or a directory of `.sql` migrations loaded in
//! lexicographic order of their file names.

use vstd::prelude::*;
use crate::text::{chars_of, push_text};
use crate::trigger::{texts, AppError};

verus! {

broadcast use {vstd::string::group_string_axioms, vstd::seq_lib::group_to_multiset_ensures};

/// The kinds of schema source.
#[derive(Debug, Clone, Copy, PartialEq, Eq, Structural)]
pub enum SchemaSourceKind {
    /// A SQLite database file, read and possibly changed in place.
    Database,
    /// A directory of `.sql` migration files.
    Directory,
    /// One `.sql` schema script.
    SqlScript,
}

/// A file name whose extension is `sql` (`Path::extension`): it ends in
/// `.sql` and that dot does not start the name.
pub open spec fn is_sql_file_name(name: Seq<char>) -> bool {
    name.len() > 4 && name.skip(name.len() - 4) == seq!['.', 's', 'q', 'l']
}

pub fn has_sql_extension(file_name: &str) -> (res: bool)
    ensures
        res == is_sql_file_name(file_name@),
{
    let cs = chars_of(file_name);
    let n = cs.len();
    if n <= 4 {
        return false;
    }
    let res = cs[n - 4] == '.' && cs[n - 3] == 's' && cs[n - 2] == 'q' && cs[n - 1] == 'l';
    assert(res == (cs@.skip(n - 4) =~= seq!['.', 's', 'q', 'l']));
    res
}

/// A directory is read as migrations; a file named `*.sql` as a script;
/// any other file as a database; anything else is refused.
pub fn classify_schema_source(path: &str, file_name: &str, is_dir: bool, is_file: bool) -> (res:
    Result<SchemaSourceKind, AppError>)
    ensures
        is_dir ==> res == Ok::<SchemaSourceKind, AppError>(SchemaSourceKind::Directory),
        !is_dir && is_file && is_sql_file_name(file_name@) ==> res == Ok::<
            SchemaSourceKind,
            AppError,
        >(SchemaSourceKind::SqlScript),
        !is_dir && is_file && !is_sql_file_name(file_name@) ==> res == Ok::<
            SchemaSourceKind,
            AppError,
        >(SchemaSourceKind::Database),
        !is_dir && !is_file ==> (res matches Err(AppError::UnsupportedSchemaSource { path: p })
            && p@ == path@),
{
    if is_dir {
        Ok(SchemaSourceKind::Directory)
    } else if is_file {
        if has_sql_extension(file_name) {
            Ok(SchemaSourceKind::SqlScript)
        } else {
            Ok(SchemaSourceKind::Database)
        }
    } else {
        let mut p = String::new();
        push_text(&mut p, path);
        Err(AppError::UnsupportedSchemaSource { path: p })
    }
}

/// `--apply` changes a database in place, so only a database file takes it.
pub fn check_apply_allowed(kind: SchemaSourceKind, apply: bool) -> (res: Result<(), AppError>)
    ensures
        (apply && kind != SchemaSourceKind::Database) <==> res is Err,
        res matches Err(e) ==> e == AppError::ApplyUnsupportedWithSchemaSource,
{
    if apply && kind != SchemaSourceKind::Database {
        Err(AppError::ApplyUnsupportedWithSchemaSource)
    } else {
        Ok(())
    }
}

// ---------------------------------------------------------------------
// Ordering migration files
// ---------------------------------------------------------------------

/// Lexicographic order by character (code point), as `str` compares: a proper
/// prefix comes first.
pub open spec fn text_less(a: Seq<char>, b: Seq<char>) -> bool
    decreases a.len(),
{
    if a.len() == 0 {
        b.len() > 0
    } else if b.len() == 0 {
        false
    } else if a[0] != b[0] {
        a[0] < b[0]
    } else {
        text_less(a.skip(1), b.skip(1))
    }
}

pub open spec fn text_le(a: Seq<char>, b: Seq<char>) -> bool {
    text_less(a, b) || a == b
}

proof fn lemma_text_total(a: Seq<char>, b: Seq<char>)
    ensures
        !text_less(a, b) ==> text_le(b, a),
    decreases a.len(),
{
    if a.len() > 0 && b.len() > 0 && a[0] == b[0] {
        lemma_text_total(a.skip(1), b.skip(1));
        if a.skip(1) == b.skip(1) {
            assert(a =~= seq![a[0]] + a.skip(1));
            assert(b =~= seq![b[0]] + b.skip(1));
        }
    } else if a.len() == 0 && b.len() == 0 {
        assert(a =~= b);
    }
}

/// Whether `a` sorts before `b`.
fn chars_less(a: &[char], b: &[char]) -> (res: bool)
    ensures
        res == text_less(a@, b@),
{
    let n = a.len();
    let m = b.len();
    let mut i: usize = 0;
    assert(a@.skip(0) =~= a@);
    assert(b@.skip(0) =~= b@);
    while i < n && i < m && a[i] == b[i]
        invariant
            n == a@.len(),
            m == b@.len(),
            i <= n,
            i <= m,
            text_less(a@, b@) == text_less(a@.skip(i as int), b@.skip(i as int)),
        decreases n - i,
    {
        assert(a@.skip(i as int).skip(1) =~= a@.skip(i + 1));
        assert(b@.skip(i as int).skip(1) =~= b@.skip(i + 1));
        i = i + 1;
    }
    if i == n {
        i < m
    } else if i == m {
        false
    } else {
        a[i] < b[i]
    }
}

/// The `.sql` names among `names`, in their given order.
pub open spec fn sql_names(names: Seq<Seq<char>>) -> Seq<Seq<char>>
    decreases names.len(),
{
    if names.len() == 0 {
        Seq::empty()
    } else if is_sql_file_name(names.last()) {
        sql_names(names.drop_last()).push(names.last())
    } else {
        sql_names(names.drop_last())
    }
}

/// Each name sorts no later than the next one.
pub open spec fn ascending(s: Seq<Seq<char>>) -> bool {
    forall|i: int| 0 <= i < s.len() - 1 ==> text_le(#[trigger] s[i], s[i + 1])
}

/// The migration files of a directory: its `.sql` file names, sorted
/// lexicographically; a directory with none is refused.
pub fn migration_files(dir: &str, names: &[String]) -> (res: Result<Vec<String>, AppError>)
    ensures
        sql_names(texts(names@)).len() == 0 ==> (res matches Err(
            AppError::NoMigrationFiles { path: p },
        ) && p@ == dir@),
        sql_names(texts(names@)).len() > 0 ==> (res matches Ok(files) && ascending(texts(files@))
            && texts(files@).to_multiset() == sql_names(texts(names@)).to_multiset()),
{
    let mut sorted: Vec<String> = Vec::new();
    let mut keys: Vec<Vec<char>> = Vec::new();
    let n = names.len();
    for i in 0..n
        invariant
            n == names@.len(),
            keys@.len() == sorted@.len(),
            forall|k: int| 0 <= k < keys@.len() ==> (#[trigger] keys@[k])@ == sorted@[k]@,
            ascending(texts(sorted@)),
            texts(sorted@).to_multiset() == sql_names(texts(names@).take(i as int)).to_multiset(),
    {
        proof {
            let t = texts(names@).take(i + 1);
            assert(t.drop_last() =~= texts(names@).take(i as int));
            assert(t.last() == names@[i as int]@);
        }
        if has_sql_extension(names[i].as_str()) {
            let key = chars_of(names[i].as_str());
            // The first position whose name sorts after this one.
            let m = sorted.len();
            let mut pos: usize = 0;
            while pos < m && !chars_less(&key, &keys[pos])
                invariant
                    m == sorted@.len(),
                    keys@.len() == m,
                    pos <= m,
                    forall|k: int| 0 <= k < keys@.len() ==> (#[trigger] keys@[k])@ == sorted@[k]@,
                    pos > 0 ==> !text_less(key@, sorted@[pos - 1]@),
                decreases m - pos,
            {
                pos = pos + 1;
            }
            let ghost before = texts(sorted@);
            let ghost x = names@[i as int]@;
            proof {
                if pos > 0 {
                    lemma_text_total(x, before[pos - 1]);
                }
            }
            let ghost old_keys = keys@;
            sorted.insert(pos, names[i].clone());
            keys.insert(pos, key);
            proof {
                let after = texts(sorted@);
                assert(after =~= before.insert(pos as int, x));
                assert forall|k: int| 0 <= k < after.len() - 1 implies text_le(
                    #[trigger] after[k],
                    after[k + 1],
                ) by {
                    if k + 1 < pos {
                        assert(text_le(before[k], before[k + 1]));
                    } else if k + 1 == pos {
                    } else if k == pos {
                    } else {
                        assert(text_le(before[k - 1], before[k]));
                    }
                }
                assert forall|k: int| 0 <= k < keys@.len() implies (#[trigger] keys@[k])@
                    == sorted@[k]@ by {
                    if k < pos {
                    } else if k == pos {
                    } else {
                        assert(keys@[k] == old_keys[k - 1]);
                    }
                }
            }
        }
    }
    assert(texts(names@).take(n as int) =~= texts(names@));
    if sorted.len() == 0 {
        proof {
            assert(texts(sorted@).to_multiset().len() == 0);
            sql_names(texts(names@)).to_multiset_ensures();
        }
        let mut p = String::new();
        push_text(&mut p, dir);
        return Err(AppError::NoMigrationFiles { path: p });
    }
    proof {
        texts(sorted@).to_multiset_ensures();
        sql_names(texts(names@)).to_multiset_ensures();
    }
    Ok(sorted)
}

} // verus!
