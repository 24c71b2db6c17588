//! The operations a managed trigger captures, and the names managed
//! triggers carry: `{prefix}_{table}_{operation}`, optionally followed by
//! `_` and a 16-digit hexadecimal hash (the form older releases wrote).

use vstd::prelude::*;
use crate::text::{
    chars_from, chars_of, has_prefix, is_ascii_hexdigit, is_hex_digit, lower_chars, lower_seq,
};

verus! {

broadcast use vstd::string::group_string_axioms;

/// A row change that a managed trigger captures.
#[derive(Clone, Copy, Debug, Eq, Ord, PartialEq, PartialOrd, Structural)]
pub enum Operation {
    Insert,
    Update,
    Delete,
}

/// Every operation, in the order the manager plans them.
pub open spec fn all_operations() -> Seq<Operation> {
    seq![Operation::Insert, Operation::Update, Operation::Delete]
}

impl Operation {
    /// The lower-case word that ends a trigger name for this operation.
    pub open spec fn suffix_text(self) -> Seq<char> {
        match self {
            Operation::Insert => "insert"@,
            Operation::Update => "update"@,
            Operation::Delete => "delete"@,
        }
    }

    /// Insert, update and delete, in that order.
    pub fn all() -> (res: [Self; 3])
        ensures
            res@ == all_operations(),
    {
        let res = [Self::Insert, Self::Update, Self::Delete];
        assert(res@ =~= all_operations());
        res
    }

    pub fn as_suffix(self) -> (res: &'static str)
        ensures
            res@ == self.suffix_text(),
    {
        match self {
            Self::Insert => "insert",
            Self::Update => "update",
            Self::Delete => "delete",
        }
    }
}

/// The first part of a managed trigger's name: `{prefix}_{table}_`.
pub open spec fn stem_text(prefix: Seq<char>, table: Seq<char>) -> Seq<char> {
    prefix + "_"@ + table + "_"@
}

/// `{prefix}_{table}_{operation}`.
pub open spec fn trigger_stem_text(prefix: Seq<char>, table: Seq<char>, op: Operation) -> Seq<
    char,
> {
    stem_text(prefix, table) + op.suffix_text()
}

/// Sixteen ASCII hexadecimal digits.
pub open spec fn is_hash_text(s: Seq<char>) -> bool {
    s.len() == 16 && forall|i: int| 0 <= i < s.len() ==> is_hex_digit(#[trigger] s[i])
}

/// A trigger-name suffix names `op` when it is the operation's word, or the
/// word, `_` and a 16-digit hexadecimal hash.
pub open spec fn suffix_names(suffix: Seq<char>, op: Operation) -> bool {
    let word = op.suffix_text();
    ||| suffix == word
    ||| {
        &&& word.len() < suffix.len()
        &&& suffix.take(word.len() as int) == word
        &&& suffix[word.len() as int] == '_'
        &&& is_hash_text(suffix.skip(word.len() as int + 1))
    }
}

/// `name` is `stem` followed by the word of `op`, or by that word, `_` and
/// a 16-digit hexadecimal hash.
pub open spec fn names_operation(stem: Seq<char>, name: Seq<char>, op: Operation) -> bool {
    ||| name == stem + op.suffix_text()
    ||| exists|hash: Seq<char>|
        is_hash_text(hash) && name == stem + op.suffix_text() + "_"@ + hash
}

/// The first operation, in `all_operations()` order, that a suffix names.
pub open spec fn first_named(suffix: Seq<char>) -> Option<Operation> {
    if suffix_names(suffix, Operation::Insert) {
        Some(Operation::Insert)
    } else if suffix_names(suffix, Operation::Update) {
        Some(Operation::Update)
    } else if suffix_names(suffix, Operation::Delete) {
        Some(Operation::Delete)
    } else {
        None
    }
}

/// The operation a trigger name stands for, when it is a managed name of
/// `table`; ASCII case is ignored.
pub open spec fn parsed_operation(prefix: Seq<char>, table: Seq<char>, name: Seq<char>) -> Option<
    Operation,
> {
    let stem = lower_seq(stem_text(prefix, table));
    let lowered = lower_seq(name);
    if stem.len() <= lowered.len() && lowered.take(stem.len() as int) == stem {
        first_named(lowered.skip(stem.len() as int))
    } else {
        None
    }
}

/// The operation a trigger name stands for in the coverage report: the
/// name starts with exactly `{prefix}_{table}_`, letter case included, and
/// the rest names an operation (`suffix_names`).
pub open spec fn status_operation(prefix: Seq<char>, table: Seq<char>, name: Seq<char>) -> Option<
    Operation,
> {
    let stem = stem_text(prefix, table);
    if stem.len() <= name.len() && name.take(stem.len() as int) == stem {
        first_named(name.skip(stem.len() as int))
    } else {
        None
    }
}

fn stem_chars(prefix: &str, table: &str) -> (res: Vec<char>)
    ensures
        res@ == stem_text(prefix@, table@),
{
    let mut res = chars_of(prefix);
    let mut sep = chars_of("_");
    res.append(&mut sep);
    let mut t = chars_of(table);
    res.append(&mut t);
    let mut sep2 = chars_of("_");
    res.append(&mut sep2);
    res
}

fn is_hash_chars(s: &[char]) -> (res: bool)
    ensures
        res == is_hash_text(s@),
{
    if s.len() != 16 {
        return false;
    }
    let n = s.len();
    for i in 0..n
        invariant
            n == s@.len(),
            forall|j: int| 0 <= j < i ==> is_hex_digit(#[trigger] s@[j]),
    {
        if !is_ascii_hexdigit(s[i]) {
            return false;
        }
    }
    true
}

/// Whether a name suffix is a 16-digit hexadecimal hash.
pub fn is_hash_suffix(suffix: &str) -> (res: bool)
    ensures
        res == is_hash_text(suffix@),
{
    let cs = chars_of(suffix);
    is_hash_chars(&cs)
}

fn suffix_chars_name(suffix: &[char], op: Operation) -> (res: bool)
    ensures
        res == suffix_names(suffix@, op),
{
    let word = chars_of(op.as_suffix());
    if crate::text::chars_equal(suffix, &word) {
        return true;
    }
    if word.len() < suffix.len() && has_prefix(suffix, &word) && suffix[word.len()] == '_' {
        let rest = chars_from(suffix, word.len() + 1);
        is_hash_chars(&rest)
    } else {
        false
    }
}

/// Whether a trigger-name suffix names `operation` (see `suffix_names`).
pub fn trigger_suffix_matches_operation(suffix: &str, operation: Operation) -> (res: bool)
    ensures
        res == suffix_names(suffix@, operation),
{
    let cs = chars_of(suffix);
    suffix_chars_name(&cs, operation)
}

/// The first operation, in `all_operations()` order, that a suffix names.
fn suffix_operation(suffix: &[char]) -> (res: Option<Operation>)
    ensures
        res == first_named(suffix@),
{
    let ops = Operation::all();
    for i in 0..3
        invariant
            ops@ == all_operations(),
            forall|j: int| 0 <= j < i ==> !suffix_names(suffix@, #[trigger] all_operations()[j]),
    {
        if suffix_chars_name(suffix, ops[i]) {
            proof {
                if i >= 1 {
                    assert(!suffix_names(suffix@, all_operations()[0]));
                }
                if i >= 2 {
                    assert(!suffix_names(suffix@, all_operations()[1]));
                }
            }
            return Some(ops[i]);
        }
    }
    assert(!suffix_names(suffix@, all_operations()[0]));
    assert(!suffix_names(suffix@, all_operations()[1]));
    assert(!suffix_names(suffix@, all_operations()[2]));
    None
}

/// The operation a trigger name stands for when it is a managed trigger of
/// `table` under `prefix`; `None` for any other name.
pub fn trigger_operation_from_name(prefix: &str, table: &str, trigger_name: &str) -> (res: Option<
    Operation,
>)
    ensures
        res == parsed_operation(prefix@, table@, trigger_name@),
{
    let stem_raw = stem_chars(prefix, table);
    let stem = lower_chars(&stem_raw);
    let name_raw = chars_of(trigger_name);
    let name = lower_chars(&name_raw);
    if !has_prefix(&name, &stem) {
        return None;
    }
    let suffix = chars_from(&name, stem.len());
    suffix_operation(&suffix)
}

/// The operation a listed trigger's name stands for in the coverage
/// report (see `status_operation`): the stem is compared exactly, and a
/// name with the hash suffix counts as well.
pub fn operation_from_trigger_name(prefix: &str, table: &str, trigger_name: &str) -> (res: Option<
    Operation,
>)
    ensures
        res == status_operation(prefix@, table@, trigger_name@),
{
    let stem = stem_chars(prefix, table);
    let name = chars_of(trigger_name);
    if !has_prefix(&name, &stem) {
        return None;
    }
    let suffix = chars_from(&name, stem.len());
    suffix_operation(&suffix)
}

proof fn lemma_words()
    ensures
        "insert"@ == seq!['i', 'n', 's', 'e', 'r', 't'],
        "update"@ == seq!['u', 'p', 'd', 'a', 't', 'e'],
        "delete"@ == seq!['d', 'e', 'l', 'e', 't', 'e'],
        "_"@ == seq!['_'],
{
    reveal_strlit("insert");
    reveal_strlit("update");
    reveal_strlit("delete");
    reveal_strlit("_");
    assert("insert"@ =~= seq!['i', 'n', 's', 'e', 'r', 't']);
    assert("update"@ =~= seq!['u', 'p', 'd', 'a', 't', 'e']);
    assert("delete"@ =~= seq!['d', 'e', 'l', 'e', 't', 'e']);
    assert("_"@ =~= seq!['_']);
}

proof fn lemma_word_lowercase(op: Operation)
    ensures
        lower_seq(op.suffix_text()) == op.suffix_text(),
        op.suffix_text().len() == 6,
{
    lemma_words();
    assert(lower_seq(op.suffix_text()) =~= op.suffix_text());
}

proof fn lemma_first_named_word(op: Operation, rest: Seq<char>)
    requires
        rest.len() == 0 || (rest.len() == 17 && rest[0] == '_' && is_hash_text(rest.skip(1))),
    ensures
        first_named(op.suffix_text() + rest) == Some(op),
{
    lemma_words();
    let s = op.suffix_text() + rest;
    assert(s.take(6) =~= op.suffix_text());
    if rest.len() != 0 {
        assert(s.skip(7) =~= rest.skip(1));
        assert(s[6] == '_');
    } else {
        assert(s =~= op.suffix_text());
    }
    // A different word differs within the first six characters.
    if op != Operation::Insert {
        assert(s[0] != 'i');
        assert(s != Operation::Insert.suffix_text());
        assert(s.take(6) != Operation::Insert.suffix_text());
    }
    if op == Operation::Delete {
        assert(s[0] != 'u');
        assert(s != Operation::Update.suffix_text());
        assert(s.take(6) != Operation::Update.suffix_text());
    }
}

/// Every name the manager gives a trigger is read back as that trigger's
/// operation: `{prefix}_{table}_{operation}` parses to the operation, and so
/// does the older form with `_` and a 16-digit hexadecimal hash appended.
pub proof fn law_trigger_name_round_trip(
    prefix: Seq<char>,
    table: Seq<char>,
    op: Operation,
    hash: Seq<char>,
)
    requires
        hash.len() == 0 || is_hash_text(hash),
    ensures
        parsed_operation(prefix, table, trigger_stem_text(prefix, table, op)) == Some(op),
        is_hash_text(hash) ==> parsed_operation(
            prefix,
            table,
            trigger_stem_text(prefix, table, op) + "_"@ + hash,
        ) == Some(op),
{
    lemma_words();
    lemma_word_lowercase(op);
    let stem = stem_text(prefix, table);
    let name = trigger_stem_text(prefix, table, op);
    assert(lower_seq(name) =~= lower_seq(stem) + op.suffix_text());
    assert(lower_seq(name).take(stem.len() as int) =~= lower_seq(stem));
    assert(lower_seq(name).skip(stem.len() as int) =~= op.suffix_text());
    assert(op.suffix_text() =~= op.suffix_text() + Seq::<char>::empty());
    lemma_first_named_word(op, Seq::empty());
    if is_hash_text(hash) {
        let long_name = name + "_"@ + hash;
        let lowered_hash = lower_seq(hash);
        assert forall|i: int| 0 <= i < lowered_hash.len() implies is_hex_digit(
            #[trigger] lowered_hash[i],
        ) by {
            assert(is_hex_digit(hash[i]));
        }
        let rest = seq!['_'] + lowered_hash;
        assert(rest.skip(1) =~= lowered_hash);
        assert(lower_seq(long_name) =~= lower_seq(stem) + (op.suffix_text() + rest));
        assert(lower_seq(long_name).take(stem.len() as int) =~= lower_seq(stem));
        assert(lower_seq(long_name).skip(stem.len() as int) =~= op.suffix_text() + rest);
        lemma_first_named_word(op, rest);
    }
}

/// No suffix names two operations: the words differ in their first letter.
proof fn lemma_suffix_names_one(suffix: Seq<char>, a: Operation, b: Operation)
    requires
        suffix_names(suffix, a),
        suffix_names(suffix, b),
    ensures
        a == b,
{
    lemma_words();
    assert(suffix.len() >= 6);
    assert(suffix[0] == a.suffix_text()[0]) by {
        if suffix != a.suffix_text() {
            assert(suffix.take(6)[0] == suffix[0]);
        }
    }
    assert(suffix[0] == b.suffix_text()[0]) by {
        if suffix != b.suffix_text() {
            assert(suffix.take(6)[0] == suffix[0]);
        }
    }
}

/// What a suffix after the stem names is what the whole name names.
proof fn lemma_suffix_names_split(stem: Seq<char>, name: Seq<char>, op: Operation)
    ensures
        (stem.len() <= name.len() && name.take(stem.len() as int) == stem && suffix_names(
            name.skip(stem.len() as int),
            op,
        )) <==> names_operation(stem, name, op),
{
    lemma_words();
    let word = op.suffix_text();
    if stem.len() <= name.len() && name.take(stem.len() as int) == stem {
        let suffix = name.skip(stem.len() as int);
        assert(name =~= stem + suffix);
        if suffix == word {
            assert(name == stem + word);
        } else if suffix_names(suffix, op) {
            let hash = suffix.skip(7);
            assert(suffix =~= word + "_"@ + hash) by {
                reveal_strlit("_");
                assert(suffix.take(6) == word);
            }
            assert(name =~= stem + word + "_"@ + hash);
        }
    }
    if names_operation(stem, name, op) {
        if name == stem + word {
            assert(name.take(stem.len() as int) =~= stem);
            assert(name.skip(stem.len() as int) =~= word);
        } else {
            let hash = choose|hash: Seq<char>|
                is_hash_text(hash) && name == stem + word + "_"@ + hash;
            let suffix = word + "_"@ + hash;
            assert(name =~= stem + suffix);
            assert(name.take(stem.len() as int) =~= stem);
            assert(name.skip(stem.len() as int) =~= suffix);
            assert(suffix.take(6) =~= word);
            assert(suffix.skip(7) =~= hash);
            assert(suffix[6] == '_');
        }
    }
}

/// A trigger name is read back as an operation exactly when, ASCII case
/// ignored, it is `{prefix}_{table}_` followed by that operation's word, or
/// by the word, `_` and a 16-digit hexadecimal hash; it is read as no
/// operation exactly when it has neither form for any operation.
pub proof fn law_trigger_name_parsing(
    prefix: Seq<char>,
    table: Seq<char>,
    name: Seq<char>,
    op: Operation,
)
    ensures
        parsed_operation(prefix, table, name) == Some(op) <==> names_operation(
            lower_seq(stem_text(prefix, table)),
            lower_seq(name),
            op,
        ),
        parsed_operation(prefix, table, name) is None <==> forall|o: Operation|
            !#[trigger] names_operation(lower_seq(stem_text(prefix, table)), lower_seq(name), o),
{
    let stem = lower_seq(stem_text(prefix, table));
    let lowered = lower_seq(name);
    lemma_suffix_names_split(stem, lowered, Operation::Insert);
    lemma_suffix_names_split(stem, lowered, Operation::Update);
    lemma_suffix_names_split(stem, lowered, Operation::Delete);
    lemma_suffix_names_split(stem, lowered, op);
    if stem.len() <= lowered.len() && lowered.take(stem.len() as int) == stem {
        let suffix = lowered.skip(stem.len() as int);
        if suffix_names(suffix, op) {
            match first_named(suffix) {
                Some(o) => lemma_suffix_names_one(suffix, o, op),
                None => {},
            }
        }
    }
    assert forall|o: Operation|
        parsed_operation(prefix, table, name) is None implies !#[trigger] names_operation(
            stem,
            lowered,
            o,
        ) by {
        lemma_suffix_names_split(stem, lowered, o);
    }
}

/// The coverage report reads a trigger name as an operation exactly when
/// the name is `{prefix}_{table}_`, letter case included, followed by that
/// operation's word, or by the word, `_` and a 16-digit hexadecimal hash;
/// it reads it as no operation exactly when it has neither form for any
/// operation.
pub proof fn law_status_name_parsing(
    prefix: Seq<char>,
    table: Seq<char>,
    name: Seq<char>,
    op: Operation,
)
    ensures
        status_operation(prefix, table, name) == Some(op) <==> names_operation(
            stem_text(prefix, table),
            name,
            op,
        ),
        status_operation(prefix, table, name) is None <==> forall|o: Operation|
            !#[trigger] names_operation(stem_text(prefix, table), name, o),
{
    let stem = stem_text(prefix, table);
    lemma_suffix_names_split(stem, name, Operation::Insert);
    lemma_suffix_names_split(stem, name, Operation::Update);
    lemma_suffix_names_split(stem, name, Operation::Delete);
    lemma_suffix_names_split(stem, name, op);
    if stem.len() <= name.len() && name.take(stem.len() as int) == stem {
        let suffix = name.skip(stem.len() as int);
        if suffix_names(suffix, op) {
            match first_named(suffix) {
                Some(o) => lemma_suffix_names_one(suffix, o, op),
                None => {},
            }
        }
    }
    assert forall|o: Operation|
        status_operation(prefix, table, name) is None implies !#[trigger] names_operation(
            stem,
            name,
            o,
        ) by {
        lemma_suffix_names_split(stem, name, o);
    }
}

} // verus!
