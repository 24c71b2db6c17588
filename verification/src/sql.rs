//! SQL text: quoting of identifiers and string literals, the
//! `json_object(..)` expression a trigger logs a row with, and the
//! normalisation under which two trigger definitions count as the same.

use vstd::prelude::*;
use vstd::utf8::{encode_scalar, encode_utf8};
use crate::text::{
    ascii_lower, chars_of, is_space, is_whitespace, lower_char, lower_seq, push_char, push_text,
};

verus! {

broadcast use vstd::string::group_string_axioms;

/// `s` with every `q` doubled, as SQL escapes a quote inside a quoted token.
pub open spec fn escape_quotes(s: Seq<char>, q: char) -> Seq<char>
    decreases s.len(),
{
    if s.len() == 0 {
        Seq::empty()
    } else {
        escape_quotes(s.drop_last(), q) + escape_one(s.last(), q)
    }
}

pub open spec fn escape_one(c: char, q: char) -> Seq<char> {
    if c == q {
        seq![q, q]
    } else {
        seq![c]
    }
}

/// `s` between two `q`s, with every `q` inside doubled.
pub open spec fn quoted(s: Seq<char>, q: char) -> Seq<char> {
    seq![q] + escape_quotes(s, q) + seq![q]
}

/// Reads the inside of a quoted token back: a doubled `q` stands for one
/// `q`; a lone `q` makes the text no valid inside.
pub open spec fn unescape_quotes(t: Seq<char>, q: char) -> Option<Seq<char>>
    decreases t.len(),
{
    if t.len() == 0 {
        Some(Seq::empty())
    } else if t[0] == q {
        if t.len() >= 2 && t[1] == q {
            match unescape_quotes(t.skip(2), q) {
                Some(rest) => Some(seq![q] + rest),
                None => None,
            }
        } else {
            None
        }
    } else {
        match unescape_quotes(t.skip(1), q) {
            Some(rest) => Some(seq![t[0]] + rest),
            None => None,
        }
    }
}

/// Reads a whole quoted token back to the text it stands for.
pub open spec fn unquote(t: Seq<char>, q: char) -> Option<Seq<char>> {
    if t.len() >= 2 && t[0] == q && t.last() == q {
        unescape_quotes(t.subrange(1, t.len() - 1), q)
    } else {
        None
    }
}

pub proof fn lemma_escape_append(a: Seq<char>, b: Seq<char>, q: char)
    ensures
        escape_quotes(a + b, q) == escape_quotes(a, q) + escape_quotes(b, q),
    decreases b.len(),
{
    if b.len() == 0 {
        assert(a + b =~= a);
        assert(escape_quotes(b, q) =~= Seq::<char>::empty());
        assert(escape_quotes(a, q) + escape_quotes(b, q) =~= escape_quotes(a, q));
    } else {
        assert((a + b).drop_last() =~= a + b.drop_last());
        assert((a + b).last() == b.last());
        lemma_escape_append(a, b.drop_last(), q);
        assert(escape_quotes(a, q) + escape_quotes(b.drop_last(), q) + escape_one(b.last(), q)
            =~= escape_quotes(a, q) + (escape_quotes(b.drop_last(), q) + escape_one(b.last(), q)));
    }
}

proof fn lemma_unescape_escape(s: Seq<char>, q: char)
    ensures
        unescape_quotes(escape_quotes(s, q), q) == Some(s),
    decreases s.len(),
{
    if s.len() == 0 {
        assert(escape_quotes(s, q) =~= Seq::<char>::empty());
    } else {
        let first = seq![s[0]];
        let rest = s.skip(1);
        assert(s =~= first + rest);
        lemma_escape_append(first, rest, q);
        assert(first.drop_last() =~= Seq::<char>::empty());
        assert(escape_quotes(first.drop_last(), q) =~= Seq::<char>::empty());
        assert(escape_quotes(first, q) =~= escape_one(s[0], q));
        let e = escape_quotes(s, q);
        lemma_unescape_escape(rest, q);
        if s[0] == q {
            assert(e.skip(2) =~= escape_quotes(rest, q));
            assert(seq![q] + rest =~= s);
        } else {
            assert(e.skip(1) =~= escape_quotes(rest, q));
            assert(seq![s[0]] + rest =~= s);
        }
    }
}

/// Quoting round-trips: the token that `quote_ident` (`q` = `"`) or
/// `quote_string` (`q` = `'`) makes of any text reads back as exactly that
/// text, so a quote inside a name can never end the token early.
pub proof fn law_quote_round_trip(s: Seq<char>, q: char)
    ensures
        unquote(quoted(s, q), q) == Some(s),
{
    let t = quoted(s, q);
    assert(t.subrange(1, t.len() - 1) =~= escape_quotes(s, q));
    lemma_unescape_escape(s, q);
}

fn push_escaped(out: &mut String, cs: &[char], q: char)
    ensures
        final(out)@ == old(out)@ + escape_quotes(cs@, q),
{
    let ghost start = out@;
    let n = cs.len();
    for i in 0..n
        invariant
            n == cs@.len(),
            out@ == start + escape_quotes(cs@.take(i as int), q),
    {
        let c = cs[i];
        if c == q {
            push_char(out, q);
            push_char(out, q);
        } else {
            push_char(out, c);
        }
        assert(cs@.take(i + 1).drop_last() =~= cs@.take(i as int));
        assert(start + escape_quotes(cs@.take(i as int), q) + escape_one(c, q) =~= start + (
        escape_quotes(cs@.take(i as int), q) + escape_one(c, q)));
    }
    assert(cs@.take(n as int) =~= cs@);
}

fn quote_with(value: &str, q: char) -> (res: String)
    ensures
        res@ == quoted(value@, q),
{
    let cs = chars_of(value);
    let mut out = String::new();
    push_char(&mut out, q);
    push_escaped(&mut out, &cs, q);
    push_char(&mut out, q);
    assert(seq![q] + escape_quotes(value@, q) + seq![q] =~= Seq::<char>::empty().push(q)
        + escape_quotes(value@, q) + seq![q]);
    assert(Seq::<char>::empty().push(q) + escape_quotes(value@, q) + seq![q] =~= (
    Seq::<char>::empty().push(q) + escape_quotes(value@, q)).push(q));
    out
}

/// A SQL identifier in double quotes, inner double quotes doubled.
pub fn quote_ident(value: &str) -> (res: String)
    ensures
        res@ == quoted(value@, '"'),
{
    quote_with(value, '"')
}

/// A SQL string literal in single quotes, inner single quotes doubled.
pub fn quote_string(value: &str) -> (res: String)
    ensures
        res@ == quoted(value@, '\''),
{
    quote_with(value, '\'')
}

/// `items` joined with `sep` between neighbours.
pub open spec fn join(items: Seq<Seq<char>>, sep: Seq<char>) -> Seq<char>
    decreases items.len(),
{
    if items.len() == 0 {
        Seq::empty()
    } else if items.len() == 1 {
        items[0]
    } else {
        join(items.drop_last(), sep) + sep + items.last()
    }
}

/// One `'name', ALIAS."name"` pair of a `json_object(..)` call.
pub open spec fn json_entry(alias: Seq<char>, column: Seq<char>) -> Seq<char> {
    quoted(column, '\'') + ", "@ + alias + "."@ + quoted(column, '"')
}

pub open spec fn json_entries(alias: Seq<char>, columns: Seq<String>) -> Seq<Seq<char>> {
    columns.map_values(|c: String| json_entry(alias, c@))
}

/// `json_object('c1', ALIAS."c1", 'c2', ALIAS."c2", ..)` over the columns.
pub open spec fn json_object_text(alias: Seq<char>, columns: Seq<String>) -> Seq<char> {
    "json_object("@ + join(json_entries(alias, columns), ", "@) + ")"@
}

/// The SQL expression that captures the columns of the `alias` row
/// (`OLD` or `NEW`) as a JSON object keyed by column name.
pub fn json_object_expr(alias: &str, columns: &[String]) -> (res: String)
    ensures
        res@ == json_object_text(alias@, columns@),
{
    let mut out = String::new();
    push_text(&mut out, "json_object(");
    let ghost start = out@;
    let n = columns.len();
    for i in 0..n
        invariant
            n == columns@.len(),
            out@ == start + join(json_entries(alias@, columns@.take(i as int)), ", "@),
    {
        let ghost before = out@;
        if i > 0 {
            push_text(&mut out, ", ");
        }
        let column: &str = columns[i].as_str();
        let name = quote_string(column);
        push_text(&mut out, name.as_str());
        push_text(&mut out, ", ");
        push_text(&mut out, alias);
        push_text(&mut out, ".");
        let ident = quote_ident(column);
        push_text(&mut out, ident.as_str());
        let ghost prev = json_entries(alias@, columns@.take(i as int));
        let ghost next = json_entries(alias@, columns@.take(i + 1));
        assert(next.drop_last() =~= prev);
        assert(next.last() == json_entry(alias@, columns@[i as int]@));
        if i == 0 {
            assert(prev =~= Seq::<Seq<char>>::empty());
            assert(next.len() == 1);
            assert(out@ =~= start + json_entry(alias@, columns@[i as int]@));
        } else {
            assert(out@ =~= start + (join(prev, ", "@) + ", "@ + json_entry(
                alias@,
                columns@[i as int]@,
            )));
        }
    }
    assert(columns@.take(n as int) =~= columns@);
    push_text(&mut out, ")");
    out
}

// ---------------------------------------------------------------------
// Normalisation
// ---------------------------------------------------------------------

/// The scanner's state: inside a single-quoted literal, inside a
/// double-quoted identifier, and whether the last character seen was white
/// space.
pub struct ScanState {
    pub single: bool,
    pub double: bool,
    pub after_space: bool,
}

pub open spec fn scan_start() -> ScanState {
    ScanState { single: false, double: false, after_space: false }
}

/// One character through the scanner: the next state and what it writes.
/// A quote toggles its mode unless it stands inside the other kind of
/// quote; a run of white space becomes one space; any other character is
/// lower-cased outside single-quoted literals.
pub open spec fn scan_step(st: ScanState, c: char) -> (ScanState, Seq<char>) {
    if c == '\'' && !st.double {
        (ScanState { single: !st.single, double: st.double, after_space: false }, seq![c])
    } else if c == '"' && !st.single {
        (ScanState { single: st.single, double: !st.double, after_space: false }, seq![c])
    } else if is_space(c) {
        if !st.after_space {
            (ScanState { single: st.single, double: st.double, after_space: true }, seq![' '])
        } else {
            (st, Seq::empty())
        }
    } else {
        (
            ScanState { single: st.single, double: st.double, after_space: false },
            seq![if st.single { c } else { lower_char(c) }],
        )
    }
}

/// The scanner run over a whole text.
pub open spec fn scan(s: Seq<char>) -> (ScanState, Seq<char>)
    decreases s.len(),
{
    if s.len() == 0 {
        (scan_start(), Seq::empty())
    } else {
        let (st, out) = scan(s.drop_last());
        let (st2, piece) = scan_step(st, s.last());
        (st2, out + piece)
    }
}

/// `s` without its trailing run of `c` (`str::trim_end_matches`).
pub open spec fn strip_end(s: Seq<char>, c: char) -> Seq<char>
    decreases s.len(),
{
    if s.len() > 0 && s.last() == c {
        strip_end(s.drop_last(), c)
    } else {
        s
    }
}

/// `s` without trailing white space.
pub open spec fn trim_end(s: Seq<char>) -> Seq<char>
    decreases s.len(),
{
    if s.len() > 0 && is_space(s.last()) {
        trim_end(s.drop_last())
    } else {
        s
    }
}

/// `s` without leading white space.
pub open spec fn trim_start(s: Seq<char>) -> Seq<char>
    decreases s.len(),
{
    if s.len() > 0 && is_space(s[0]) {
        trim_start(s.skip(1))
    } else {
        s
    }
}

/// `s` without leading and trailing white space (`str::trim`).
pub open spec fn trim(s: Seq<char>) -> Seq<char> {
    trim_start(trim_end(s))
}

/// The normal form of a SQL text: trailing `;`s dropped, white space runs
/// collapsed to one space, everything outside single-quoted literals
/// lower-cased, and the ends trimmed.
pub open spec fn normalized(s: Seq<char>) -> Seq<char> {
    trim(scan(strip_end(s, ';')).1)
}

proof fn lemma_strip_end_prefix(s: Seq<char>, c: char, i: int)
    requires
        0 <= i <= s.len(),
        forall|j: int| i <= j < s.len() ==> s[j] == c,
    ensures
        strip_end(s, c) == strip_end(s.take(i), c),
    decreases s.len() - i,
{
    if i < s.len() {
        assert(s.drop_last() =~= s.take(s.len() - 1));
        lemma_strip_end_prefix(s.take(s.len() - 1), c, i);
        assert(s.take(s.len() - 1).take(i) =~= s.take(i));
    } else {
        assert(s.take(i) =~= s);
    }
}

proof fn lemma_trim_end_prefix(s: Seq<char>, i: int)
    requires
        0 <= i <= s.len(),
        forall|j: int| i <= j < s.len() ==> is_space(s[j]),
    ensures
        trim_end(s) == trim_end(s.take(i)),
    decreases s.len() - i,
{
    if i < s.len() {
        assert(s.drop_last() =~= s.take(s.len() - 1));
        lemma_trim_end_prefix(s.take(s.len() - 1), i);
        assert(s.take(s.len() - 1).take(i) =~= s.take(i));
    } else {
        assert(s.take(i) =~= s);
    }
}

proof fn lemma_trim_start_suffix(s: Seq<char>, i: int)
    requires
        0 <= i <= s.len(),
        forall|j: int| 0 <= j < i ==> is_space(s[j]),
    ensures
        trim_start(s) == trim_start(s.skip(i)),
    decreases i,
{
    if i > 0 {
        lemma_trim_start_suffix(s.skip(1), i - 1);
        assert(s.skip(1).skip(i - 1) =~= s.skip(i));
    } else {
        assert(s.skip(0) =~= s);
    }
}

/// The normal form of a SQL text (see `normalized`).
pub fn normalize_sql(sql: &str) -> (res: String)
    ensures
        res@ == normalized(sql@),
{
    let cs = chars_of(sql);
    // Drop the trailing run of `;`.
    let mut end: usize = cs.len();
    while end > 0 && cs[end - 1] == ';'
        invariant
            end <= cs@.len(),
            forall|j: int| end <= j < cs@.len() ==> cs@[j] == ';',
        decreases end,
    {
        end = end - 1;
    }
    proof {
        lemma_strip_end_prefix(cs@, ';', end as int);
        assert(cs@.take(end as int).len() == 0 || cs@.take(end as int).last() != ';');
    }
    let ghost body = cs@.take(end as int);
    assert(strip_end(sql@, ';') == body);

    let mut out: Vec<char> = Vec::new();
    let mut single = false;
    let mut double = false;
    let mut after_space = false;
    let mut i: usize = 0;
    while i < end
        invariant
            end <= cs@.len(),
            i <= end,
            body == cs@.take(end as int),
            scan(body.take(i as int)) == (
            ScanState { single: single, double: double, after_space: after_space },
            out@),
        decreases end - i,
    {
        let c = cs[i];
        let ghost st = ScanState { single: single, double: double, after_space: after_space };
        let ghost before = out@;
        if c == '\'' && !double {
            single = !single;
            out.push(c);
            after_space = false;
        } else if c == '"' && !single {
            double = !double;
            out.push(c);
            after_space = false;
        } else if is_whitespace(c) {
            if !after_space {
                out.push(' ');
                after_space = true;
            }
        } else {
            let d = if single {
                c
            } else {
                ascii_lower(c)
            };
            out.push(d);
            after_space = false;
        }
        proof {
            let t = body.take(i + 1);
            assert(t.drop_last() =~= body.take(i as int));
            assert(t.last() == c);
            let (st2, piece) = scan_step(st, c);
            assert(out@ =~= before + piece);
        }
        i = i + 1;
    }
    assert(body.take(end as int) =~= body);
    let ghost scanned = out@;
    assert(scan(strip_end(sql@, ';')).1 == scanned);

    // Trim white space at both ends.
    let mut hi: usize = out.len();
    while hi > 0 && is_whitespace(out[hi - 1])
        invariant
            hi <= out@.len(),
            out@ == scanned,
            forall|j: int| hi <= j < out@.len() ==> is_space(out@[j]),
        decreases hi,
    {
        hi = hi - 1;
    }
    proof {
        lemma_trim_end_prefix(scanned, hi as int);
        let p = scanned.take(hi as int);
        assert(p.len() == 0 || !is_space(p.last()));
        assert(trim_end(p) == p);
    }
    let mut lo: usize = 0;
    while lo < hi && is_whitespace(out[lo])
        invariant
            lo <= hi,
            hi <= out@.len(),
            out@ == scanned,
            forall|j: int| 0 <= j < lo ==> is_space(out@[j]),
        decreases hi - lo,
    {
        lo = lo + 1;
    }
    let ghost p = scanned.take(hi as int);
    proof {
        lemma_trim_start_suffix(p, lo as int);
        let r = p.skip(lo as int);
        assert(r.len() == 0 || !is_space(r[0]));
        assert(trim_start(r) == r);
        assert(r =~= scanned.subrange(lo as int, hi as int));
    }
    let mut res = String::new();
    let mut k: usize = lo;
    while k < hi
        invariant
            lo <= k <= hi,
            hi <= out@.len(),
            res@ == out@.subrange(lo as int, k as int),
        decreases hi - k,
    {
        push_char(&mut res, out[k]);
        assert(out@.subrange(lo as int, k + 1) =~= out@.subrange(lo as int, k as int).push(
            out@[k as int],
        ));
        k = k + 1;
    }
    res
}

/// Whether two SQL texts have the same normal form.
pub fn sql_matches(left: &str, right: &str) -> (res: bool)
    ensures
        res == (normalized(left@) == normalized(right@)),
{
    let a = normalize_sql(left);
    let b = normalize_sql(right);
    a == b
}

/// Matching is an equivalence: every text matches itself, matching is
/// symmetric, and two texts that match a third match each other.
pub proof fn law_sql_matching_is_equivalence(a: Seq<char>, b: Seq<char>, c: Seq<char>)
    ensures
        normalized(a) == normalized(a),
        (normalized(a) == normalized(b)) == (normalized(b) == normalized(a)),
        (normalized(a) == normalized(b) && normalized(b) == normalized(c)) ==> normalized(a)
            == normalized(c),
{
}

/// White space appears only as single ` ` characters.
pub open spec fn single_spaced(s: Seq<char>) -> bool {
    &&& forall|i: int| 0 <= i < s.len() && is_space(#[trigger] s[i]) ==> s[i] == ' '
    &&& forall|i: int| 0 <= i < s.len() - 1 ==> !(#[trigger] s[i] == ' ' && s[i + 1] == ' ')
}

proof fn lemma_scan_shape(s: Seq<char>)
    ensures
        single_spaced(scan(s).1),
        scan(s).0.after_space <==> (scan(s).1.len() > 0 && scan(s).1.last() == ' '),
    decreases s.len(),
{
    if s.len() > 0 {
        lemma_scan_shape(s.drop_last());
        let (st, out) = scan(s.drop_last());
        let c = s.last();
        let (st2, piece) = scan_step(st, c);
        let next = out + piece;
        assert(scan(s).1 == next);
        if piece.len() == 1 {
            assert(next.last() == piece[0]);
            assert forall|i: int| 0 <= i < next.len() && is_space(#[trigger] next[i]) implies next[i]
                == ' ' by {
                if i < out.len() {
                    assert(next[i] == out[i]);
                } else {
                    assert(next[i] == piece[0]);
                }
            }
            assert forall|i: int| 0 <= i < next.len() - 1 implies !(#[trigger] next[i] == ' '
                && next[i + 1] == ' ') by {
                assert(next[i] == out[i]);
                if i + 1 < out.len() {
                    assert(next[i + 1] == out[i + 1]);
                } else {
                    assert(next[i + 1] == piece[0]);
                }
            }
        } else {
            assert(next =~= out);
        }
    }
}

proof fn lemma_trim_end_take(x: Seq<char>)
    ensures
        exists|k: int|
            0 <= k <= x.len() && trim_end(x) == x.take(k) && (k == 0 || !is_space(x[k - 1])),
    decreases x.len(),
{
    if x.len() > 0 && is_space(x.last()) {
        lemma_trim_end_take(x.drop_last());
        let k = choose|k: int|
            0 <= k <= x.drop_last().len() && trim_end(x.drop_last()) == x.drop_last().take(k) && (
            k == 0 || !is_space(x.drop_last()[k - 1]));
        assert(x.drop_last().take(k) =~= x.take(k));
        if k > 0 {
            assert(x.drop_last()[k - 1] == x[k - 1]);
        }
    } else {
        assert(x.take(x.len() as int) =~= x);
        if x.len() > 0 {
            assert(x[x.len() - 1] == x.last());
        }
    }
}

proof fn lemma_trim_start_skip(y: Seq<char>)
    ensures
        exists|j: int|
            0 <= j <= y.len() && trim_start(y) == y.skip(j) && (j == y.len() || !is_space(y[j])),
    decreases y.len(),
{
    if y.len() > 0 && is_space(y[0]) {
        lemma_trim_start_skip(y.skip(1));
        let j = choose|j: int|
            0 <= j <= y.skip(1).len() && trim_start(y.skip(1)) == y.skip(1).skip(j) && (j == y.skip(
                1,
            ).len() || !is_space(y.skip(1)[j]));
        assert(y.skip(1).skip(j) =~= y.skip(j + 1));
        if j < y.skip(1).len() {
            assert(y.skip(1)[j] == y[j + 1]);
        }
    } else {
        assert(y.skip(0) =~= y);
    }
}

/// The normal form's shape: it neither starts nor ends with white space,
/// and inside it every run of white space is one plain space.
pub proof fn law_normal_form_is_single_spaced(s: Seq<char>)
    ensures
        single_spaced(normalized(s)),
        normalized(s).len() > 0 ==> !is_space(normalized(s)[0]) && !is_space(normalized(s).last()),
{
    let x = scan(strip_end(s, ';')).1;
    lemma_scan_shape(strip_end(s, ';'));
    lemma_trim_end_take(x);
    let k = choose|k: int|
        0 <= k <= x.len() && trim_end(x) == x.take(k) && (k == 0 || !is_space(x[k - 1]));
    let y = x.take(k);
    lemma_trim_start_skip(y);
    let j = choose|j: int| 0 <= j <= y.len() && trim_start(y) == y.skip(j) && (j == y.len() || !is_space(y[j]));
    let r = y.skip(j);
    assert(normalized(s) == r);
    assert forall|i: int| 0 <= i < r.len() && is_space(#[trigger] r[i]) implies r[i] == ' ' by {
        assert(r[i] == x[i + j]);
    }
    assert forall|i: int| 0 <= i < r.len() - 1 implies !(#[trigger] r[i] == ' ' && r[i + 1] == ' ') by {
        assert(r[i] == x[i + j]);
        assert(r[i + 1] == x[i + j + 1]);
    }
    if r.len() > 0 {
        assert(r[0] == y[j]);
        assert(r.last() == x[k - 1]);
    }
}

proof fn lemma_strip_end_lower(s: Seq<char>)
    ensures
        strip_end(lower_seq(s), ';') == lower_seq(strip_end(s, ';')),
    decreases s.len(),
{
    if s.len() > 0 {
        assert(lower_seq(s).drop_last() =~= lower_seq(s.drop_last()));
        lemma_strip_end_lower(s.drop_last());
    } else {
        assert(lower_seq(s) =~= Seq::<char>::empty());
    }
}

proof fn lemma_scan_lower(s: Seq<char>)
    requires
        !s.contains('\''),
    ensures
        scan(lower_seq(s)) == scan(s),
        !scan(s).0.single,
    decreases s.len(),
{
    if s.len() > 0 {
        assert(lower_seq(s).drop_last() =~= lower_seq(s.drop_last()));
        assert(!s.drop_last().contains('\'')) by {
            if s.drop_last().contains('\'') {
                let k = choose|k: int| 0 <= k < s.drop_last().len() && s.drop_last()[k] == '\'';
                assert(s[k] == '\'');
            }
        }
        lemma_scan_lower(s.drop_last());
        assert(s.last() == s[s.len() - 1]);
        assert(lower_seq(s).last() == lower_char(s.last()));
    }
}

/// Letter case does not matter outside string literals: a SQL text with no
/// single-quoted literal has the same normal form as its lower-cased form,
/// so the two match.
pub proof fn law_case_insensitive_outside_literals(s: Seq<char>)
    requires
        !s.contains('\''),
    ensures
        normalized(lower_seq(s)) == normalized(s),
{
    lemma_strip_end_lower(s);
    let t = strip_end(s, ';');
    assert(!t.contains('\'')) by {
        lemma_strip_end_prefix_of(s);
        if t.contains('\'') {
            let k = choose|k: int| 0 <= k < t.len() && t[k] == '\'';
            assert(s[k] == '\'');
        }
    }
    lemma_scan_lower(t);
}

proof fn lemma_strip_end_prefix_of(s: Seq<char>)
    ensures
        strip_end(s, ';').len() <= s.len(),
        forall|k: int| 0 <= k < strip_end(s, ';').len() ==> #[trigger] strip_end(s, ';')[k] == s[k],
    decreases s.len(),
{
    if s.len() > 0 && s.last() == ';' {
        lemma_strip_end_prefix_of(s.drop_last());
    }
}

/// The scanner run over `s` from the state `st`.
pub open spec fn scan_from(st: ScanState, s: Seq<char>) -> (ScanState, Seq<char>)
    decreases s.len(),
{
    if s.len() == 0 {
        (st, Seq::empty())
    } else {
        let (st1, out) = scan_from(st, s.drop_last());
        let (st2, piece) = scan_step(st1, s.last());
        (st2, out + piece)
    }
}

proof fn lemma_scan_is_scan_from(s: Seq<char>)
    ensures
        scan(s) == scan_from(scan_start(), s),
    decreases s.len(),
{
    if s.len() > 0 {
        lemma_scan_is_scan_from(s.drop_last());
    }
}

/// Scanning a concatenation scans the second part from the state the first
/// part ends in.
proof fn lemma_scan_from_append(st: ScanState, x: Seq<char>, y: Seq<char>)
    ensures
        scan_from(st, x + y) == (
            scan_from(scan_from(st, x).0, y).0,
            scan_from(st, x).1 + scan_from(scan_from(st, x).0, y).1,
        ),
    decreases y.len(),
{
    if y.len() == 0 {
        assert(x + y =~= x);
        assert(scan_from(st, x).1 + Seq::<char>::empty() =~= scan_from(st, x).1);
    } else {
        assert((x + y).drop_last() =~= x + y.drop_last());
        assert((x + y).last() == y.last());
        lemma_scan_from_append(st, x, y.drop_last());
        let s1 = scan_from(st, x);
        let s2 = scan_from(s1.0, y.drop_last());
        let (s3, piece) = scan_step(s2.0, y.last());
        assert(s1.1 + s2.1 + piece =~= s1.1 + (s2.1 + piece));
    }
}

/// Every character of `w` is white space.
pub open spec fn all_space(w: Seq<char>) -> bool {
    forall|i: int| 0 <= i < w.len() ==> is_space(#[trigger] w[i])
}

/// A run of white space leaves the quote modes alone, ends after white
/// space, and writes one space unless the scanner already stood after one.
proof fn lemma_scan_space_run(st: ScanState, w: Seq<char>)
    requires
        w.len() > 0,
        all_space(w),
    ensures
        scan_from(st, w) == (
            ScanState { single: st.single, double: st.double, after_space: true },
            if st.after_space {
                Seq::<char>::empty()
            } else {
                seq![' ']
            },
        ),
    decreases w.len(),
{
    let d = w.drop_last();
    assert(is_space(w[w.len() - 1]));
    assert(w.last() == w[w.len() - 1]);
    if d.len() == 0 {
        assert(scan_from(st, d) == (st, Seq::<char>::empty()));
        assert(Seq::<char>::empty() + seq![' '] =~= seq![' ']);
        assert(Seq::<char>::empty() + Seq::<char>::empty() =~= Seq::<char>::empty());
    } else {
        assert forall|i: int| 0 <= i < d.len() implies is_space(#[trigger] d[i]) by {
            assert(d[i] == w[i]);
        }
        lemma_scan_space_run(st, d);
        let out = scan_from(st, d).1;
        assert(out + Seq::<char>::empty() =~= out);
    }
}

proof fn lemma_strip_end_append(x: Seq<char>, y: Seq<char>)
    requires
        exists|i: int| 0 <= i < y.len() && y[i] != ';',
    ensures
        strip_end(x + y, ';') == x + strip_end(y, ';'),
    decreases y.len(),
{
    let i = choose|i: int| 0 <= i < y.len() && y[i] != ';';
    assert((x + y).drop_last() =~= x + y.drop_last());
    assert((x + y).last() == y.last());
    if y.last() == ';' {
        assert(i < y.len() - 1);
        assert(y.drop_last()[i] == y[i]);
        lemma_strip_end_append(x, y.drop_last());
    }
}

proof fn lemma_strip_end_all_semicolons(x: Seq<char>, y: Seq<char>)
    requires
        forall|i: int| 0 <= i < y.len() ==> y[i] == ';',
    ensures
        strip_end(x + y, ';') == strip_end(x, ';'),
{
    lemma_strip_end_prefix(x + y, ';', x.len() as int);
    assert((x + y).take(x.len() as int) =~= x);
}

/// The layout of white space never changes the normal form: replacing one
/// non-empty run of white space by another leaves it as it was.
pub proof fn law_space_layout_irrelevant(
    a: Seq<char>,
    w1: Seq<char>,
    w2: Seq<char>,
    b: Seq<char>,
)
    requires
        w1.len() > 0,
        w2.len() > 0,
        all_space(w1),
        all_space(w2),
    ensures
        normalized(a + w1 + b) == normalized(a + w2 + b),
{
    let st = scan_from(scan_start(), a).0;
    lemma_scan_space_run(st, w1);
    lemma_scan_space_run(st, w2);
    lemma_scan_from_append(scan_start(), a, w1);
    lemma_scan_from_append(scan_start(), a, w2);
    assert(is_space(w1[w1.len() - 1]));
    assert(is_space(w2[w2.len() - 1]));
    assert((a + w1).last() == w1[w1.len() - 1]);
    assert((a + w2).last() == w2[w2.len() - 1]);
    if exists|i: int| 0 <= i < b.len() && b[i] != ';' {
        lemma_strip_end_append(a + w1, b);
        lemma_strip_end_append(a + w2, b);
        let t = strip_end(b, ';');
        lemma_scan_is_scan_from(a + w1 + t);
        lemma_scan_is_scan_from(a + w2 + t);
        lemma_scan_from_append(scan_start(), a + w1, t);
        lemma_scan_from_append(scan_start(), a + w2, t);
    } else {
        lemma_strip_end_all_semicolons(a + w1, b);
        lemma_strip_end_all_semicolons(a + w2, b);
        lemma_scan_is_scan_from(a + w1);
        lemma_scan_is_scan_from(a + w2);
    }
}

/// A trailing `;` never changes the normal form.
pub proof fn law_trailing_semicolon_irrelevant(s: Seq<char>)
    ensures
        normalized(s + ";"@) == normalized(s),
{
    reveal_strlit(";");
    let t = s + ";"@;
    assert(t.drop_last() =~= s);
    assert(t.last() == ';');
}

proof fn lemma_encode_append(x: Seq<char>, y: Seq<char>)
    ensures
        encode_utf8(x + y).len() == encode_utf8(x).len() + encode_utf8(y).len(),
    decreases x.len(),
{
    if x.len() > 0 {
        assert((x + y)[0] == x[0]);
        assert((x + y).drop_first() =~= x.drop_first() + y);
        lemma_encode_append(x.drop_first(), y);
    } else {
        assert(x + y =~= y);
    }
}

proof fn lemma_encode_one(c: char)
    ensures
        encode_utf8(seq![c]).len() == encode_scalar(c as u32).len(),
        encode_scalar(c as u32).len() >= 1,
{
    assert(seq![c].drop_first() =~= Seq::<char>::empty());
    assert(seq![c][0] == c);
    assert(encode_utf8(Seq::<char>::empty()) =~= Seq::<u8>::empty());
    assert(encode_utf8(seq![c]) =~= encode_scalar(c as u32));
}

/// What one scanner step writes takes no more UTF-8 bytes than the
/// character it read.
proof fn lemma_scan_step_bytes(st: ScanState, c: char)
    ensures
        encode_utf8(scan_step(st, c).1).len() <= encode_utf8(seq![c]).len(),
        scan_step(st, c).1.len() <= 1,
{
    lemma_encode_one(c);
    let piece = scan_step(st, c).1;
    if piece.len() == 1 {
        lemma_encode_one(piece[0]);
        assert(piece =~= seq![piece[0]]);
        if piece[0] != c {
            assert('A' <= c && c <= 'Z' || piece[0] == ' ');
        }
    } else {
        assert(piece =~= Seq::<char>::empty());
    }
}

proof fn lemma_scan_bytes(s: Seq<char>)
    ensures
        encode_utf8(scan(s).1).len() <= encode_utf8(s).len(),
        scan(s).1.len() <= s.len(),
    decreases s.len(),
{
    if s.len() > 0 {
        let d = s.drop_last();
        lemma_scan_bytes(d);
        let (st, out) = scan(d);
        lemma_scan_step_bytes(st, s.last());
        lemma_encode_append(out, scan_step(st, s.last()).1);
        assert(s =~= d + seq![s.last()]);
        lemma_encode_append(d, seq![s.last()]);
    }
}

proof fn lemma_take_skip_bytes(x: Seq<char>, k: int, j: int)
    requires
        0 <= k <= x.len(),
        0 <= j <= k,
    ensures
        encode_utf8(x.take(k).skip(j)).len() <= encode_utf8(x).len(),
{
    assert(x =~= x.take(k) + x.skip(k));
    lemma_encode_append(x.take(k), x.skip(k));
    assert(x.take(k) =~= x.take(k).take(j) + x.take(k).skip(j));
    lemma_encode_append(x.take(k).take(j), x.take(k).skip(j));
}

/// Normalising never lengthens a text, counted in characters or in UTF-8
/// bytes.
pub proof fn law_normal_form_no_longer(s: Seq<char>)
    ensures
        normalized(s).len() <= s.len(),
        encode_utf8(normalized(s)).len() <= encode_utf8(s).len(),
{
    let t = strip_end(s, ';');
    lemma_strip_end_prefix_of(s);
    assert(t =~= s.take(t.len() as int));
    lemma_take_skip_bytes(s, t.len() as int, 0);
    assert(s.take(t.len() as int).skip(0) =~= t);
    lemma_scan_bytes(t);
    let x = scan(t).1;
    lemma_trim_end_take(x);
    let k = choose|k: int|
        0 <= k <= x.len() && trim_end(x) == x.take(k) && (k == 0 || !is_space(x[k - 1]));
    let y = x.take(k);
    lemma_trim_start_skip(y);
    let j = choose|j: int|
        0 <= j <= y.len() && trim_start(y) == y.skip(j) && (j == y.len() || !is_space(y[j]));
    assert(normalized(s) == x.take(k).skip(j));
    lemma_take_skip_bytes(x, k, j);
}

} // verus!
