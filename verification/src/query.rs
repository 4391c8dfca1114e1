//! A minimal query grammar over the card index: `field:value` predicates
//! joined by `AND` / `OR`. Field names are checked against the index
//! columns, so a query can never inject SQL; values are always bound as
//! parameters. Parentheses and `NOT` are out of scope; mixed `AND`/`OR`
//! follow SQL precedence (`AND` binds tighter).

use vstd::prelude::*;

use crate::text::{
    ascii_upper, ascii_upper_char, chars_of, decimal, is_white_space, is_white_space_char,
    push_char, push_decimal, str_eq, string_from_range,
};
use crate::{Error, Result};

verus! {

/// Index columns that may appear as a query field.
pub open spec fn columns() -> Seq<Seq<char>> {
    seq![
        "slug"@,
        "id"@,
        "title"@,
        "type"@,
        "created"@,
        "priority"@,
        "phase"@,
        "building_status"@,
        "planning_status"@,
        "waypoint_status"@,
        "adr_number"@,
        "phase_number"@,
    ]
}

/// Whether `f` names an index column.
pub open spec fn is_column(f: Seq<char>) -> bool {
    columns().contains(f)
}

/// The whitespace-separated tokens of `s`, continuing a token `cur` already begun.
pub open spec fn tokens_from(s: Seq<char>, cur: Seq<char>) -> Seq<Seq<char>>
    decreases s.len(),
{
    if s.len() == 0 {
        if cur.len() > 0 {
            seq![cur]
        } else {
            Seq::empty()
        }
    } else if is_white_space(s[0]) {
        (if cur.len() > 0 {
            seq![cur]
        } else {
            Seq::empty()
        }) + tokens_from(s.drop_first(), Seq::empty())
    } else {
        tokens_from(s.drop_first(), cur.push(s[0]))
    }
}

/// `str::split_whitespace`: the maximal runs of non-whitespace characters.
pub open spec fn whitespace_tokens(s: Seq<char>) -> Seq<Seq<char>> {
    tokens_from(s, Seq::empty())
}

/// The first index at or after `i` of a `':'` in `t`.
pub open spec fn colon_from(t: Seq<char>, i: int) -> Option<int>
    decreases t.len() - i,
{
    if i < 0 || i >= t.len() {
        None
    } else if t[i] == ':' {
        Some(i)
    } else {
        colon_from(t, i + 1)
    }
}

/// ASCII upper-casing of a token.
pub open spec fn upper_seq(t: Seq<char>) -> Seq<char> {
    t.map_values(|c: char| ascii_upper(c))
}

/// The clause part for the `n`-th predicate: `field = ?n`.
pub open spec fn predicate_part(field: Seq<char>, n: nat) -> Seq<char> {
    field + " = ?"@ + decimal(n)
}

/// Compilation of the tokens from `i` on, given the parts and values so far.
pub open spec fn compile_from(
    toks: Seq<Seq<char>>,
    i: int,
    expect_predicate: bool,
    parts: Seq<Seq<char>>,
    values: Seq<Seq<char>>,
) -> std::result::Result<(Seq<Seq<char>>, Seq<Seq<char>>), Seq<char>>
    decreases toks.len() - i,
{
    if i < 0 || i >= toks.len() {
        if expect_predicate {
            Err("query ends with a connector"@)
        } else {
            Ok((parts, values))
        }
    } else if expect_predicate {
        let tok = toks[i];
        match colon_from(tok, 0) {
            None => Err("expected `field:value`, got `"@ + tok + "`"@),
            Some(k) => {
                let field = tok.take(k);
                if !is_column(field) {
                    Err("unknown field `"@ + field + "`"@)
                } else {
                    compile_from(
                        toks,
                        i + 1,
                        false,
                        parts.push(predicate_part(field, (values.len() + 1) as nat)),
                        values.push(tok.skip(k + 1)),
                    )
                }
            },
        }
    } else {
        let up = upper_seq(toks[i]);
        if up != "AND"@ && up != "OR"@ {
            Err("expected AND/OR, got `"@ + toks[i] + "`"@)
        } else {
            compile_from(toks, i + 1, true, parts.push(up), values)
        }
    }
}

/// The parts joined by single spaces.
pub open spec fn join_spaces(p: Seq<Seq<char>>) -> Seq<char>
    decreases p.len(),
{
    if p.len() == 0 {
        Seq::empty()
    } else if p.len() == 1 {
        p[0]
    } else {
        join_spaces(p.drop_last()) + " "@ + p.last()
    }
}

/// What `compile` yields for `expr`: the `WHERE` clause and its bound values,
/// or the message of the `Query` error.
pub open spec fn compile_spec(expr: Seq<char>) -> std::result::Result<(Seq<char>, Seq<Seq<char>>), Seq<char>> {
    let toks = whitespace_tokens(expr);
    if toks.len() == 0 {
        Err("empty query"@)
    } else {
        match compile_from(toks, 0, true, Seq::empty(), Seq::empty()) {
            Ok((parts, values)) => Ok((join_spaces(parts), values)),
            Err(m) => Err(m),
        }
    }
}

/// Split `cs` at whitespace (`str::split_whitespace`).
pub fn split_whitespace(cs: &Vec<char>) -> (toks: Vec<String>)
    ensures
        toks.deep_view() == whitespace_tokens(cs@),
{
    let mut toks: Vec<String> = Vec::new();
    let mut cur = String::new();
    let mut i: usize = 0;
    assert(cs@.skip(0) =~= cs@);
    while i < cs.len()
        invariant
            i <= cs.len(),
            toks.deep_view() + tokens_from(cs@.skip(i as int), cur@) == whitespace_tokens(cs@),
        decreases cs.len() - i,
    {
        let c = cs[i];
        let ghost old_toks = toks.deep_view();
        let ghost old_cur = cur@;
        assert(cs@.skip(i as int).drop_first() =~= cs@.skip(i + 1));
        if is_white_space_char(c) {
            if !cur.as_str().is_empty() {
                let done = cur;
                toks.push(done);
                cur = String::new();
                assert(toks.deep_view() =~= old_toks.push(old_cur));
                assert(old_toks + (seq![old_cur] + tokens_from(cs@.skip(i + 1), cur@)) =~= toks.deep_view()
                    + tokens_from(cs@.skip(i + 1), cur@));
            } else {
                cur = String::new();
                assert(old_cur =~= cur@);
                assert(Seq::<Seq<char>>::empty() + tokens_from(cs@.skip(i + 1), cur@) =~= tokens_from(
                    cs@.skip(i + 1),
                    cur@,
                ));
            }
        } else {
            push_char(&mut cur, c);
        }
        i = i + 1;
    }
    assert(cs@.skip(i as int) =~= Seq::<char>::empty());
    if !cur.as_str().is_empty() {
        let ghost old_toks = toks.deep_view();
        let ghost old_cur = cur@;
        toks.push(cur);
        assert(toks.deep_view() =~= old_toks.push(old_cur));
        assert(old_toks + seq![old_cur] =~= toks.deep_view());
    } else {
        assert(toks.deep_view() + Seq::<Seq<char>>::empty() =~= toks.deep_view());
    }
    toks
}

} // verus!

verus! {

/// The index of the first `':'` in `cs`.
fn find_colon(cs: &Vec<char>) -> (r: Option<usize>)
    ensures
        match r {
            None => colon_from(cs@, 0) is None,
            Some(k) => colon_from(cs@, 0) == Some(k as int) && k < cs.len(),
        },
{
    let mut i: usize = 0;
    while i < cs.len()
        invariant
            i <= cs.len(),
            colon_from(cs@, 0) == colon_from(cs@, i as int),
        decreases cs.len() - i,
    {
        if cs[i] == ':' {
            return Some(i);
        }
        i = i + 1;
    }
    None
}

/// Whether `f` names an index column.
pub fn is_column_name(f: &str) -> (r: bool)
    ensures
        r == is_column(f@),
{
    let r = str_eq(f, "slug") || str_eq(f, "id") || str_eq(f, "title") || str_eq(f, "type")
        || str_eq(f, "created") || str_eq(f, "priority") || str_eq(f, "phase") || str_eq(
        f,
        "building_status",
    ) || str_eq(f, "planning_status") || str_eq(f, "waypoint_status") || str_eq(f, "adr_number")
        || str_eq(f, "phase_number");
    proof {
        let c = columns();
        if r {
            if f@ == "slug"@ { assert(c[0] == f@); }
            if f@ == "id"@ { assert(c[1] == f@); }
            if f@ == "title"@ { assert(c[2] == f@); }
            if f@ == "type"@ { assert(c[3] == f@); }
            if f@ == "created"@ { assert(c[4] == f@); }
            if f@ == "priority"@ { assert(c[5] == f@); }
            if f@ == "phase"@ { assert(c[6] == f@); }
            if f@ == "building_status"@ { assert(c[7] == f@); }
            if f@ == "planning_status"@ { assert(c[8] == f@); }
            if f@ == "waypoint_status"@ { assert(c[9] == f@); }
            if f@ == "adr_number"@ { assert(c[10] == f@); }
            if f@ == "phase_number"@ { assert(c[11] == f@); }
        } else {
            assert(!c.contains(f@));
        }
    }
    r
}

/// The ASCII upper-casing of `cs`, as a string.
fn upper_string(cs: &Vec<char>) -> (s: String)
    ensures
        s@ == upper_seq(cs@),
{
    let mut s = String::new();
    let mut i: usize = 0;
    while i < cs.len()
        invariant
            i <= cs.len(),
            s@ == upper_seq(cs@.take(i as int)),
        decreases cs.len() - i,
    {
        push_char(&mut s, ascii_upper_char(cs[i]));
        i = i + 1;
        assert(upper_seq(cs@.take(i as int)) =~= upper_seq(cs@.take((i - 1) as int)).push(
            ascii_upper(cs@[i - 1]),
        ));
    }
    assert(cs@.take(cs.len() as int) =~= cs@);
    s
}

/// A `Query` error whose message is `prefix`, then `middle`, then a backtick.
fn quoted_error(prefix: &str, middle: &str) -> (e: Error)
    ensures
        e == Error::Query(e->Query_0),
        e->Query_0@ == prefix@ + middle@ + "`"@,
{
    let mut m = String::new();
    m.append(prefix);
    m.append(middle);
    m.append("`");
    Error::Query(m)
}

/// Join `parts` with single spaces.
fn join_with_spaces(parts: &Vec<String>) -> (s: String)
    ensures
        s@ == join_spaces(parts.deep_view()),
{
    let mut s = String::new();
    let mut j: usize = 0;
    while j < parts.len()
        invariant
            j <= parts.len(),
            s@ == join_spaces(parts.deep_view().take(j as int)),
        decreases parts.len() - j,
    {
        let ghost d = parts.deep_view();
        assert(d.take(j + 1).drop_last() =~= d.take(j as int));
        if j > 0 {
            s.append(" ");
        } else {
            assert(s@ =~= Seq::<char>::empty());
        }
        s.append(parts[j].as_str());
        j = j + 1;
    }
    assert(parts.deep_view().take(parts.len() as int) =~= parts.deep_view());
    s
}

/// The statement that selects the `(slug, title)` of the matching cards in
/// slug order, for a compiled `WHERE` clause.
pub open spec fn select_sql_spec(where_clause: Seq<char>) -> Seq<char> {
    "SELECT slug, title FROM cards WHERE "@ + where_clause + " ORDER BY slug"@
}

/// The statement that selects the `(slug, title)` of the matching cards in
/// slug order, for a compiled `WHERE` clause.
pub fn select_sql(where_clause: &str) -> (sql: String)
    ensures
        sql@ == select_sql_spec(where_clause@),
{
    let mut sql = String::new();
    sql.append("SELECT slug, title FROM cards WHERE ");
    sql.append(where_clause);
    sql.append(" ORDER BY slug");
    sql
}

/// Compile a query expression into a parameterized `WHERE` clause and its
/// bound values.
///
/// Tokens are separated by whitespace and alternate between `field:value`
/// predicates (split at the first `:`, the field must be an index column)
/// and `AND`/`OR` connectors (any ASCII case). The `n`-th predicate becomes
/// `field = ?n`; connectors are kept upper-cased.
pub fn compile(expr: &str) -> (r: Result<(String, Vec<String>)>)
    ensures
        match r {
            Ok((clause, values)) => compile_spec(expr@) == Ok::<
                (Seq<char>, Seq<Seq<char>>),
                Seq<char>,
            >((clause@, values.deep_view())),
            Err(e) => e is Query && compile_spec(expr@) == Err::<
                (Seq<char>, Seq<Seq<char>>),
                Seq<char>,
            >(e->Query_0@),
        },
{
    let cs = chars_of(expr);
    let toks = split_whitespace(&cs);
    if toks.len() == 0 {
        let mut m = String::new();
        m.append("empty query");
        return Err(Error::Query(m));
    }
    let ghost tv = toks.deep_view();
    let mut parts: Vec<String> = Vec::new();
    let mut values: Vec<String> = Vec::new();
    let mut expect_predicate = true;
    let mut i: usize = 0;
    assert(parts.deep_view() =~= Seq::<Seq<char>>::empty());
    assert(values.deep_view() =~= Seq::<Seq<char>>::empty());
    while i < toks.len()
        invariant
            i <= toks.len(),
            tv == toks.deep_view(),
            tv == whitespace_tokens(expr@),
            values.len() <= i,
            compile_from(tv, 0, true, Seq::empty(), Seq::empty()) == compile_from(
                tv,
                i as int,
                expect_predicate,
                parts.deep_view(),
                values.deep_view(),
            ),
        decreases toks.len() - i,
    {
        let tok = &toks[i];
        let tcs = chars_of(tok.as_str());
        assert(tcs@ == tv[i as int]);
        if expect_predicate {
            match find_colon(&tcs) {
                None => {
                    return Err(quoted_error("expected `field:value`, got `", tok.as_str()));
                },
                Some(k) => {
                    let field = string_from_range(&tcs, 0, k);
                    assert(field@ =~= tcs@.take(k as int));
                    if !is_column_name(field.as_str()) {
                        return Err(quoted_error("unknown field `", field.as_str()));
                    }
                    let value = string_from_range(&tcs, k + 1, tcs.len());
                    assert(value@ =~= tcs@.skip(k + 1));
                    let ghost pv = parts.deep_view();
                    let ghost vv = values.deep_view();
                    values.push(value);
                    let mut part = field;
                    part.append(" = ?");
                    push_decimal(&mut part, values.len() as u64);
                    parts.push(part);
                    assert(values.deep_view() =~= vv.push(tcs@.skip(k + 1)));
                    assert(parts.deep_view() =~= pv.push(
                        predicate_part(tcs@.take(k as int), (vv.len() + 1) as nat),
                    ));
                    expect_predicate = false;
                },
            }
        } else {
            let up = upper_string(&tcs);
            if !str_eq(up.as_str(), "AND") && !str_eq(up.as_str(), "OR") {
                return Err(quoted_error("expected AND/OR, got `", tok.as_str()));
            }
            let ghost pv = parts.deep_view();
            parts.push(up);
            assert(parts.deep_view() =~= pv.push(upper_seq(tcs@)));
            expect_predicate = true;
        }
        i = i + 1;
    }
    if expect_predicate {
        let mut m = String::new();
        m.append("query ends with a connector");
        return Err(Error::Query(m));
    }
    let clause = join_with_spaces(&parts);
    Ok((clause, values))
}

} // verus!

verus! {

/// The characters a compiled `WHERE` clause is made of: lower-case column
/// names, digits, `_`, spaces, `=`, `?` and the connectors `AND` / `OR`.
pub open spec fn clause_char(c: char) -> bool {
    ('a' <= c && c <= 'z') || ('0' <= c && c <= '9') || c == '_' || c == ' ' || c == '=' || c
        == '?' || c == 'A' || c == 'N' || c == 'D' || c == 'O' || c == 'R'
}

/// Every character of `s` is a clause character.
pub open spec fn clause_text(s: Seq<char>) -> bool {
    forall|i: int| 0 <= i < s.len() ==> clause_char(#[trigger] s[i])
}

proof fn lemma_concat_clause(a: Seq<char>, b: Seq<char>)
    requires
        clause_text(a),
        clause_text(b),
    ensures
        clause_text(a + b),
{
    assert forall|i: int| 0 <= i < (a + b).len() implies clause_char(#[trigger] (a + b)[i]) by {
        if i < a.len() {
            assert((a + b)[i] == a[i]);
        } else {
            assert((a + b)[i] == b[i - a.len()]);
        }
    }
}

proof fn lemma_decimal_clause(n: nat)
    ensures
        clause_text(decimal(n)),
    decreases n,
{
    if n >= 10 {
        lemma_decimal_clause(n / 10);
        let d = decimal(n / 10);
        assert forall|i: int| 0 <= i < decimal(n).len() implies clause_char(#[trigger] decimal(n)[i]) by {
            if i < d.len() {
                assert(decimal(n)[i] == d[i]);
            }
        }
    }
}

proof fn lemma_columns_clause(f: Seq<char>)
    requires
        is_column(f),
    ensures
        clause_text(f),
{
    reveal_strlit("slug");
    reveal_strlit("id");
    reveal_strlit("title");
    reveal_strlit("type");
    reveal_strlit("created");
    reveal_strlit("priority");
    reveal_strlit("phase");
    reveal_strlit("building_status");
    reveal_strlit("planning_status");
    reveal_strlit("waypoint_status");
    reveal_strlit("adr_number");
    reveal_strlit("phase_number");
    let c = columns();
    let k = choose|k: int| 0 <= k < c.len() && c[k] == f;
    assert(clause_text(c[k]));
}

proof fn lemma_compile_from_clause(
    toks: Seq<Seq<char>>,
    i: int,
    expect_predicate: bool,
    parts: Seq<Seq<char>>,
    values: Seq<Seq<char>>,
)
    requires
        forall|k: int| 0 <= k < parts.len() ==> clause_text(#[trigger] parts[k]),
    ensures
        compile_from(toks, i, expect_predicate, parts, values) matches Ok((p, v)) ==> forall|k: int|
            0 <= k < p.len() ==> clause_text(#[trigger] p[k]),
    decreases toks.len() - i,
{
    if 0 <= i < toks.len() {
        if expect_predicate {
            let tok = toks[i];
            if let Some(k) = colon_from(tok, 0) {
                let field = tok.take(k);
                if is_column(field) {
                    let part = predicate_part(field, (values.len() + 1) as nat);
                    lemma_columns_clause(field);
                    reveal_strlit(" = ?");
                    lemma_decimal_clause((values.len() + 1) as nat);
                    lemma_concat_clause(field, " = ?"@);
                    lemma_concat_clause(field + " = ?"@, decimal((values.len() + 1) as nat));
                    let np = parts.push(part);
                    assert forall|k: int| 0 <= k < np.len() implies clause_text(#[trigger] np[k]) by {
                        if k < parts.len() {
                            assert(np[k] == parts[k]);
                        }
                    }
                    lemma_compile_from_clause(toks, i + 1, false, np, values.push(tok.skip(k + 1)));
                }
            }
        } else {
            let up = upper_seq(toks[i]);
            if up == "AND"@ || up == "OR"@ {
                reveal_strlit("AND");
                reveal_strlit("OR");
                let np = parts.push(up);
                assert forall|k: int| 0 <= k < np.len() implies clause_text(#[trigger] np[k]) by {
                    if k < parts.len() {
                        assert(np[k] == parts[k]);
                    }
                }
                lemma_compile_from_clause(toks, i + 1, true, np, values);
            }
        }
    }
}

proof fn lemma_join_clause(p: Seq<Seq<char>>)
    requires
        forall|k: int| 0 <= k < p.len() ==> clause_text(#[trigger] p[k]),
    ensures
        clause_text(join_spaces(p)),
    decreases p.len(),
{
    if p.len() > 1 {
        let t = p.drop_last();
        assert forall|k: int| 0 <= k < t.len() implies clause_text(#[trigger] t[k]) by {
            assert(t[k] == p[k]);
        }
        lemma_join_clause(t);
        reveal_strlit(" ");
        lemma_concat_clause(join_spaces(t), " "@);
        assert(clause_text(p[p.len() - 1]));
        lemma_concat_clause(join_spaces(t) + " "@, p.last());
    } else if p.len() == 1 {
        assert(clause_text(p[0]));
    }
}

/// A compiled query cannot inject SQL: its `WHERE` clause is made only of
/// lower-case letters, digits, `_`, spaces, `=`, `?` and the letters of
/// `AND`/`OR`, so no quote, semicolon or comment from the expression ever
/// reaches the SQL text.
pub proof fn lemma_compiled_clause_is_safe(expr: Seq<char>)
    ensures
        compile_spec(expr) matches Ok((clause, values)) ==> clause_text(clause),
{
    let toks = whitespace_tokens(expr);
    if toks.len() > 0 {
        lemma_compile_from_clause(toks, 0, true, Seq::empty(), Seq::empty());
        if let Ok((parts, values)) = compile_from(toks, 0, true, Seq::empty(), Seq::empty()) {
            lemma_join_clause(parts);
        }
    }
}

} // verus!

verus! {

/// Whether a token is a well-formed predicate: `field:value`, split at the
/// first `:`, with `field` an index column.
pub open spec fn predicate_ok(tok: Seq<char>) -> bool {
    colon_from(tok, 0) matches Some(k) && is_column(tok.take(k))
}

/// Whether a token is a connector: `AND` or `OR` in any ASCII case.
pub open spec fn connector_ok(tok: Seq<char>) -> bool {
    upper_seq(tok) == "AND"@ || upper_seq(tok) == "OR"@
}

/// Whether the `i`-th token is what its position asks for: a predicate at
/// an even position, a connector at an odd one.
pub open spec fn token_ok(toks: Seq<Seq<char>>, i: int) -> bool {
    if i % 2 == 0 {
        predicate_ok(toks[i])
    } else {
        connector_ok(toks[i])
    }
}

/// Whether the tokens alternate predicates and connectors, beginning and
/// ending with a predicate.
pub open spec fn tokens_well_formed(toks: Seq<Seq<char>>) -> bool {
    toks.len() % 2 == 1 && forall|i: int| 0 <= i < toks.len() ==> #[trigger] token_ok(toks, i)
}

/// The field of a predicate token (before its first `:`).
pub open spec fn field_of(tok: Seq<char>) -> Seq<char> {
    tok.take(colon_from(tok, 0)->0)
}

/// The value of a predicate token (after its first `:`).
pub open spec fn value_of(tok: Seq<char>) -> Seq<char> {
    tok.skip(colon_from(tok, 0)->0 + 1)
}

/// The clause part of the `i`-th token: `field = ?n` for the `n`-th
/// predicate, the upper-cased connector otherwise.
pub open spec fn clause_part(toks: Seq<Seq<char>>, i: int) -> Seq<char> {
    if i % 2 == 0 {
        predicate_part(field_of(toks[i]), (i / 2 + 1) as nat)
    } else {
        upper_seq(toks[i])
    }
}

/// The clause parts of all tokens.
pub open spec fn clause_parts(toks: Seq<Seq<char>>) -> Seq<Seq<char>> {
    Seq::new(toks.len(), |i: int| clause_part(toks, i))
}

/// The bound values: the value of each predicate, in order.
pub open spec fn bound_values(toks: Seq<Seq<char>>) -> Seq<Seq<char>> {
    Seq::new(((toks.len() + 1) / 2) as nat, |j: int| value_of(toks[2 * j]))
}

proof fn lemma_compile_from_shape(
    toks: Seq<Seq<char>>,
    i: int,
    parts: Seq<Seq<char>>,
    values: Seq<Seq<char>>,
)
    requires
        0 <= i <= toks.len(),
        parts == Seq::new(i as nat, |k: int| clause_part(toks, k)),
        values == Seq::new(((i + 1) / 2) as nat, |j: int| value_of(toks[2 * j])),
        forall|k: int| 0 <= k < i ==> #[trigger] token_ok(toks, k),
    ensures
        compile_from(toks, i, i % 2 == 0, parts, values) is Ok <==> tokens_well_formed(toks),
        tokens_well_formed(toks) ==> compile_from(toks, i, i % 2 == 0, parts, values) == Ok::<
            (Seq<Seq<char>>, Seq<Seq<char>>),
            Seq<char>,
        >((clause_parts(toks), bound_values(toks))),
    decreases toks.len() - i,
{
    if i == toks.len() {
        assert(parts =~= clause_parts(toks));
        assert(values =~= bound_values(toks));
    } else if i % 2 == 0 {
        let tok = toks[i];
        if !token_ok(toks, i) {
            assert(!tokens_well_formed(toks));
        } else {
            let k = colon_from(tok, 0)->0;
            assert(values.len() == i / 2);
            let parts2 = parts.push(predicate_part(tok.take(k), (values.len() + 1) as nat));
            let values2 = values.push(tok.skip(k + 1));
            assert(parts2 =~= Seq::new((i + 1) as nat, |q: int| clause_part(toks, q)));
            assert(2 * (i / 2) == i);
            assert(values2 =~= Seq::new(((i + 2) / 2) as nat, |j: int| value_of(toks[2 * j])));
            assert forall|q: int| 0 <= q < i + 1 implies #[trigger] token_ok(toks, q) by {}
            lemma_compile_from_shape(toks, i + 1, parts2, values2);
        }
    } else {
        if !token_ok(toks, i) {
            assert(!tokens_well_formed(toks));
        } else {
            let parts2 = parts.push(upper_seq(toks[i]));
            assert(parts2 =~= Seq::new((i + 1) as nat, |q: int| clause_part(toks, q)));
            assert((i + 2) / 2 == (i + 1) / 2);
            assert(values =~= Seq::new(((i + 2) / 2) as nat, |j: int| value_of(toks[2 * j])));
            assert forall|q: int| 0 <= q < i + 1 implies #[trigger] token_ok(toks, q) by {}
            lemma_compile_from_shape(toks, i + 1, parts2, values);
        }
    }
}

/// When a query compiles, and what it compiles to. With `toks` its
/// whitespace-separated tokens: it compiles exactly when the tokens
/// alternate `field:value` predicates (split at the first `:`, the field an
/// index column) and `AND`/`OR` connectors, beginning and ending with a
/// predicate (so an empty query, an even token count, a token without `:`,
/// an unknown field or a bad connector fails). Then the clause is the parts
/// `field = ?n` (for the `n`-th predicate) and upper-cased connectors joined
/// by spaces, and the bound values are the predicates' values, in order.
pub proof fn lemma_compile_shape(expr: Seq<char>)
    ensures
        compile_spec(expr) is Ok <==> tokens_well_formed(whitespace_tokens(expr)),
        tokens_well_formed(whitespace_tokens(expr)) ==> compile_spec(expr) == Ok::<
            (Seq<char>, Seq<Seq<char>>),
            Seq<char>,
        >(
            (
                join_spaces(clause_parts(whitespace_tokens(expr))),
                bound_values(whitespace_tokens(expr)),
            ),
        ),
{
    let toks = whitespace_tokens(expr);
    assert(Seq::<Seq<char>>::empty() =~= Seq::new(0nat, |k: int| clause_part(toks, k)));
    assert(Seq::<Seq<char>>::empty() =~= Seq::new(((0 + 1) / 2) as nat, |j: int| value_of(toks[2 * j])));
    lemma_compile_from_shape(toks, 0, Seq::empty(), Seq::empty());
}

} // verus!

