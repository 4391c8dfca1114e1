//! Resolving cross-card relations by slug, and reporting the structural
//! problems a deterministic validator must block on: dangling references,
//! duplicate slugs, and the acyclicity guardrail (a waypoint slug must never
//! appear in a `criteria` list).

use vstd::prelude::*;

use crate::model::{Card, CardType};
use crate::text::{
    lemma_lt_asymmetric, lemma_lt_irreflexive, lemma_lt_total, lemma_lt_transitive, seq_lt,
    str_eq, str_lt,
};

verus! {

/// Which relation field a reference came from.
#[derive(Debug, Clone, Copy, PartialEq, Eq, Structural)]
pub enum RelationField {
    DependsOn,
    Blocks,
    Linked,
    Criteria,
}

/// The frontmatter name of a relation field.
pub open spec fn relation_field_name(f: RelationField) -> Seq<char> {
    match f {
        RelationField::DependsOn => "depends_on"@,
        RelationField::Blocks => "blocks"@,
        RelationField::Linked => "linked"@,
        RelationField::Criteria => "criteria"@,
    }
}

impl RelationField {
    /// The frontmatter name of this field (`depends_on`, `blocks`, ...).
    pub fn as_str(self) -> (s: &'static str)
        ensures
            s@ == relation_field_name(self),
    {
        match self {
            RelationField::DependsOn => "depends_on",
            RelationField::Blocks => "blocks",
            RelationField::Linked => "linked",
            RelationField::Criteria => "criteria",
        }
    }
}

/// A structural problem found while resolving relations.
#[derive(Debug, Clone, PartialEq, Eq)]
pub enum LinkProblem {
    /// A relation references a slug that resolves to no card.
    Dangling { from: String, field: RelationField, to: String },
    /// Two cards share a slug (slugs are project-unique).
    DuplicateSlug { slug: String },
    /// A waypoint slug appears in a `criteria` list (forbidden).
    WaypointInCriteria { owner: String, waypoint: String },
}

/// The human-readable message of a link problem.
pub open spec fn link_problem_message(p: LinkProblem) -> Seq<char> {
    match p {
        LinkProblem::Dangling { from, field, to } => from@ + ": "@ + relation_field_name(field)
            + " -> `"@ + to@ + "` does not resolve"@,
        LinkProblem::DuplicateSlug { slug } => "duplicate slug `"@ + slug@
            + "` (slugs must be project-unique)"@,
        LinkProblem::WaypointInCriteria { owner, waypoint } => owner@
            + ": criteria references waypoint `"@ + waypoint@
            + "` (waypoints may not be criteria \u{2014} ADR-011)"@,
    }
}

impl LinkProblem {
    /// The human-readable message of this problem.
    pub fn message(&self) -> (m: String)
        ensures
            m@ == link_problem_message(*self),
    {
        let mut out = String::new();
        match self {
            LinkProblem::Dangling { from, field, to } => {
                out.append(from.as_str());
                out.append(": ");
                out.append(field.as_str());
                out.append(" -> `");
                out.append(to.as_str());
                out.append("` does not resolve");
            },
            LinkProblem::DuplicateSlug { slug } => {
                out.append("duplicate slug `");
                out.append(slug.as_str());
                out.append("` (slugs must be project-unique)");
            },
            LinkProblem::WaypointInCriteria { owner, waypoint } => {
                out.append(owner.as_str());
                out.append(": criteria references waypoint `");
                out.append(waypoint.as_str());
                out.append("` (waypoints may not be criteria \u{2014} ADR-011)");
            },
        }
        out
    }
}

/// Whether some entry of `s` has the key `k`.
pub open spec fn has_key(s: Seq<(String, Card)>, k: Seq<char>) -> bool {
    exists|i: int| 0 <= i < s.len() && (#[trigger] s[i]).0@ == k
}

/// Whether some entry of `s` with key `k` is a waypoint.
pub open spec fn is_waypoint_key(s: Seq<(String, Card)>, k: Seq<char>) -> bool {
    exists|i: int|
        0 <= i < s.len() && (#[trigger] s[i]).0@ == k && s[i].1.type_of() == CardType::Waypoint
}

/// Keys strictly increasing: the shape of a slug-keyed ordered map.
pub open spec fn strictly_sorted(s: Seq<(String, Card)>) -> bool {
    forall|i: int, j: int| 0 <= i < j < s.len() ==> seq_lt(s[i].0@, s[j].0@)
}

/// The map that inserting the entries of `s` in order produces (later
/// entries replace earlier ones with the same slug).
pub open spec fn map_of(s: Seq<(String, Card)>) -> Map<Seq<char>, Card>
    decreases s.len(),
{
    if s.len() == 0 {
        Map::empty()
    } else {
        map_of(s.drop_last()).insert(s.last().0@, s.last().1)
    }
}

/// How many keys of `s` sort strictly before `k`.
pub open spec fn count_lt(s: Seq<(String, Card)>, k: Seq<char>) -> int
    decreases s.len(),
{
    if s.len() == 0 {
        0
    } else {
        count_lt(s.drop_last(), k) + if seq_lt(s.last().0@, k) {
            1int
        } else {
            0int
        }
    }
}

/// Ordered-map insertion into the slug-ordered `s`: replace the card of an
/// equal slug, or insert the new entry at its place in slug order.
pub open spec fn sorted_insert(s: Seq<(String, Card)>, k: String, c: Card) -> Seq<(String, Card)> {
    let p = count_lt(s, k@);
    if p < s.len() && s[p].0@ == k@ {
        s.update(p, (k, c))
    } else {
        s.insert(p, (k, c))
    }
}

/// The slug-ordered map built by inserting `entries` in order.
pub open spec fn build_sorted(entries: Seq<(String, Card)>) -> Seq<(String, Card)>
    decreases entries.len(),
{
    if entries.len() == 0 {
        Seq::empty()
    } else {
        sorted_insert(build_sorted(entries.drop_last()), entries.last().0, entries.last().1)
    }
}

proof fn lemma_count_lt(s: Seq<(String, Card)>, k: Seq<char>, i: int)
    requires
        0 <= i <= s.len(),
        forall|j: int| 0 <= j < i ==> seq_lt((#[trigger] s[j]).0@, k),
        forall|j: int| i <= j < s.len() ==> !seq_lt((#[trigger] s[j]).0@, k),
    ensures
        count_lt(s, k) == i,
    decreases s.len(),
{
    if s.len() > 0 {
        let t = s.drop_last();
        if i == s.len() {
            assert forall|j: int| 0 <= j < i - 1 implies seq_lt((#[trigger] t[j]).0@, k) by {
                assert(t[j] == s[j]);
            }
            lemma_count_lt(t, k, i - 1);
            assert(s.last() == s[s.len() - 1]);
        } else {
            assert forall|j: int| 0 <= j < i implies seq_lt((#[trigger] t[j]).0@, k) by {
                assert(t[j] == s[j]);
            }
            assert forall|j: int| i <= j < t.len() implies !seq_lt((#[trigger] t[j]).0@, k) by {
                assert(t[j] == s[j]);
            }
            lemma_count_lt(t, k, i);
            assert(s.last() == s[s.len() - 1]);
        }
    }
}

/// One `Dangling` problem per target in `tos` that resolves to no card.
pub open spec fn dangling(s: Seq<(String, Card)>, from: String, field: RelationField, tos: Seq<String>) -> Seq<LinkProblem>
    decreases tos.len(),
{
    if tos.len() == 0 {
        Seq::empty()
    } else {
        dangling(s, from, field, tos.drop_last()) + if has_key(s, tos.last()@) {
            Seq::empty()
        } else {
            seq![LinkProblem::Dangling { from: from, field: field, to: tos.last() }]
        }
    }
}

/// Problems of a `criteria` list: dangling targets, and targets that are waypoints.
pub open spec fn criteria_problems(s: Seq<(String, Card)>, from: String, tos: Seq<String>) -> Seq<LinkProblem>
    decreases tos.len(),
{
    if tos.len() == 0 {
        Seq::empty()
    } else {
        criteria_problems(s, from, tos.drop_last()) + if !has_key(s, tos.last()@) {
            seq![LinkProblem::Dangling { from: from, field: RelationField::Criteria, to: tos.last() }]
        } else if is_waypoint_key(s, tos.last()@) {
            seq![LinkProblem::WaypointInCriteria { owner: from, waypoint: tos.last() }]
        } else {
            Seq::empty()
        }
    }
}

/// The problems of one card, in field order.
pub open spec fn entry_problems(s: Seq<(String, Card)>, e: (String, Card)) -> Seq<LinkProblem> {
    dangling(s, e.0, RelationField::DependsOn, e.1.depends_on_of()) + dangling(
        s,
        e.0,
        RelationField::Blocks,
        e.1.blocks_of(),
    ) + dangling(s, e.0, RelationField::Linked, e.1.linked_of()) + criteria_problems(
        s,
        e.0,
        e.1.criteria_of(),
    )
}

/// The problems of the first `n` cards of `s`, in card order.
pub open spec fn problems_upto(s: Seq<(String, Card)>, n: int) -> Seq<LinkProblem>
    decreases n,
{
    if n <= 0 {
        Seq::empty()
    } else {
        problems_upto(s, n - 1) + entry_problems(s, s[n - 1])
    }
}

/// Every structural relation problem of the slug-keyed cards `s`.
pub open spec fn relation_problems(s: Seq<(String, Card)>) -> Seq<LinkProblem> {
    problems_upto(s, s.len() as int)
}

/// One `DuplicateSlug` per entry whose slug an earlier entry already used.
pub open spec fn duplicate_problems(entries: Seq<(String, Card)>, n: int) -> Seq<LinkProblem>
    decreases n,
{
    if n <= 0 {
        Seq::empty()
    } else {
        duplicate_problems(entries, n - 1) + if map_of(entries.take(n - 1)).dom().contains(
            entries[n - 1].0@,
        ) {
            seq![LinkProblem::DuplicateSlug { slug: entries[n - 1].0 }]
        } else {
            Seq::empty()
        }
    }
}

/// The index of the first entry of `s` with key `k`.
fn find_key(s: &Vec<(String, Card)>, k: &String) -> (r: Option<usize>)
    ensures
        r is None <==> !has_key(s@, k@),
        r matches Some(i) ==> i < s.len() && s@[i as int].0@ == k@,
{
    let mut i: usize = 0;
    while i < s.len()
        invariant
            i <= s.len(),
            forall|j: int| 0 <= j < i ==> (#[trigger] s@[j]).0@ != k@,
        decreases s.len() - i,
    {
        if str_eq(s[i].0.as_str(), k.as_str()) {
            return Some(i);
        }
        i = i + 1;
    }
    None
}

/// Whether some entry of `s` with key `k` is a waypoint card.
fn key_is_waypoint(s: &Vec<(String, Card)>, k: &String) -> (r: bool)
    ensures
        r == is_waypoint_key(s@, k@),
{
    let mut i: usize = 0;
    while i < s.len()
        invariant
            i <= s.len(),
            forall|j: int|
                0 <= j < i ==> !((#[trigger] s@[j]).0@ == k@ && s@[j].1.type_of()
                    == CardType::Waypoint),
        decreases s.len() - i,
    {
        if s[i].1.card_type() == CardType::Waypoint && str_eq(s[i].0.as_str(), k.as_str()) {
            return true;
        }
        i = i + 1;
    }
    false
}

/// Appends a `Dangling` problem for each target of `tos` that resolves to no card.
fn push_dangling(
    s: &Vec<(String, Card)>,
    from: &String,
    field: RelationField,
    tos: &[String],
    out: &mut Vec<LinkProblem>,
)
    ensures
        final(out)@ == old(out)@ + dangling(s@, *from, field, tos@),
{
    let mut j: usize = 0;
    while j < tos.len()
        invariant
            j <= tos.len(),
            out@ == old(out)@ + dangling(s@, *from, field, tos@.take(j as int)),
        decreases tos.len() - j,
    {
        assert(tos@.take(j + 1).drop_last() =~= tos@.take(j as int));
        if find_key(s, &tos[j]).is_none() {
            out.push(LinkProblem::Dangling { from: from.clone(), field, to: tos[j].clone() });
        }
        j = j + 1;
        assert(out@ =~= old(out)@ + dangling(s@, *from, field, tos@.take(j as int)));
    }
    assert(tos@.take(tos.len() as int) =~= tos@);
}

/// Appends the problems of a `criteria` list.
fn push_criteria(s: &Vec<(String, Card)>, from: &String, tos: &[String], out: &mut Vec<LinkProblem>)
    ensures
        final(out)@ == old(out)@ + criteria_problems(s@, *from, tos@),
{
    let mut j: usize = 0;
    while j < tos.len()
        invariant
            j <= tos.len(),
            out@ == old(out)@ + criteria_problems(s@, *from, tos@.take(j as int)),
        decreases tos.len() - j,
    {
        assert(tos@.take(j + 1).drop_last() =~= tos@.take(j as int));
        if find_key(s, &tos[j]).is_none() {
            out.push(
                LinkProblem::Dangling {
                    from: from.clone(),
                    field: RelationField::Criteria,
                    to: tos[j].clone(),
                },
            );
        } else if key_is_waypoint(s, &tos[j]) {
            out.push(LinkProblem::WaypointInCriteria { owner: from.clone(), waypoint: tos[j].clone() });
        }
        j = j + 1;
        assert(out@ =~= old(out)@ + criteria_problems(s@, *from, tos@.take(j as int)));
    }
    assert(tos@.take(tos.len() as int) =~= tos@);
}

/// Check the relations of slug-keyed cards: every `depends_on`, `blocks`,
/// `linked` and `criteria` target must resolve, and no `criteria` target may
/// be a waypoint. Problems come in card order, then field order, then target
/// order.
pub fn check(by_slug: &Vec<(String, Card)>) -> (problems: Vec<LinkProblem>)
    ensures
        problems@ == relation_problems(by_slug@),
{
    let mut out: Vec<LinkProblem> = Vec::new();
    let mut i: usize = 0;
    while i < by_slug.len()
        invariant
            i <= by_slug.len(),
            out@ == problems_upto(by_slug@, i as int),
        decreases by_slug.len() - i,
    {
        let slug = &by_slug[i].0;
        let card = &by_slug[i].1;
        let ghost before = out@;
        push_dangling(by_slug, slug, RelationField::DependsOn, card.depends_on(), &mut out);
        push_dangling(by_slug, slug, RelationField::Blocks, card.blocks(), &mut out);
        push_dangling(by_slug, slug, RelationField::Linked, card.linked(), &mut out);
        push_criteria(by_slug, slug, card.criteria(), &mut out);
        assert(out@ =~= before + entry_problems(by_slug@, by_slug@[i as int]));
        i = i + 1;
    }
    out
}

} // verus!

verus! {

/// The result of resolving a project's relations.
#[derive(Debug)]
pub struct Resolution {
    /// Every card, keyed by its (project-unique) slug, in slug order.
    pub by_slug: Vec<(String, Card)>,
    /// Structural problems found; empty means the graph is sound.
    pub problems: Vec<LinkProblem>,
}

impl Default for Resolution {
    /// The resolution of no cards: nothing resolved, nothing wrong.
    fn default() -> (r: Self)
        ensures
            r.by_slug@.len() == 0,
            r.problems@.len() == 0,
    {
        Resolution { by_slug: Vec::new(), problems: Vec::new() }
    }
}

impl Resolution {
    /// Whether the relation graph is sound (no problems).
    pub fn is_sound(&self) -> (r: bool)
        ensures
            r == (self.problems@.len() == 0),
    {
        self.problems.len() == 0
    }
}

/// The keys of a strictly sorted sequence are pairwise distinct.
proof fn lemma_sorted_distinct(s: Seq<(String, Card)>, i: int, j: int)
    requires
        strictly_sorted(s),
        0 <= i < s.len(),
        0 <= j < s.len(),
        i != j,
    ensures
        s[i].0@ != s[j].0@,
{
    if i < j {
        lemma_lt_asymmetric(s[i].0@, s[j].0@);
    } else {
        lemma_lt_asymmetric(s[j].0@, s[i].0@);
    }
}

/// For a strictly sorted sequence, `map_of` maps each key to its card.
pub proof fn lemma_map_of_sorted(s: Seq<(String, Card)>)
    requires
        strictly_sorted(s),
    ensures
        forall|k: Seq<char>| #[trigger] map_of(s).dom().contains(k) <==> has_key(s, k),
        forall|i: int| 0 <= i < s.len() ==> #[trigger] map_of(s)[s[i].0@] == s[i].1,
    decreases s.len(),
{
    if s.len() > 0 {
        let t = s.drop_last();
        assert(strictly_sorted(t));
        lemma_map_of_sorted(t);
        assert(map_of(s) == map_of(t).insert(s.last().0@, s.last().1));
        assert forall|k: Seq<char>| #[trigger] map_of(s).dom().contains(k) <==> has_key(s, k) by {
            if k == s.last().0@ {
                assert(s[s.len() - 1].0@ == k);
            } else {
                if has_key(s, k) {
                    let i = choose|i: int| 0 <= i < s.len() && (#[trigger] s[i]).0@ == k;
                    assert(i < s.len() - 1);
                    assert(t[i] == s[i]);
                    assert(has_key(t, k));
                }
                if has_key(t, k) {
                    let i = choose|i: int| 0 <= i < t.len() && (#[trigger] t[i]).0@ == k;
                    assert(s[i] == t[i]);
                    assert(has_key(s, k));
                }
            }
        }
        assert forall|i: int| 0 <= i < s.len() implies #[trigger] map_of(s)[s[i].0@] == s[i].1 by {
            if i < s.len() - 1 {
                lemma_sorted_distinct(s, i, s.len() - 1);
                assert(t[i] == s[i]);
                assert(map_of(t)[t[i].0@] == t[i].1);
            }
        }
    }
}

/// Two strictly sorted sequences with equal maps have equal `map_of`s (trivially)
/// and inserting a fresh key keeps the map in step.
proof fn lemma_map_insert_fresh(s: Seq<(String, Card)>, p: int, k: String, c: Card)
    requires
        strictly_sorted(s),
        strictly_sorted(s.insert(p, (k, c))),
        0 <= p <= s.len(),
        !has_key(s, k@),
    ensures
        map_of(s.insert(p, (k, c))) == map_of(s).insert(k@, c),
{
    let u = s.insert(p, (k, c));
    lemma_map_of_sorted(s);
    lemma_map_of_sorted(u);
    assert forall|q: Seq<char>| #[trigger] map_of(u).dom().contains(q) <==> map_of(s).insert(
        k@,
        c,
    ).dom().contains(q) by {
        if has_key(u, q) {
            let i = choose|i: int| 0 <= i < u.len() && (#[trigger] u[i]).0@ == q;
            if i < p {
                assert(s[i] == u[i]);
            } else if i > p {
                assert(s[i - 1] == u[i]);
            }
        }
        if has_key(s, q) {
            let i = choose|i: int| 0 <= i < s.len() && (#[trigger] s[i]).0@ == q;
            if i < p {
                assert(s[i] == u[i]);
            } else {
                assert(s[i] == u[i + 1]);
            }
        }
        if q == k@ {
            assert(u[p].0@ == k@);
        }
    }
    assert forall|q: Seq<char>| #[trigger] map_of(u).dom().contains(q) implies map_of(u)[q]
        == map_of(s).insert(k@, c)[q] by {
        let i = choose|i: int| 0 <= i < u.len() && (#[trigger] u[i]).0@ == q;
        if i < p {
            assert(s[i] == u[i]);
        } else if i > p {
            assert(s[i - 1] == u[i]);
        }
    }
    assert(map_of(u) =~= map_of(s).insert(k@, c));
}

/// Replacing the card at an existing key keeps the map in step.
proof fn lemma_map_replace(s: Seq<(String, Card)>, p: int, k: String, c: Card)
    requires
        strictly_sorted(s),
        0 <= p < s.len(),
        s[p].0@ == k@,
    ensures
        strictly_sorted(s.update(p, (k, c))),
        map_of(s.update(p, (k, c))) == map_of(s).insert(k@, c),
{
    let u = s.update(p, (k, c));
    assert(strictly_sorted(u));
    lemma_map_of_sorted(s);
    lemma_map_of_sorted(u);
    assert forall|q: Seq<char>| #[trigger] map_of(u).dom().contains(q) <==> map_of(s).insert(
        k@,
        c,
    ).dom().contains(q) by {
        if has_key(u, q) {
            let i = choose|i: int| 0 <= i < u.len() && (#[trigger] u[i]).0@ == q;
            if i != p {
                assert(s[i] == u[i]);
            }
        }
        if has_key(s, q) {
            let i = choose|i: int| 0 <= i < s.len() && (#[trigger] s[i]).0@ == q;
            if i != p {
                assert(s[i] == u[i]);
            } else {
                assert(u[p].0@ == q);
            }
        }
    }
    assert forall|q: Seq<char>| #[trigger] map_of(u).dom().contains(q) implies map_of(u)[q]
        == map_of(s).insert(k@, c)[q] by {
        let i = choose|i: int| 0 <= i < u.len() && (#[trigger] u[i]).0@ == q;
        if i != p {
            assert(s[i] == u[i]);
            lemma_sorted_distinct(s, i, p);
        }
    }
    assert(map_of(u) =~= map_of(s).insert(k@, c));
}

/// Insert `(k, c)` into the slug-ordered `by_slug`, replacing the card of an
/// equal slug. Returns whether the slug was already present.
pub fn insert_sorted(by_slug: &mut Vec<(String, Card)>, k: String, c: Card) -> (replaced: bool)
    requires
        strictly_sorted(old(by_slug)@),
    ensures
        strictly_sorted(final(by_slug)@),
        map_of(final(by_slug)@) == map_of(old(by_slug)@).insert(k@, c),
        replaced == has_key(old(by_slug)@, k@),
        final(by_slug)@ == sorted_insert(old(by_slug)@, k, c),
{
    let mut i: usize = 0;
    while i < by_slug.len() && str_lt(by_slug[i].0.as_str(), k.as_str())
        invariant
            i <= by_slug.len(),
            by_slug@ == old(by_slug)@,
            forall|j: int| 0 <= j < i ==> seq_lt((#[trigger] by_slug@[j]).0@, k@),
        decreases by_slug.len() - i,
    {
        i = i + 1;
    }
    let ghost s = by_slug@;
    let ghost kc = (k, c);
    proof {
        // Every key from position i on is at least k.
        assert forall|j: int| i <= j < s.len() implies !seq_lt((#[trigger] s[j]).0@, k@) by {
            if j > i {
                lemma_lt_total(s[i as int].0@, k@);
                if seq_lt(s[j].0@, k@) && seq_lt(k@, s[i as int].0@) {
                    lemma_lt_transitive(s[i as int].0@, s[j].0@, k@);
                    lemma_lt_transitive(k@, s[i as int].0@, k@);
                    lemma_lt_irreflexive(k@);
                }
                if seq_lt(s[j].0@, k@) && s[i as int].0@ == k@ {
                    lemma_lt_asymmetric(s[i as int].0@, s[j].0@);
                }
            }
        }
        lemma_count_lt(s, k@, i as int);
    }
    if i < by_slug.len() && str_eq(by_slug[i].0.as_str(), k.as_str()) {
        proof {
            lemma_map_replace(s, i as int, k, c);
        }
        by_slug.set(i, (k, c));
        true
    } else {
        proof {
            if has_key(s, k@) {
                let j = choose|j: int| 0 <= j < s.len() && (#[trigger] s[j]).0@ == k@;
                if j < i {
                    lemma_lt_irreflexive(k@);
                } else if j > i {
                    lemma_lt_total(s[i as int].0@, k@);
                    lemma_lt_transitive(k@, s[i as int].0@, s[j].0@);
                    lemma_lt_irreflexive(k@);
                }
            }
            if i < s.len() {
                lemma_lt_total(s[i as int].0@, k@);
                assert(seq_lt(k@, s[i as int].0@));
            }
            let u = s.insert(i as int, (k, c));
            assert forall|a: int, b: int| 0 <= a < b < u.len() implies seq_lt(u[a].0@, u[b].0@) by {
                if b < i {
                    assert(u[a] == s[a] && u[b] == s[b]);
                } else if b == i {
                    assert(u[a] == s[a]);
                } else if a < i {
                    assert(u[a] == s[a] && u[b] == s[b - 1]);
                    if b - 1 > i {
                        lemma_lt_transitive(k@, s[i as int].0@, s[b - 1].0@);
                    }
                    lemma_lt_transitive(s[a].0@, k@, s[b - 1].0@);
                } else if a == i {
                    if b - 1 > i {
                        lemma_lt_transitive(k@, s[i as int].0@, s[b - 1].0@);
                    }
                } else {
                    assert(u[a] == s[a - 1] && u[b] == s[b - 1]);
                }
            }
            lemma_map_insert_fresh(s, i as int, k, c);
        }
        by_slug.insert(i, (k, c));
        false
    }
}

/// Resolve slug-keyed cards: build the slug-ordered map (a later entry with
/// an already used slug replaces the earlier card and is reported as a
/// `DuplicateSlug`), then report every relation problem of the map.
pub fn resolve(entries: Vec<(String, Card)>) -> (r: Resolution)
    ensures
        r.by_slug@ == build_sorted(entries@),
        strictly_sorted(r.by_slug@),
        map_of(r.by_slug@) == map_of(entries@),
        r.problems@ == duplicate_problems(entries@, entries@.len() as int) + relation_problems(
            r.by_slug@,
        ),
{
    let ghost all = entries@;
    let mut rest = entries;
    let mut by_slug: Vec<(String, Card)> = Vec::new();
    let mut problems: Vec<LinkProblem> = Vec::new();
    let total = rest.len();
    let mut n: usize = 0;
    while rest.len() > 0
        invariant
            n <= all.len(),
            total == all.len(),
            rest@ == all.skip(n as int),
            strictly_sorted(by_slug@),
            by_slug@ == build_sorted(all.take(n as int)),
            map_of(by_slug@) == map_of(all.take(n as int)),
            problems@ == duplicate_problems(all, n as int),
        decreases rest.len(),
    {
        let (k, c) = rest.remove(0);
        proof {
            assert(all[n as int] == (k, c));
            assert(all.take(n + 1).drop_last() =~= all.take(n as int));
            assert(all.take(n + 1).last() == (k, c));
            assert(all.skip(n + 1) =~= all.skip(n as int).drop_first());
            lemma_map_of_sorted(by_slug@);
        }
        let dup = k.clone();
        if insert_sorted(&mut by_slug, k, c) {
            problems.push(LinkProblem::DuplicateSlug { slug: dup });
        }
        n = n + 1;
    }
    assert(all.take(all.len() as int) =~= all);
    let rel = check(&by_slug);
    let mut rel = rel;
    problems.append(&mut rel);
    Resolution { by_slug, problems }
}

} // verus!

verus! {

/// Every relation of the card `e` resolves in `s`, and none of its criteria
/// is a waypoint.
pub open spec fn card_relations_ok(s: Seq<(String, Card)>, e: (String, Card)) -> bool {
    &&& forall|k: int|
        0 <= k < e.1.depends_on_of().len() ==> has_key(s, (#[trigger] e.1.depends_on_of()[k])@)
    &&& forall|k: int| 0 <= k < e.1.blocks_of().len() ==> has_key(s, (#[trigger] e.1.blocks_of()[k])@)
    &&& forall|k: int| 0 <= k < e.1.linked_of().len() ==> has_key(s, (#[trigger] e.1.linked_of()[k])@)
    &&& forall|k: int|
        0 <= k < e.1.criteria_of().len() ==> has_key(s, (#[trigger] e.1.criteria_of()[k])@)
            && !is_waypoint_key(s, e.1.criteria_of()[k]@)
}

/// Every card of `s` has sound relations.
pub open spec fn relations_resolve(s: Seq<(String, Card)>) -> bool {
    forall|i: int| 0 <= i < s.len() ==> card_relations_ok(s, #[trigger] s[i])
}

/// No two entries share a slug.
pub open spec fn distinct_slugs(entries: Seq<(String, Card)>) -> bool {
    forall|i: int, j: int| 0 <= i < j < entries.len() ==> entries[i].0@ != entries[j].0@
}

proof fn lemma_dangling_empty(s: Seq<(String, Card)>, from: String, field: RelationField, tos: Seq<String>)
    ensures
        dangling(s, from, field, tos).len() == 0 <==> forall|k: int|
            0 <= k < tos.len() ==> has_key(s, (#[trigger] tos[k])@),
    decreases tos.len(),
{
    if tos.len() > 0 {
        let t = tos.drop_last();
        lemma_dangling_empty(s, from, field, t);
        if forall|k: int| 0 <= k < tos.len() ==> has_key(s, (#[trigger] tos[k])@) {
            assert forall|k: int| 0 <= k < t.len() implies has_key(s, (#[trigger] t[k])@) by {
                assert(t[k] == tos[k]);
            }
            assert(has_key(s, tos[tos.len() - 1]@));
        } else {
            let k = choose|k: int| 0 <= k < tos.len() && !has_key(s, (#[trigger] tos[k])@);
            if k < tos.len() - 1 {
                assert(t[k] == tos[k]);
            }
        }
    }
}

proof fn lemma_criteria_empty(s: Seq<(String, Card)>, from: String, tos: Seq<String>)
    ensures
        criteria_problems(s, from, tos).len() == 0 <==> forall|k: int|
            0 <= k < tos.len() ==> has_key(s, (#[trigger] tos[k])@) && !is_waypoint_key(s, tos[k]@),
    decreases tos.len(),
{
    if tos.len() > 0 {
        let t = tos.drop_last();
        lemma_criteria_empty(s, from, t);
        if forall|k: int|
            0 <= k < tos.len() ==> has_key(s, (#[trigger] tos[k])@) && !is_waypoint_key(s, tos[k]@) {
            assert forall|k: int| 0 <= k < t.len() implies has_key(s, (#[trigger] t[k])@)
                && !is_waypoint_key(s, t[k]@) by {
                assert(t[k] == tos[k]);
            }
            assert(has_key(s, tos[tos.len() - 1]@));
        } else {
            let k = choose|k: int|
                0 <= k < tos.len() && !(has_key(s, (#[trigger] tos[k])@) && !is_waypoint_key(
                    s,
                    tos[k]@,
                ));
            if k < tos.len() - 1 {
                assert(t[k] == tos[k]);
            }
        }
    }
}

proof fn lemma_problems_upto_empty(s: Seq<(String, Card)>, n: int)
    requires
        0 <= n <= s.len(),
    ensures
        problems_upto(s, n).len() == 0 <==> forall|i: int|
            0 <= i < n ==> card_relations_ok(s, #[trigger] s[i]),
    decreases n,
{
    if n > 0 {
        lemma_problems_upto_empty(s, n - 1);
        let e = s[n - 1];
        lemma_dangling_empty(s, e.0, RelationField::DependsOn, e.1.depends_on_of());
        lemma_dangling_empty(s, e.0, RelationField::Blocks, e.1.blocks_of());
        lemma_dangling_empty(s, e.0, RelationField::Linked, e.1.linked_of());
        lemma_criteria_empty(s, e.0, e.1.criteria_of());
        assert(entry_problems(s, e).len() == 0 <==> card_relations_ok(s, e));
    }
}

/// The relation check finds no problem exactly when every `depends_on`,
/// `blocks`, `linked` and `criteria` target names a card and no `criteria`
/// target names a waypoint.
pub proof fn lemma_relation_problems_empty_iff(s: Seq<(String, Card)>)
    ensures
        relation_problems(s).len() == 0 <==> relations_resolve(s),
{
    lemma_problems_upto_empty(s, s.len() as int);
}

/// The keys of `map_of(s)` are exactly the slugs of `s`, whatever their order.
pub proof fn lemma_map_of_dom(s: Seq<(String, Card)>, k: Seq<char>)
    ensures
        map_of(s).dom().contains(k) <==> has_key(s, k),
    decreases s.len(),
{
    if s.len() > 0 {
        let t = s.drop_last();
        lemma_map_of_dom(t, k);
        if has_key(t, k) {
            let i = choose|i: int| 0 <= i < t.len() && (#[trigger] t[i]).0@ == k;
            assert(s[i] == t[i]);
        }
        if has_key(s, k) && k != s.last().0@ {
            let i = choose|i: int| 0 <= i < s.len() && (#[trigger] s[i]).0@ == k;
            assert(t[i] == s[i]);
        }
        if k == s.last().0@ {
            assert(s[s.len() - 1].0@ == k);
        }
    }
}

proof fn lemma_duplicates_empty(entries: Seq<(String, Card)>, n: int)
    requires
        0 <= n <= entries.len(),
    ensures
        duplicate_problems(entries, n).len() == 0 <==> distinct_slugs(entries.take(n)),
    decreases n,
{
    if n > 0 {
        lemma_duplicates_empty(entries, n - 1);
        let p = entries.take(n - 1);
        let q = entries.take(n);
        lemma_map_of_dom(p, entries[n - 1].0@);
        if distinct_slugs(q) {
            assert forall|i: int, j: int| 0 <= i < j < p.len() implies p[i].0@ != p[j].0@ by {
                assert(p[i] == q[i] && p[j] == q[j]);
            }
            if has_key(p, entries[n - 1].0@) {
                let i = choose|i: int| 0 <= i < p.len() && (#[trigger] p[i]).0@ == entries[n - 1].0@;
                assert(q[i] == p[i] && q[n - 1] == entries[n - 1]);
            }
        }
        if distinct_slugs(p) && !has_key(p, entries[n - 1].0@) {
            assert forall|i: int, j: int| 0 <= i < j < q.len() implies q[i].0@ != q[j].0@ by {
                if j == n - 1 {
                    assert(q[i] == p[i]);
                    if q[i].0@ == q[j].0@ {
                        assert(p[i].0@ == entries[n - 1].0@);
                    }
                } else {
                    assert(q[i] == p[i] && q[j] == p[j]);
                }
            }
        }
    }
}

/// A resolution is sound (reports no problem) exactly when no two entries
/// share a slug and every relation of the resulting slug map resolves, with
/// no waypoint among any `criteria`.
pub proof fn lemma_resolution_sound_iff(entries: Seq<(String, Card)>)
    ensures
        (duplicate_problems(entries, entries.len() as int) + relation_problems(
            build_sorted(entries),
        )).len() == 0 <==> distinct_slugs(entries) && relations_resolve(build_sorted(entries)),
{
    lemma_duplicates_empty(entries, entries.len() as int);
    assert(entries.take(entries.len() as int) =~= entries);
    lemma_relation_problems_empty_iff(build_sorted(entries));
}

/// Slugs of a resolution are project-unique: the slug map holds no slug twice.
pub proof fn lemma_resolved_slugs_unique(s: Seq<(String, Card)>, i: int, j: int)
    requires
        strictly_sorted(s),
        0 <= i < s.len(),
        0 <= j < s.len(),
        i != j,
    ensures
        s[i].0@ != s[j].0@,
{
    lemma_sorted_distinct(s, i, j);
}

} // verus!

verus! {

/// The targets of relation field `f` of card `c`.
pub open spec fn field_targets(c: Card, f: RelationField) -> Seq<String> {
    match f {
        RelationField::DependsOn => c.depends_on_of(),
        RelationField::Blocks => c.blocks_of(),
        RelationField::Linked => c.linked_of(),
        RelationField::Criteria => c.criteria_of(),
    }
}

/// Whether `p` is a relation problem of the entry `e` of the slug-keyed
/// cards `s`: a target of one of its fields that names no card, or a
/// `criteria` target that names a waypoint.
pub open spec fn problem_of_entry(s: Seq<(String, Card)>, e: (String, Card), p: LinkProblem) -> bool {
    match p {
        LinkProblem::Dangling { from, field, to } => from == e.0 && field_targets(e.1, field).contains(
            to,
        ) && !has_key(s, to@),
        LinkProblem::WaypointInCriteria { owner, waypoint } => owner == e.0 && e.1.criteria_of().contains(
            waypoint,
        ) && has_key(s, waypoint@) && is_waypoint_key(s, waypoint@),
        LinkProblem::DuplicateSlug { .. } => false,
    }
}

proof fn lemma_concat_contains<A>(a: Seq<A>, b: Seq<A>, x: A)
    ensures
        (a + b).contains(x) <==> a.contains(x) || b.contains(x),
{
    if (a + b).contains(x) {
        let i = choose|i: int| 0 <= i < (a + b).len() && (a + b)[i] == x;
        if i >= a.len() {
            assert(b[i - a.len()] == x);
        }
    }
    if a.contains(x) {
        let i = choose|i: int| 0 <= i < a.len() && a[i] == x;
        assert((a + b)[i] == x);
    }
    if b.contains(x) {
        let i = choose|i: int| 0 <= i < b.len() && b[i] == x;
        assert((a + b)[a.len() + i] == x);
    }
}

proof fn lemma_last_contains<A>(t: Seq<A>, x: A)
    requires
        t.len() > 0,
    ensures
        t.contains(x) <==> t.drop_last().contains(x) || t.last() == x,
{
    assert(t =~= t.drop_last() + seq![t.last()]);
    lemma_concat_contains(t.drop_last(), seq![t.last()], x);
    assert(seq![t.last()].contains(x) <==> t.last() == x) by {
        if seq![t.last()].contains(x) {
            assert(seq![t.last()][0] == x);
        } else {
            assert(seq![t.last()][0] == t.last());
        }
    }
}

proof fn lemma_dangling_contains(
    s: Seq<(String, Card)>,
    from: String,
    field: RelationField,
    tos: Seq<String>,
    p: LinkProblem,
)
    ensures
        dangling(s, from, field, tos).contains(p) <==> (p matches LinkProblem::Dangling {
            from: f,
            field: g,
            to,
        } && f == from && g == field && tos.contains(to) && !has_key(s, to@)),
    decreases tos.len(),
{
    if tos.len() == 0 {
    } else {
        let t = tos.drop_last();
        lemma_dangling_contains(s, from, field, t, p);
        let extra: Seq<LinkProblem> = if has_key(s, tos.last()@) {
            Seq::empty()
        } else {
            seq![LinkProblem::Dangling { from: from, field: field, to: tos.last() }]
        };
        lemma_concat_contains(dangling(s, from, field, t), extra, p);
        if extra.len() == 1 {
            if extra.contains(p) {
                assert(extra[0] == p);
            } else {
                assert(extra[0] != p);
            }
        }
        if let LinkProblem::Dangling { to, .. } = p {
            lemma_last_contains(tos, to);
        }
    }
}

proof fn lemma_criteria_contains(s: Seq<(String, Card)>, from: String, tos: Seq<String>, p: LinkProblem)
    ensures
        criteria_problems(s, from, tos).contains(p) <==> match p {
            LinkProblem::Dangling { from: f, field, to } => f == from && field
                == RelationField::Criteria && tos.contains(to) && !has_key(s, to@),
            LinkProblem::WaypointInCriteria { owner, waypoint } => owner == from && tos.contains(
                waypoint,
            ) && has_key(s, waypoint@) && is_waypoint_key(s, waypoint@),
            LinkProblem::DuplicateSlug { .. } => false,
        },
    decreases tos.len(),
{
    if tos.len() == 0 {
    } else {
        let t = tos.drop_last();
        let last = tos.last();
        lemma_criteria_contains(s, from, t, p);
        let extra: Seq<LinkProblem> = if !has_key(s, last@) {
            seq![LinkProblem::Dangling { from: from, field: RelationField::Criteria, to: last }]
        } else if is_waypoint_key(s, last@) {
            seq![LinkProblem::WaypointInCriteria { owner: from, waypoint: last }]
        } else {
            Seq::empty()
        };
        lemma_concat_contains(criteria_problems(s, from, t), extra, p);
        if extra.len() == 1 {
            if extra.contains(p) {
                assert(extra[0] == p);
            } else {
                assert(extra[0] != p);
            }
        }
        match p {
            LinkProblem::Dangling { to, .. } => lemma_last_contains(tos, to),
            LinkProblem::WaypointInCriteria { waypoint, .. } => lemma_last_contains(tos, waypoint),
            _ => {},
        }
    }
}

proof fn lemma_entry_contains(s: Seq<(String, Card)>, e: (String, Card), p: LinkProblem)
    ensures
        entry_problems(s, e).contains(p) <==> problem_of_entry(s, e, p),
{
    let a = dangling(s, e.0, RelationField::DependsOn, e.1.depends_on_of());
    let b = dangling(s, e.0, RelationField::Blocks, e.1.blocks_of());
    let c = dangling(s, e.0, RelationField::Linked, e.1.linked_of());
    let d = criteria_problems(s, e.0, e.1.criteria_of());
    lemma_dangling_contains(s, e.0, RelationField::DependsOn, e.1.depends_on_of(), p);
    lemma_dangling_contains(s, e.0, RelationField::Blocks, e.1.blocks_of(), p);
    lemma_dangling_contains(s, e.0, RelationField::Linked, e.1.linked_of(), p);
    lemma_criteria_contains(s, e.0, e.1.criteria_of(), p);
    lemma_concat_contains(a, b, p);
    lemma_concat_contains(a + b, c, p);
    lemma_concat_contains(a + b + c, d, p);
}

proof fn lemma_problems_upto_contains(s: Seq<(String, Card)>, n: int, p: LinkProblem)
    requires
        0 <= n <= s.len(),
    ensures
        problems_upto(s, n).contains(p) <==> exists|i: int| 0 <= i < n && problem_of_entry(s, #[trigger] s[i], p),
    decreases n,
{
    if n > 0 {
        lemma_problems_upto_contains(s, n - 1, p);
        lemma_entry_contains(s, s[n - 1], p);
        lemma_concat_contains(problems_upto(s, n - 1), entry_problems(s, s[n - 1]), p);
        if exists|i: int| 0 <= i < n && problem_of_entry(s, #[trigger] s[i], p) {
            let i = choose|i: int| 0 <= i < n && problem_of_entry(s, #[trigger] s[i], p);
            if i < n - 1 {
                assert(0 <= i < n - 1 && problem_of_entry(s, s[i], p));
            }
        }
    }
}

proof fn lemma_duplicates_contains(entries: Seq<(String, Card)>, n: int, p: LinkProblem)
    requires
        0 <= n <= entries.len(),
    ensures
        duplicate_problems(entries, n).contains(p) <==> (p matches LinkProblem::DuplicateSlug { slug }
            && exists|i: int, j: int|
            0 <= i < j < n && (#[trigger] entries[j]).0 == slug && (#[trigger] entries[i]).0@ == slug@),
    decreases n,
{
    if n > 0 {
        lemma_duplicates_contains(entries, n - 1, p);
        let q = entries.take(n - 1);
        let e = entries[n - 1];
        lemma_map_of_dom(q, e.0@);
        let extra: Seq<LinkProblem> = if map_of(q).dom().contains(e.0@) {
            seq![LinkProblem::DuplicateSlug { slug: e.0 }]
        } else {
            Seq::empty()
        };
        lemma_concat_contains(duplicate_problems(entries, n - 1), extra, p);
        if extra.len() == 1 {
            if extra.contains(p) {
                assert(extra[0] == p);
            } else {
                assert(extra[0] != p);
            }
        }
        if let LinkProblem::DuplicateSlug { slug } = p {
            if exists|i: int, j: int|
                0 <= i < j < n && (#[trigger] entries[j]).0 == slug && (#[trigger] entries[i]).0@ == slug@ {
                let (i, j) = choose|i: int, j: int|
                    0 <= i < j < n && (#[trigger] entries[j]).0 == slug && (#[trigger] entries[i]).0@ == slug@;
                if j == n - 1 {
                    assert(q[i] == entries[i]);
                    assert(has_key(q, e.0@));
                } else {
                    assert(0 <= i < j < n - 1 && entries[j].0 == slug && entries[i].0@ == slug@);
                }
            }
            if extra.contains(p) {
                let i = choose|i: int| 0 <= i < q.len() && (#[trigger] q[i]).0@ == e.0@;
                assert(q[i] == entries[i]);
                assert(0 <= i < n - 1 < n && entries[n - 1].0 == slug && entries[i].0@ == slug@);
            }
        }
    }
}

/// What a resolution reports, problem by problem. Over the slug-ordered
/// map `s` that resolving `entries` builds: a `DuplicateSlug { slug }` is
/// reported exactly when `slug` is the slug of an entry that an earlier
/// entry already used; a `Dangling { from, field, to }` exactly when `to`
/// is a target of field `field` of the card under `from` and names no card;
/// a `WaypointInCriteria { owner, waypoint }` exactly when `waypoint` is a
/// `criteria` target of the card under `owner` and names a waypoint.
/// Nothing else is reported.
pub proof fn lemma_resolve_problems(entries: Seq<(String, Card)>, p: LinkProblem)
    ensures
        (duplicate_problems(entries, entries.len() as int) + relation_problems(
            build_sorted(entries),
        )).contains(p) <==> match p {
            LinkProblem::DuplicateSlug { slug } => exists|i: int, j: int|
                0 <= i < j < entries.len() && (#[trigger] entries[j]).0 == slug
                    && (#[trigger] entries[i]).0@ == slug@,
            _ => exists|i: int|
                0 <= i < build_sorted(entries).len() && problem_of_entry(
                    build_sorted(entries),
                    #[trigger] build_sorted(entries)[i],
                    p,
                ),
        },
{
    let s = build_sorted(entries);
    lemma_duplicates_contains(entries, entries.len() as int, p);
    lemma_problems_upto_contains(s, s.len() as int, p);
    lemma_concat_contains(duplicate_problems(entries, entries.len() as int), relation_problems(s), p);
}

} // verus!

verus! {

/// Resolving keeps, for each slug, the card of the last entry with that
/// slug: when entry `i` has slug `k` and no later entry does, the slug map
/// holds entry `i`'s card under `k`.
pub proof fn lemma_later_entry_wins(entries: Seq<(String, Card)>, i: int)
    requires
        0 <= i < entries.len(),
        forall|j: int| i < j < entries.len() ==> (#[trigger] entries[j]).0@ != entries[i].0@,
    ensures
        map_of(entries).dom().contains(entries[i].0@),
        map_of(entries)[entries[i].0@] == entries[i].1,
    decreases entries.len(),
{
    if i < entries.len() - 1 {
        let t = entries.drop_last();
        assert forall|j: int| i < j < t.len() implies (#[trigger] t[j]).0@ != t[i].0@ by {
            assert(t[j] == entries[j]);
        }
        lemma_later_entry_wins(t, i);
        assert(entries.last() == entries[entries.len() - 1]);
    }
}

} // verus!

