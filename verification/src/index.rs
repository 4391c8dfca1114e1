//! The rows of the SQLite index mirror. The index is a cache, never a store:
//! every rebuild drops the tables and writes exactly these rows, computed
//! from the resolved cards, so the filesystem is always authoritative.

use vstd::prelude::*;

use crate::links::{lemma_resolved_slugs_unique, strictly_sorted};
use crate::model::{
    building_status_name, card_type_name, planning_status_name, priority_name,
    waypoint_status_name, Card,
};

verus! {

/// The index schema: the queryable frontmatter fields plus a flat relations
/// table. Recreated on every rebuild.
pub const SCHEMA: &'static str = "CREATE TABLE cards (
    slug            TEXT PRIMARY KEY,
    id              TEXT NOT NULL,
    title           TEXT NOT NULL,
    type            TEXT NOT NULL,
    created         TEXT NOT NULL,
    priority        TEXT,
    phase           INTEGER,
    building_status TEXT,
    planning_status TEXT,
    waypoint_status TEXT,
    adr_number      INTEGER,
    phase_number    INTEGER
);
CREATE TABLE relations (
    from_slug TEXT NOT NULL,
    kind      TEXT NOT NULL,
    to_slug   TEXT NOT NULL
);
";

/// One row of the `cards` table.
#[derive(Debug)]
pub struct CardRow {
    pub slug: String,
    pub id: String,
    pub title: String,
    pub card_type: &'static str,
    pub created: String,
    pub priority: Option<&'static str>,
    pub phase: Option<u32>,
    pub building_status: Option<&'static str>,
    pub planning_status: Option<&'static str>,
    pub waypoint_status: Option<&'static str>,
    pub adr_number: Option<i64>,
    pub phase_number: Option<i64>,
}

/// One row of the `relations` table.
#[derive(Debug)]
pub struct RelationRow {
    pub from_slug: String,
    pub kind: &'static str,
    pub to_slug: String,
}

/// Whether an optional column holds exactly the optional text `v`.
pub open spec fn text_column(col: Option<&'static str>, v: Option<Seq<char>>) -> bool {
    match v {
        Some(t) => col matches Some(s) && s@ == t,
        None => col is None,
    }
}

/// The row that mirrors the card `card` stored under `slug`.
pub open spec fn is_card_row(row: CardRow, slug: String, card: Card) -> bool {
    &&& row.slug == slug
    &&& row.id == card.id_of()
    &&& row.title == card.title_of()
    &&& row.card_type@ == card_type_name(card.type_of())
    &&& row.created == card.created_of()
    &&& text_column(
        row.priority,
        match card.priority_of() {
            Some(p) => Some(priority_name(p)),
            None => None,
        },
    )
    &&& row.phase == card.phase_of()
    &&& text_column(
        row.building_status,
        match card {
            Card::Work(c) => Some(building_status_name(c.building_status)),
            _ => None,
        },
    )
    &&& text_column(
        row.planning_status,
        match card {
            Card::Adr(c) => Some(planning_status_name(c.planning_status)),
            _ => None,
        },
    )
    &&& text_column(
        row.waypoint_status,
        match card {
            Card::Waypoint(c) => Some(waypoint_status_name(c.status)),
            _ => None,
        },
    )
    &&& row.adr_number == match card {
        Card::Adr(c) => Some(c.adr_number as i64),
        _ => None,
    }
    &&& row.phase_number == match card {
        Card::Phase(c) => Some(c.phase_number as i64),
        _ => None,
    }
}

/// The `cards` row that mirrors `card` under `slug`.
pub fn card_row(slug: &String, card: &Card) -> (row: CardRow)
    ensures
        is_card_row(row, *slug, *card),
        row.slug == *slug && row.id == card.id_of() && row.title == card.title_of() && row.created
            == card.created_of() && row.phase == card.phase_of(),
        *card matches Card::Work(c) ==> row.card_type@ == card_type_name(c.card_type) && (row.building_status matches Some(
            b,
        ) && b@ == building_status_name(c.building_status)) && row.planning_status is None
            && row.waypoint_status is None && row.adr_number is None && row.phase_number is None,
        *card matches Card::Adr(c) ==> row.card_type@ == card_type_name(c.card_type) && (row.planning_status matches Some(
            b,
        ) && b@ == planning_status_name(c.planning_status)) && row.building_status is None
            && row.waypoint_status is None && row.adr_number == Some(c.adr_number as i64)
            && row.phase_number is None,
        *card matches Card::Phase(c) ==> row.card_type@ == card_type_name(c.card_type) && row.building_status is None
            && row.planning_status is None && row.waypoint_status is None && row.adr_number is None
            && row.phase_number == Some(c.phase_number as i64),
        *card matches Card::Waypoint(c) ==> row.card_type@ == card_type_name(c.card_type) && (row.waypoint_status matches Some(
            b,
        ) && b@ == waypoint_status_name(c.status)) && row.building_status is None
            && row.planning_status is None && row.adr_number is None && row.phase_number is None,
{
    let (building, planning, waypoint_status, adr_number, phase_number) = match card {
        Card::Work(c) => (Some(c.building_status.as_str()), None, None, None, None),
        Card::Adr(c) => (None, Some(c.planning_status.as_str()), None, Some(c.adr_number as i64), None),
        Card::Phase(c) => (None, None, None, None, Some(c.phase_number as i64)),
        Card::Waypoint(c) => (None, None, Some(c.status.as_str()), None, None),
    };
    let priority = match card.priority() {
        Some(p) => Some(p.as_str()),
        None => None,
    };
    CardRow {
        slug: slug.clone(),
        id: card.id().clone(),
        title: card.title().clone(),
        card_type: card.card_type().as_str(),
        created: card.created().clone(),
        priority,
        phase: card.phase(),
        building_status: building,
        planning_status: planning,
        waypoint_status,
        adr_number,
        phase_number,
    }
}

/// A relation row by the views of its columns.
pub open spec fn relation_view(r: RelationRow) -> (Seq<char>, Seq<char>, Seq<char>) {
    (r.from_slug@, r.kind@, r.to_slug@)
}

/// The views of a sequence of relation rows.
pub open spec fn relations_view(s: Seq<RelationRow>) -> Seq<(Seq<char>, Seq<char>, Seq<char>)> {
    s.map_values(|r: RelationRow| relation_view(r))
}

/// One relation row of kind `kind` from `from` to each target in `tos`.
pub open spec fn kind_rows(from: Seq<char>, kind: Seq<char>, tos: Seq<String>) -> Seq<(Seq<char>, Seq<char>, Seq<char>)> {
    tos.map_values(|t: String| (from, kind, t@))
}

/// The relation rows of one card: `depends_on`, `blocks`, `linked`, then
/// `criteria`, each in list order.
pub open spec fn card_relation_rows(slug: Seq<char>, card: Card) -> Seq<(Seq<char>, Seq<char>, Seq<char>)> {
    kind_rows(slug, "depends_on"@, card.depends_on_of()) + kind_rows(
        slug,
        "blocks"@,
        card.blocks_of(),
    ) + kind_rows(slug, "linked"@, card.linked_of()) + kind_rows(
        slug,
        "criteria"@,
        card.criteria_of(),
    )
}

/// The relation rows of the first `n` cards of `s`.
pub open spec fn relation_rows_upto(s: Seq<(String, Card)>, n: int) -> Seq<(Seq<char>, Seq<char>, Seq<char>)>
    decreases n,
{
    if n <= 0 {
        Seq::empty()
    } else {
        relation_rows_upto(s, n - 1) + card_relation_rows(s[n - 1].0@, s[n - 1].1)
    }
}

fn push_kind_rows(from: &String, kind: &'static str, tos: &[String], out: &mut Vec<RelationRow>)
    ensures
        relations_view(final(out)@) == relations_view(old(out)@) + kind_rows(from@, kind@, tos@),
{
    let mut j: usize = 0;
    while j < tos.len()
        invariant
            j <= tos.len(),
            relations_view(out@) == relations_view(old(out)@) + kind_rows(
                from@,
                kind@,
                tos@.take(j as int),
            ),
        decreases tos.len() - j,
    {
        let ghost before = out@;
        out.push(RelationRow { from_slug: from.clone(), kind, to_slug: tos[j].clone() });
        assert(relations_view(out@) =~= relations_view(before).push((from@, kind@, tos@[j as int]@)));
        assert(kind_rows(from@, kind@, tos@.take(j + 1)) =~= kind_rows(
            from@,
            kind@,
            tos@.take(j as int),
        ).push((from@, kind@, tos@[j as int]@)));
        j = j + 1;
        assert(relations_view(out@) =~= relations_view(old(out)@) + kind_rows(
            from@,
            kind@,
            tos@.take(j as int),
        ));
    }
    assert(tos@.take(tos.len() as int) =~= tos@);
}

/// Every row the index mirror holds for the resolved cards `by_slug`: one
/// `cards` row per card, in order, and the cards' relation rows.
pub fn mirror_rows(by_slug: &Vec<(String, Card)>) -> (rows: (Vec<CardRow>, Vec<RelationRow>))
    ensures
        rows.0.len() == by_slug.len(),
        forall|i: int|
            0 <= i < by_slug.len() ==> is_card_row(
                #[trigger] rows.0@[i],
                by_slug@[i].0,
                by_slug@[i].1,
            ),
        relations_view(rows.1@) == relation_rows_upto(by_slug@, by_slug.len() as int),
        rows.1.len() == relation_count(by_slug@, by_slug.len() as int),
        forall|row: (Seq<char>, Seq<char>, Seq<char>)|
            #[trigger] relations_view(rows.1@).contains(row) <==> exists|i: int|
                0 <= i < by_slug.len() && row.0 == (#[trigger] by_slug@[i]).0@ && has_relation(
                    by_slug@[i].1,
                    row.1,
                    row.2,
                ),
{
    let mut cards: Vec<CardRow> = Vec::new();
    let mut rels: Vec<RelationRow> = Vec::new();
    let mut i: usize = 0;
    assert(relations_view(rels@) =~= Seq::empty());
    while i < by_slug.len()
        invariant
            i <= by_slug.len(),
            cards.len() == i,
            forall|k: int|
                0 <= k < i ==> is_card_row(#[trigger] cards@[k], by_slug@[k].0, by_slug@[k].1),
            relations_view(rels@) == relation_rows_upto(by_slug@, i as int),
        decreases by_slug.len() - i,
    {
        let slug = &by_slug[i].0;
        let card = &by_slug[i].1;
        cards.push(card_row(slug, card));
        let ghost before = relations_view(rels@);
        push_kind_rows(slug, "depends_on", card.depends_on(), &mut rels);
        push_kind_rows(slug, "blocks", card.blocks(), &mut rels);
        push_kind_rows(slug, "linked", card.linked(), &mut rels);
        push_kind_rows(slug, "criteria", card.criteria(), &mut rels);
        assert(relations_view(rels@) =~= before + card_relation_rows(slug@, *card));
        i = i + 1;
    }
    proof {
        assert forall|row: (Seq<char>, Seq<char>, Seq<char>)|
            #[trigger] relations_view(rels@).contains(row) <==> exists|i: int|
                0 <= i < by_slug.len() && row.0 == (#[trigger] by_slug@[i]).0@ && has_relation(
                    by_slug@[i].1,
                    row.1,
                    row.2,
                ) by {
            lemma_mirror_relations(by_slug@, row);
        }
        lemma_mirror_relations(by_slug@, (Seq::empty(), Seq::empty(), Seq::empty()));
        assert(relations_view(rels@).len() == rels@.len());
    }
    (cards, rels)
}

} // verus!

verus! {

/// Mirroring a slug map never writes two `cards` rows with the same slug,
/// so the table's primary key holds.
pub proof fn lemma_card_rows_unique(by_slug: Seq<(String, Card)>, rows: Seq<CardRow>, i: int, j: int)
    requires
        strictly_sorted(by_slug),
        rows.len() == by_slug.len(),
        forall|k: int| 0 <= k < by_slug.len() ==> is_card_row(#[trigger] rows[k], by_slug[k].0, by_slug[k].1),
        0 <= i < rows.len(),
        0 <= j < rows.len(),
        i != j,
    ensures
        rows[i].slug@ != rows[j].slug@,
{
    assert(is_card_row(rows[i], by_slug[i].0, by_slug[i].1));
    assert(is_card_row(rows[j], by_slug[j].0, by_slug[j].1));
    lemma_resolved_slugs_unique(by_slug, i, j);
}

} // verus!

verus! {

/// A `cards` row by the views of its columns.
pub open spec fn card_row_view(r: CardRow) -> (
    (Seq<char>, Seq<char>, Seq<char>, Seq<char>, Seq<char>, Option<Seq<char>>),
    (Option<u32>, Option<Seq<char>>, Option<Seq<char>>, Option<Seq<char>>, Option<i64>, Option<i64>),
) {
    let text = |o: Option<&'static str>| match o {
        Some(s) => Some(s@),
        None => None,
    };
    (
        (r.slug@, r.id@, r.title@, r.card_type@, r.created@, text(r.priority)),
        (r.phase, text(r.building_status), text(r.planning_status), text(r.waypoint_status), r.adr_number, r.phase_number),
    )
}

/// The index mirror is a function of the resolved cards alone: two sets of
/// rows that both mirror the same cards hold the same column values, row by
/// row, and the same relation rows, so rebuilding twice gives identical
/// contents.
pub proof fn lemma_mirror_deterministic(
    by_slug: Seq<(String, Card)>,
    a: Seq<CardRow>,
    b: Seq<CardRow>,
    ra: Seq<RelationRow>,
    rb: Seq<RelationRow>,
)
    requires
        a.len() == by_slug.len(),
        b.len() == by_slug.len(),
        forall|i: int| 0 <= i < by_slug.len() ==> is_card_row(#[trigger] a[i], by_slug[i].0, by_slug[i].1),
        forall|i: int| 0 <= i < by_slug.len() ==> is_card_row(#[trigger] b[i], by_slug[i].0, by_slug[i].1),
        relations_view(ra) == relation_rows_upto(by_slug, by_slug.len() as int),
        relations_view(rb) == relation_rows_upto(by_slug, by_slug.len() as int),
    ensures
        a.map_values(|r: CardRow| card_row_view(r)) == b.map_values(|r: CardRow| card_row_view(r)),
        relations_view(ra) == relations_view(rb),
{
    assert forall|i: int| 0 <= i < a.len() implies card_row_view(#[trigger] a[i]) == card_row_view(b[i]) by {
        assert(is_card_row(a[i], by_slug[i].0, by_slug[i].1));
        assert(is_card_row(b[i], by_slug[i].0, by_slug[i].1));
    }
    assert(a.map_values(|r: CardRow| card_row_view(r)) =~= b.map_values(|r: CardRow| card_row_view(r)));
}

} // verus!

verus! {

/// Whether `card` has `to` among the targets of its relation field named
/// `kind` (`depends_on`, `blocks`, `linked` or `criteria`).
pub open spec fn has_relation(card: Card, kind: Seq<char>, to: Seq<char>) -> bool {
    ||| kind == "depends_on"@ && exists|j: int|
        0 <= j < card.depends_on_of().len() && (#[trigger] card.depends_on_of()[j])@ == to
    ||| kind == "blocks"@ && exists|j: int|
        0 <= j < card.blocks_of().len() && (#[trigger] card.blocks_of()[j])@ == to
    ||| kind == "linked"@ && exists|j: int|
        0 <= j < card.linked_of().len() && (#[trigger] card.linked_of()[j])@ == to
    ||| kind == "criteria"@ && exists|j: int|
        0 <= j < card.criteria_of().len() && (#[trigger] card.criteria_of()[j])@ == to
}

/// How many relation targets the first `n` cards of `s` have, over all four
/// relation fields.
pub open spec fn relation_count(s: Seq<(String, Card)>, n: int) -> int
    decreases n,
{
    if n <= 0 {
        0
    } else {
        relation_count(s, n - 1) + s[n - 1].1.depends_on_of().len() + s[n - 1].1.blocks_of().len()
            + s[n - 1].1.linked_of().len() + s[n - 1].1.criteria_of().len()
    }
}

proof fn lemma_kind_rows_contains(
    from: Seq<char>,
    kind: Seq<char>,
    tos: Seq<String>,
    row: (Seq<char>, Seq<char>, Seq<char>),
)
    ensures
        kind_rows(from, kind, tos).contains(row) <==> row.0 == from && row.1 == kind && exists|j: int|
            0 <= j < tos.len() && (#[trigger] tos[j])@ == row.2,
        kind_rows(from, kind, tos).len() == tos.len(),
{
    let k = kind_rows(from, kind, tos);
    if k.contains(row) {
        let i = choose|i: int| 0 <= i < k.len() && k[i] == row;
        assert(k[i] == (from, kind, tos[i]@));
    }
    if row.0 == from && row.1 == kind && exists|j: int| 0 <= j < tos.len() && (#[trigger] tos[j])@ == row.2 {
        let j = choose|j: int| 0 <= j < tos.len() && (#[trigger] tos[j])@ == row.2;
        assert(k[j] == row);
    }
}

proof fn lemma_concat3_contains<A>(a: Seq<A>, b: Seq<A>, x: A)
    ensures
        (a + b).contains(x) <==> a.contains(x) || b.contains(x),
{
    if (a + b).contains(x) {
        let i = choose|i: int| 0 <= i < (a + b).len() && (a + b)[i] == x;
        if i >= a.len() {
            assert(b[i - a.len()] == x);
        }
    }
    if a.contains(x) {
        let i = choose|i: int| 0 <= i < a.len() && a[i] == x;
        assert((a + b)[i] == x);
    }
    if b.contains(x) {
        let i = choose|i: int| 0 <= i < b.len() && b[i] == x;
        assert((a + b)[a.len() + i] == x);
    }
}

proof fn lemma_card_rows_contains(slug: Seq<char>, card: Card, row: (Seq<char>, Seq<char>, Seq<char>))
    ensures
        card_relation_rows(slug, card).contains(row) <==> row.0 == slug && has_relation(card, row.1, row.2),
        card_relation_rows(slug, card).len() == card.depends_on_of().len() + card.blocks_of().len()
            + card.linked_of().len() + card.criteria_of().len(),
{
    let a = kind_rows(slug, "depends_on"@, card.depends_on_of());
    let b = kind_rows(slug, "blocks"@, card.blocks_of());
    let c = kind_rows(slug, "linked"@, card.linked_of());
    let d = kind_rows(slug, "criteria"@, card.criteria_of());
    lemma_kind_rows_contains(slug, "depends_on"@, card.depends_on_of(), row);
    lemma_kind_rows_contains(slug, "blocks"@, card.blocks_of(), row);
    lemma_kind_rows_contains(slug, "linked"@, card.linked_of(), row);
    lemma_kind_rows_contains(slug, "criteria"@, card.criteria_of(), row);
    lemma_concat3_contains(a, b, row);
    lemma_concat3_contains(a + b, c, row);
    lemma_concat3_contains(a + b + c, d, row);
}

proof fn lemma_rows_upto_contains(s: Seq<(String, Card)>, n: int, row: (Seq<char>, Seq<char>, Seq<char>))
    requires
        0 <= n <= s.len(),
    ensures
        relation_rows_upto(s, n).contains(row) <==> exists|i: int|
            0 <= i < n && row.0 == (#[trigger] s[i]).0@ && has_relation(s[i].1, row.1, row.2),
        relation_rows_upto(s, n).len() == relation_count(s, n),
    decreases n,
{
    if n > 0 {
        lemma_rows_upto_contains(s, n - 1, row);
        lemma_card_rows_contains(s[n - 1].0@, s[n - 1].1, row);
        lemma_concat3_contains(relation_rows_upto(s, n - 1), card_relation_rows(s[n - 1].0@, s[n - 1].1), row);
        if exists|i: int| 0 <= i < n && row.0 == (#[trigger] s[i]).0@ && has_relation(s[i].1, row.1, row.2) {
            let i = choose|i: int| 0 <= i < n && row.0 == (#[trigger] s[i]).0@ && has_relation(s[i].1, row.1, row.2);
            if i < n - 1 {
                assert(0 <= i < n - 1 && row.0 == s[i].0@ && has_relation(s[i].1, row.1, row.2));
            }
        }
    } else {
        assert(relation_rows_upto(s, n).len() == 0);
    }
}

/// The relation rows of the mirror are exactly the cards' relations: a row
/// `(from, kind, to)` is there exactly when the card under slug `from` has
/// `to` among the targets of its field `kind` (`depends_on`, `blocks`,
/// `linked` or `criteria`), and there is one row per target, so as many
/// rows as the cards have targets in all.
pub proof fn lemma_mirror_relations(by_slug: Seq<(String, Card)>, row: (Seq<char>, Seq<char>, Seq<char>))
    ensures
        relation_rows_upto(by_slug, by_slug.len() as int).contains(row) <==> exists|i: int|
            0 <= i < by_slug.len() && row.0 == (#[trigger] by_slug[i]).0@ && has_relation(
                by_slug[i].1,
                row.1,
                row.2,
            ),
        relation_rows_upto(by_slug, by_slug.len() as int).len() == relation_count(
            by_slug,
            by_slug.len() as int,
        ),
{
    lemma_rows_upto_contains(by_slug, by_slug.len() as int, row);
}

} // verus!

