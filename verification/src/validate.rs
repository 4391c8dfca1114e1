//! The deterministic validators: YAML safe-load, schema shape (a typed parse
//! that also rejects unknown or retired fields) and reference resolution.
//!
//! The caller reads and parses the files; this module turns the outcomes
//! into the findings, in the order the validator reports them.

use vstd::prelude::*;

use crate::links::{
    build_sorted, check, distinct_slugs, duplicate_problems, has_key, insert_sorted,
    lemma_map_of_dom, lemma_resolution_sound_iff,
    lemma_map_of_sorted, lemma_relation_problems_empty_iff, link_problem_message, map_of,
    relation_problems, relations_resolve, strictly_sorted, LinkProblem,
};
use crate::model::Card;

verus! {

/// A single validation finding.
#[derive(Debug, Clone, PartialEq, Eq)]
pub struct Finding {
    /// Where the problem is: a project-relative path, a slug, or a section.
    pub location: String,
    /// What is wrong.
    pub detail: String,
}

/// The text of a finding as `location: detail`.
pub open spec fn finding_text(f: Finding) -> Seq<char> {
    f.location@ + ": "@ + f.detail@
}

impl Finding {
    /// The finding as one line of text, `location: detail`.
    pub fn message(&self) -> (m: String)
        ensures
            m@ == finding_text(*self),
    {
        let mut out = String::new();
        out.append(self.location.as_str());
        out.append(": ");
        out.append(self.detail.as_str());
        out
    }
}

/// The outcome of loading one YAML file: where it is, and the message of the
/// error if it did not parse.
#[derive(Debug)]
pub struct FileOutcome {
    pub location: String,
    pub error: Option<String>,
}

/// The outcome of loading one card or waypoint file: its slug, where it is,
/// and the parsed card or the message of the error.
#[derive(Debug)]
pub struct CardOutcome {
    pub slug: String,
    pub location: String,
    pub parsed: Result<Card, String>,
}

/// A finding by the views of its location and detail.
pub open spec fn finding_view(f: Finding) -> (Seq<char>, Seq<char>) {
    (f.location@, f.detail@)
}

/// The views of a sequence of findings.
pub open spec fn findings_view(s: Seq<Finding>) -> Seq<(Seq<char>, Seq<char>)> {
    s.map_values(|f: Finding| finding_view(f))
}

/// The finding for a directory that is not a project.
pub open spec fn not_a_project_detail() -> Seq<char> {
    "not an FSBerlin project (no .fsberlin/config.yaml)"@
}

/// The detail of a duplicate-slug finding.
pub open spec fn duplicate_detail() -> Seq<char> {
    "duplicate slug (slugs must be project-unique)"@
}

/// One finding per file that did not parse, in order.
pub open spec fn file_findings(a: Seq<FileOutcome>) -> Seq<(Seq<char>, Seq<char>)>
    decreases a.len(),
{
    if a.len() == 0 {
        Seq::empty()
    } else {
        file_findings(a.drop_last()) + match a.last().error {
            Some(e) => seq![(a.last().location@, e@)],
            None => Seq::empty(),
        }
    }
}

/// The `(slug, card)` entries of the cards that parsed, in order.
pub open spec fn ok_entries(c: Seq<CardOutcome>) -> Seq<(String, Card)>
    decreases c.len(),
{
    if c.len() == 0 {
        Seq::empty()
    } else {
        ok_entries(c.drop_last()) + match c.last().parsed {
            Ok(card) => seq![(c.last().slug, card)],
            Err(_) => Seq::empty(),
        }
    }
}

/// The findings of the first `n` card files: a parse error is located at the
/// file; a parsed card whose slug an earlier parsed card used is a duplicate.
pub open spec fn card_findings(c: Seq<CardOutcome>, n: int) -> Seq<(Seq<char>, Seq<char>)>
    decreases n,
{
    if n <= 0 {
        Seq::empty()
    } else {
        card_findings(c, n - 1) + match c[n - 1].parsed {
            Ok(_) => if map_of(ok_entries(c.take(n - 1))).dom().contains(c[n - 1].slug@) {
                seq![(c[n - 1].slug@, duplicate_detail())]
            } else {
                Seq::empty()
            },
            Err(m) => seq![(c[n - 1].location@, m@)],
        }
    }
}

/// One finding in the `relations` section per relation problem.
pub open spec fn relation_findings(p: Seq<LinkProblem>) -> Seq<(Seq<char>, Seq<char>)> {
    p.map_values(|x: LinkProblem| ("relations"@, link_problem_message(x)))
}

/// Every finding for a project, in report order.
pub open spec fn expected_findings(
    root_display: Seq<char>,
    config: Option<FileOutcome>,
    agents: Seq<FileOutcome>,
    cards: Seq<CardOutcome>,
) -> Seq<(Seq<char>, Seq<char>)> {
    match config {
        None => seq![(root_display, not_a_project_detail())],
        Some(cfg) => file_findings(seq![cfg]) + file_findings(agents) + card_findings(
            cards,
            cards.len() as int,
        ) + relation_findings(relation_problems(build_sorted(ok_entries(cards)))),
    }
}

fn text(s: &str) -> (r: String)
    ensures
        r@ == s@,
{
    let mut r = String::new();
    r.append(s);
    r
}

/// Append the findings of the files that did not parse.
fn push_file_findings(files: Vec<FileOutcome>, out: &mut Vec<Finding>)
    ensures
        findings_view(final(out)@) == findings_view(old(out)@) + file_findings(files@),
{
    let ghost all = files@;
    let mut rest = files;
    let total = rest.len();
    let mut n: usize = 0;
    while rest.len() > 0
        invariant
            n <= all.len(),
            total == all.len(),
            rest@ == all.skip(n as int),
            findings_view(out@) == findings_view(old(out)@) + file_findings(all.take(n as int)),
        decreases rest.len(),
    {
        let f = rest.remove(0);
        proof {
            assert(all.take(n + 1).drop_last() =~= all.take(n as int));
            assert(all.take(n + 1).last() == f);
            assert(all.skip(n + 1) =~= all.skip(n as int).drop_first());
        }
        let ghost before = out@;
        let FileOutcome { location, error } = f;
        match error {
            Some(e) => {
                out.push(Finding { location, detail: e });
                assert(findings_view(out@) =~= findings_view(before).push((f.location@, f.error->0@)));
            },
            None => {
                assert(findings_view(out@) =~= findings_view(before));
            },
        }
        n = n + 1;
        assert(findings_view(out@) =~= findings_view(old(out)@) + file_findings(all.take(n as int)));
    }
    assert(all.take(all.len() as int) =~= all);
}

/// The findings of a project, from what loading its files produced.
///
/// `config` is `None` when `.fsberlin/config.yaml` is not a file: the
/// directory is then not a project, and that is the only finding. Otherwise
/// the findings are, in order: the config's parse error, the agents' parse
/// errors, the card files' parse errors and duplicate slugs (in file order),
/// and the relation problems of the parsed cards.
pub fn validate(
    root_display: String,
    config: Option<FileOutcome>,
    agents: Vec<FileOutcome>,
    cards: Vec<CardOutcome>,
) -> (findings: Vec<Finding>)
    ensures
        findings_view(findings@) == expected_findings(root_display@, config, agents@, cards@),
        config is None ==> findings@.len() == 1 && findings@[0].location@ == root_display@
            && findings@[0].detail@ == "not an FSBerlin project (no .fsberlin/config.yaml)"@,
        config is Some ==> findings@.len() >= relation_problems(build_sorted(ok_entries(cards@))).len(),
        config is Some ==> forall|i: int|
            0 <= i < relation_problems(build_sorted(ok_entries(cards@))).len() ==> {
                let f = #[trigger] findings@[findings@.len() - relation_problems(
                    build_sorted(ok_entries(cards@)),
                ).len() + i];
                &&& f.location@ == "relations"@
                &&& f.detail@ == link_problem_message(
                    relation_problems(build_sorted(ok_entries(cards@)))[i],
                )
            },
{
    let mut findings: Vec<Finding> = Vec::new();
    let cfg = match config {
        None => {
            let ghost rd = root_display@;
            findings.push(
                Finding {
                    location: root_display,
                    detail: text("not an FSBerlin project (no .fsberlin/config.yaml)"),
                },
            );
            assert(findings_view(findings@) =~= seq![(rd, not_a_project_detail())]);
            return findings;
        },
        Some(cfg) => cfg,
    };
    let ghost agents_view = agents@;
    let ghost cfg_view = cfg;
    let mut cfg_list: Vec<FileOutcome> = Vec::new();
    cfg_list.push(cfg);
    assert(cfg_list@ =~= seq![cfg_view]);
    assert(findings_view(findings@) =~= Seq::empty());
    push_file_findings(cfg_list, &mut findings);
    push_file_findings(agents, &mut findings);
    let ghost prefix = findings_view(findings@);

    let ghost all = cards@;
    let mut rest = cards;
    let total = rest.len();
    let mut by_slug: Vec<(String, Card)> = Vec::new();
    let mut n: usize = 0;
    while rest.len() > 0
        invariant
            n <= all.len(),
            total == all.len(),
            rest@ == all.skip(n as int),
            strictly_sorted(by_slug@),
            by_slug@ == build_sorted(ok_entries(all.take(n as int))),
            map_of(by_slug@) == map_of(ok_entries(all.take(n as int))),
            findings_view(findings@) == prefix + card_findings(all, n as int),
        decreases rest.len(),
    {
        let co = rest.remove(0);
        proof {
            assert(all.take(n + 1).drop_last() =~= all.take(n as int));
            assert(all.take(n + 1).last() == co);
            assert(all[n as int] == co);
            assert(all.skip(n + 1) =~= all.skip(n as int).drop_first());
            assert(card_findings(all, n + 1) == card_findings(all, n as int) + match co.parsed {
                Ok(_) => if map_of(ok_entries(all.take(n as int))).dom().contains(co.slug@) {
                    seq![(co.slug@, duplicate_detail())]
                } else {
                    Seq::empty()
                },
                Err(m) => seq![(co.location@, m@)],
            });
            lemma_map_of_sorted(by_slug@);
        }
        let ghost before = findings@;
        let CardOutcome { slug, location, parsed } = co;
        match parsed {
            Ok(card) => {
                let ghost ok_before = ok_entries(all.take(n as int));
                assert(ok_entries(all.take(n + 1)) =~= ok_before.push((slug, card)));
                assert(ok_entries(all.take(n + 1)).drop_last() =~= ok_before);
                let dup_slug = slug.clone();
                if insert_sorted(&mut by_slug, slug, card) {
                    findings.push(
                        Finding {
                            location: dup_slug,
                            detail: text("duplicate slug (slugs must be project-unique)"),
                        },
                    );
                    assert(findings_view(findings@) =~= findings_view(before).push(
                        (co.slug@, duplicate_detail()),
                    ));
                } else {
                    assert(findings_view(findings@) =~= findings_view(before));
                }
            },
            Err(m) => {
                assert(ok_entries(all.take(n + 1)) =~= ok_entries(all.take(n as int)));
                findings.push(Finding { location, detail: m });
                assert(findings_view(findings@) =~= findings_view(before).push(
                    (co.location@, co.parsed->Err_0@),
                ));
            },
        }
        n = n + 1;
        assert(findings_view(findings@) =~= prefix + card_findings(all, n as int));
    }
    assert(all.take(all.len() as int) =~= all);

    let problems = check(&by_slug);
    let ghost base = findings_view(findings@);
    let mut j: usize = 0;
    while j < problems.len()
        invariant
            j <= problems.len(),
            findings_view(findings@) == base + relation_findings(problems@.take(j as int)),
        decreases problems.len() - j,
    {
        let ghost before = findings@;
        let detail = problems[j].message();
        findings.push(Finding { location: text("relations"), detail });
        assert(problems@.take(j + 1) =~= problems@.take(j as int).push(problems@[j as int]));
        assert(findings_view(findings@) =~= findings_view(before).push(
            ("relations"@, link_problem_message(problems@[j as int])),
        ));
        j = j + 1;
        assert(findings_view(findings@) =~= base + relation_findings(problems@.take(j as int)));
    }
    assert(problems@.take(problems.len() as int) =~= problems@);
    proof {
        lemma_relation_findings(problems@);
        let p = problems@;
        let fv = findings_view(findings@);
        assert(fv == base + relation_findings(p));
        assert(fv.len() == findings@.len());
        assert forall|i: int| 0 <= i < p.len() implies {
            let f = #[trigger] findings@[findings@.len() - p.len() + i];
            &&& f.location@ == "relations"@
            &&& f.detail@ == link_problem_message(p[i])
        } by {
            let k = findings@.len() - p.len() + i;
            assert(fv[k] == relation_findings(p)[i]);
            assert(fv[k] == finding_view(findings@[k]));
        }
    }
    findings
}

/// One finding in the `relations` section per relation problem, in order,
/// with the problem's message as its detail.
pub proof fn lemma_relation_findings(p: Seq<LinkProblem>)
    ensures
        relation_findings(p).len() == p.len(),
        forall|i: int|
            0 <= i < p.len() ==> #[trigger] relation_findings(p)[i] == ("relations"@, link_problem_message(p[i])),
{
}

} // verus!

verus! {

/// Whether a project's files are all well-formed and its relations sound: a
/// config that parses, agents that parse, cards that parse with distinct
/// slugs, and relations that resolve with no waypoint among criteria.
pub open spec fn project_valid(config: Option<FileOutcome>, agents: Seq<FileOutcome>, cards: Seq<CardOutcome>) -> bool {
    &&& config matches Some(cfg) && cfg.error is None
    &&& forall|i: int| 0 <= i < agents.len() ==> (#[trigger] agents[i]).error is None
    &&& forall|i: int| 0 <= i < cards.len() ==> (#[trigger] cards[i]).parsed is Ok
    &&& distinct_slugs(ok_entries(cards))
    &&& relations_resolve(build_sorted(ok_entries(cards)))
}

proof fn lemma_file_findings_empty(a: Seq<FileOutcome>)
    ensures
        file_findings(a).len() == 0 <==> forall|i: int| 0 <= i < a.len() ==> (#[trigger] a[i]).error is None,
    decreases a.len(),
{
    if a.len() > 0 {
        let t = a.drop_last();
        lemma_file_findings_empty(t);
        if forall|i: int| 0 <= i < a.len() ==> (#[trigger] a[i]).error is None {
            assert forall|i: int| 0 <= i < t.len() implies (#[trigger] t[i]).error is None by {
                assert(t[i] == a[i]);
            }
            assert(a[a.len() - 1].error is None);
        } else {
            let i = choose|i: int| 0 <= i < a.len() && !((#[trigger] a[i]).error is None);
            if i < a.len() - 1 {
                assert(t[i] == a[i]);
            }
        }
    }
}

proof fn lemma_distinct_push(p: Seq<(String, Card)>, e: (String, Card))
    ensures
        distinct_slugs(p.push(e)) <==> distinct_slugs(p) && !has_key(p, e.0@),
{
    let q = p.push(e);
    if distinct_slugs(q) {
        assert forall|i: int, j: int| 0 <= i < j < p.len() implies p[i].0@ != p[j].0@ by {
            assert(q[i] == p[i] && q[j] == p[j]);
        }
        if has_key(p, e.0@) {
            let i = choose|i: int| 0 <= i < p.len() && (#[trigger] p[i]).0@ == e.0@;
            assert(q[i] == p[i] && q[p.len() as int] == e);
        }
    }
    if distinct_slugs(p) && !has_key(p, e.0@) {
        assert forall|i: int, j: int| 0 <= i < j < q.len() implies q[i].0@ != q[j].0@ by {
            assert(q[i] == p[i]);
            if j < p.len() {
                assert(q[j] == p[j]);
            } else if q[i].0@ == q[j].0@ {
                assert(p[i].0@ == e.0@);
            }
        }
    }
}

proof fn lemma_card_findings_empty(c: Seq<CardOutcome>, n: int)
    requires
        0 <= n <= c.len(),
    ensures
        card_findings(c, n).len() == 0 <==> (forall|i: int| 0 <= i < n ==> (#[trigger] c[i]).parsed is Ok)
            && distinct_slugs(ok_entries(c.take(n))),
    decreases n,
{
    if n == 0 {
        assert(c.take(0) =~= Seq::<CardOutcome>::empty());
    } else {
        lemma_card_findings_empty(c, n - 1);
        let p = c.take(n - 1);
        assert(c.take(n).drop_last() =~= p);
        assert(c.take(n).last() == c[n - 1]);
        match c[n - 1].parsed {
            Ok(card) => {
                let oe = ok_entries(p);
                assert(ok_entries(c.take(n)) == oe.push((c[n - 1].slug, card)));
                lemma_map_of_dom(oe, c[n - 1].slug@);
                lemma_distinct_push(oe, (c[n - 1].slug, card));
            },
            Err(_) => {
                assert(!(c[n - 1].parsed is Ok));
            },
        }
    }
}

/// A project has no finding exactly when it is valid: its config, agents and
/// cards all parse, card slugs are distinct, and every relation resolves with
/// no waypoint among criteria.
pub proof fn lemma_no_findings_iff_valid(
    root_display: Seq<char>,
    config: Option<FileOutcome>,
    agents: Seq<FileOutcome>,
    cards: Seq<CardOutcome>,
)
    ensures
        expected_findings(root_display, config, agents, cards).len() == 0 <==> project_valid(
            config,
            agents,
            cards,
        ),
{
    if let Some(cfg) = config {
        lemma_file_findings_empty(seq![cfg]);
        assert(seq![cfg][0] == cfg);
        lemma_file_findings_empty(agents);
        lemma_card_findings_empty(cards, cards.len() as int);
        assert(cards.take(cards.len() as int) =~= cards);
        lemma_relation_problems_empty_iff(build_sorted(ok_entries(cards)));
    }
}

/// Validation and resolution judge a project alike: when its config and
/// agents parse and every card file parses, validation reports nothing
/// exactly when resolving the parsed cards (in file order) reports no
/// problem.
pub proof fn lemma_validate_agrees_with_resolve(
    root_display: Seq<char>,
    cfg: FileOutcome,
    agents: Seq<FileOutcome>,
    cards: Seq<CardOutcome>,
)
    requires
        cfg.error is None,
        forall|i: int| 0 <= i < agents.len() ==> (#[trigger] agents[i]).error is None,
        forall|i: int| 0 <= i < cards.len() ==> (#[trigger] cards[i]).parsed is Ok,
    ensures
        expected_findings(root_display, Some(cfg), agents, cards).len() == 0 <==> (duplicate_problems(
            ok_entries(cards),
            ok_entries(cards).len() as int,
        ) + relation_problems(build_sorted(ok_entries(cards)))).len() == 0,
{
    lemma_no_findings_iff_valid(root_display, Some(cfg), agents, cards);
    lemma_resolution_sound_iff(ok_entries(cards));
}

} // verus!

verus! {

proof fn lemma_file_findings_contains(a: Seq<FileOutcome>, k: int)
    requires
        0 <= k < a.len(),
        a[k].error is Some,
    ensures
        file_findings(a).contains((a[k].location@, a[k].error->0@)),
    decreases a.len(),
{
    let t = a.drop_last();
    let x = (a[k].location@, a[k].error->0@);
    if k < a.len() - 1 {
        assert(t[k] == a[k]);
        lemma_file_findings_contains(t, k);
        let prev = file_findings(t);
        let i = choose|i: int| 0 <= i < prev.len() && prev[i] == x;
        assert(file_findings(a)[i] == x);
    } else {
        assert(a.last() == a[k]);
        assert(file_findings(a)[file_findings(t).len() as int] == x);
    }
}

proof fn lemma_card_findings_contains(c: Seq<CardOutcome>, n: int, k: int)
    requires
        0 <= k < n <= c.len(),
        c[k].parsed is Err,
    ensures
        card_findings(c, n).contains((c[k].location@, c[k].parsed->Err_0@)),
    decreases n,
{
    let x = (c[k].location@, c[k].parsed->Err_0@);
    if k < n - 1 {
        lemma_card_findings_contains(c, n - 1, k);
        let prev = card_findings(c, n - 1);
        let i = choose|i: int| 0 <= i < prev.len() && prev[i] == x;
        assert(card_findings(c, n)[i] == x);
    } else {
        assert(card_findings(c, n)[card_findings(c, n - 1).len() as int] == x);
    }
}

/// Every load failure is reported where it happened: in a project, a
/// config, agent or card file that did not parse gives a finding located at
/// that file with the parse error as its detail.
pub proof fn lemma_parse_errors_reported(
    root_display: Seq<char>,
    cfg: FileOutcome,
    agents: Seq<FileOutcome>,
    cards: Seq<CardOutcome>,
)
    ensures
        cfg.error is Some ==> expected_findings(root_display, Some(cfg), agents, cards).contains(
            (cfg.location@, cfg.error->0@),
        ),
        forall|k: int|
            0 <= k < agents.len() && (#[trigger] agents[k]).error is Some ==> expected_findings(
                root_display,
                Some(cfg),
                agents,
                cards,
            ).contains((agents[k].location@, agents[k].error->0@)),
        forall|k: int|
            0 <= k < cards.len() && (#[trigger] cards[k]).parsed is Err ==> expected_findings(
                root_display,
                Some(cfg),
                agents,
                cards,
            ).contains((cards[k].location@, cards[k].parsed->Err_0@)),
{
    let a = file_findings(seq![cfg]);
    let b = file_findings(agents);
    let c = card_findings(cards, cards.len() as int);
    let d = relation_findings(relation_problems(build_sorted(ok_entries(cards))));
    let all = expected_findings(root_display, Some(cfg), agents, cards);
    assert(all == a + b + c + d);
    if cfg.error is Some {
        lemma_file_findings_contains(seq![cfg], 0);
        assert(seq![cfg][0] == cfg);
        let i = choose|i: int| 0 <= i < a.len() && a[i] == (cfg.location@, cfg.error->0@);
        assert(all[i] == a[i]);
    }
    assert forall|k: int| 0 <= k < agents.len() && (#[trigger] agents[k]).error is Some implies all.contains(
        (agents[k].location@, agents[k].error->0@),
    ) by {
        lemma_file_findings_contains(agents, k);
        let i = choose|i: int| 0 <= i < b.len() && b[i] == (agents[k].location@, agents[k].error->0@);
        assert(all[a.len() + i] == b[i]);
    }
    assert forall|k: int| 0 <= k < cards.len() && (#[trigger] cards[k]).parsed is Err implies all.contains(
        (cards[k].location@, cards[k].parsed->Err_0@),
    ) by {
        lemma_card_findings_contains(cards, cards.len() as int, k);
        let i = choose|i: int| 0 <= i < c.len() && c[i] == (cards[k].location@, cards[k].parsed->Err_0@);
        assert(all[a.len() + b.len() + i] == c[i]);
    }
}

} // verus!

