//! Discovering the FSBerlin project layout without ever descending into
//! tool-owned (opaque) directories.
//!
//! Discovery is targeted: only `cards/`, `waypoints/`, `agents/` and
//! `.fsberlin/` are listed. The listings are gathered by the caller; this
//! module decides which entries belong to the layout and in what order.

use std::path::PathBuf;

use vstd::prelude::*;

use crate::text::{
    chars_of, key_views, lemma_map_multiset, lemma_sorted_distinct_strict, sort_by_key,
    sorted_by_key, str_eq, strictly_ascending, string_from_range,
};

verus! {

/// A filesystem path, carried through untouched (`std::path::PathBuf`).
#[verifier::external_type_specification]
#[verifier::external_body]
pub struct ExPathBuf(PathBuf);

/// Cloning a path (`<PathBuf as Clone>::clone`) gives the same path: std
/// clones the underlying `OsString` buffer.
pub assume_specification[ <PathBuf as Clone>::clone ](p: &PathBuf) -> (r: PathBuf)
    ensures
        r == *p,
;

/// The tool-owned directory names that are opaque by default.
pub open spec fn default_opaque_paths() -> Seq<Seq<char>> {
    seq![
        ".git"@,
        ".beads"@,
        ".github"@,
        "node_modules"@,
        "target"@,
        "__pycache__"@,
        ".idea"@,
        ".vscode"@,
    ]
}

/// Whether a directory name is opaque by default.
pub open spec fn is_opaque_name(name: Seq<char>) -> bool {
    default_opaque_paths().contains(name)
}

/// Whether a directory name is opaque by default.
pub fn is_opaque(name: &str) -> (r: bool)
    ensures
        r == is_opaque_name(name@),
        r <==> (name@ == ".git"@ || name@ == ".beads"@ || name@ == ".github"@ || name@
            == "node_modules"@ || name@ == "target"@ || name@ == "__pycache__"@ || name@ == ".idea"@
            || name@ == ".vscode"@),
{
    let r = str_eq(name, ".git") || str_eq(name, ".beads") || str_eq(name, ".github") || str_eq(
        name,
        "node_modules",
    ) || str_eq(name, "target") || str_eq(name, "__pycache__") || str_eq(name, ".idea")
        || str_eq(name, ".vscode");
    proof {
        let d = default_opaque_paths();
        if r {
            if name@ == ".git"@ { assert(d[0] == name@); }
            if name@ == ".beads"@ { assert(d[1] == name@); }
            if name@ == ".github"@ { assert(d[2] == name@); }
            if name@ == "node_modules"@ { assert(d[3] == name@); }
            if name@ == "target"@ { assert(d[4] == name@); }
            if name@ == "__pycache__"@ { assert(d[5] == name@); }
            if name@ == ".idea"@ { assert(d[6] == name@); }
            if name@ == ".vscode"@ { assert(d[7] == name@); }
        } else {
            assert(!d.contains(name@));
        }
    }
    r
}

/// One entry of `cards/` or `waypoints/` as listed on disk: its name, whether
/// it is a directory, and the path of (and whether there is) the descriptor
/// file inside it.
#[derive(Debug)]
pub struct ListedFolder {
    pub name: String,
    pub is_dir: bool,
    pub candidate: PathBuf,
    pub candidate_is_file: bool,
}

/// One entry of `agents/` as listed on disk: its file name, its path, and
/// whether it is a (regular) file.
#[derive(Debug)]
pub struct ListedFile {
    pub name: String,
    pub path: PathBuf,
    pub is_file: bool,
}

/// A discovered card folder (`cards/<slug>/card.md`).
#[derive(Debug, Clone, PartialEq, Eq)]
pub struct CardEntry {
    pub slug: String,
    pub path: PathBuf,
}

/// A discovered waypoint folder (`waypoints/<slug>/waypoint.md`).
#[derive(Debug, Clone, PartialEq, Eq)]
pub struct WaypointEntry {
    pub slug: String,
    pub path: PathBuf,
}

/// A discovered agent definition (`agents/<id>.yaml`).
#[derive(Debug, Clone, PartialEq, Eq)]
pub struct AgentEntry {
    pub id: String,
    pub path: PathBuf,
}

/// The discovered shape of a project.
#[derive(Debug, Clone, PartialEq, Eq, Default)]
pub struct Layout {
    pub root: PathBuf,
    pub cards: Vec<CardEntry>,
    pub waypoints: Vec<WaypointEntry>,
    pub agents: Vec<AgentEntry>,
    pub config: Option<PathBuf>,
    pub findings_dir: Option<PathBuf>,
}

/// Whether a listed folder belongs to the layout: a non-opaque directory
/// holding the descriptor file.
pub open spec fn folder_selected(f: ListedFolder) -> bool {
    f.is_dir && !is_opaque_name(f.name@) && f.candidate_is_file
}

/// The `(slug, descriptor path)` pairs of the selected folders, in listing order.
pub open spec fn selected_folders(l: Seq<ListedFolder>) -> Seq<(String, PathBuf)>
    decreases l.len(),
{
    if l.len() == 0 {
        Seq::empty()
    } else {
        selected_folders(l.drop_last()) + if folder_selected(l.last()) {
            seq![(l.last().name, l.last().candidate)]
        } else {
            Seq::empty()
        }
    }
}

/// The index of the last `'.'` in `s`.
pub open spec fn last_dot(s: Seq<char>) -> Option<int>
    decreases s.len(),
{
    if s.len() == 0 {
        None
    } else if s.last() == '.' {
        Some(s.len() - 1)
    } else {
        last_dot(s.drop_last())
    }
}

/// The file stem of `name` when its extension is exactly `yaml`
/// (`Path::extension` / `Path::file_stem`: the extension follows the last
/// dot, unless that dot is the first character).
pub open spec fn yaml_stem(name: Seq<char>) -> Option<Seq<char>> {
    match last_dot(name) {
        Some(d) => if d > 0 && name.skip(d + 1) == "yaml"@ {
            Some(name.take(d))
        } else {
            None
        },
        None => None,
    }
}

/// The `(stem, path)` pairs of the listed `*.yaml` files, in listing order.
pub open spec fn selected_yaml(l: Seq<ListedFile>) -> Seq<(Seq<char>, PathBuf)>
    decreases l.len(),
{
    if l.len() == 0 {
        Seq::empty()
    } else {
        selected_yaml(l.drop_last()) + match yaml_stem(l.last().name@) {
            Some(stem) => if l.last().is_file {
                seq![(stem, l.last().path)]
            } else {
                Seq::empty()
            },
            None => Seq::empty(),
        }
    }
}

/// The views of the names of `(name, item)` pairs, with their items.
pub open spec fn pair_views<T>(s: Seq<(String, T)>) -> Seq<(Seq<char>, T)> {
    s.map_values(|p: (String, T)| (p.0@, p.1))
}

proof fn lemma_sorted_member<T>(a: Seq<(String, T)>, b: Seq<(String, T)>)
    requires
        a.to_multiset() == b.to_multiset(),
        forall|i: int| 0 <= i < b.len() ==> !is_opaque_name(#[trigger] b[i].0@),
    ensures
        forall|i: int| 0 <= i < a.len() ==> !is_opaque_name(#[trigger] a[i].0@),
{
    broadcast use vstd::seq_lib::group_to_multiset_ensures;

    assert forall|i: int| 0 <= i < a.len() implies !is_opaque_name(#[trigger] a[i].0@) by {
        assert(a.contains(a[i]));
        assert(b.to_multiset().count(a[i]) > 0);
        assert(b.contains(a[i]));
    }
}

/// Subdirectories (from `listing`) holding their descriptor file, as
/// `(slug, descriptor path)` sorted by slug. Opaque-named directories are
/// skipped.
pub fn folders_with_file(listing: Vec<ListedFolder>) -> (out: Vec<(String, PathBuf)>)
    ensures
        sorted_by_key(out@),
        out@.to_multiset() == selected_folders(listing@).to_multiset(),
        forall|i: int| 0 <= i < out.len() ==> !is_opaque_name(#[trigger] out@[i].0@),
{
    let ghost all = listing@;
    let mut rest = listing;
    let total = rest.len();
    let mut picked: Vec<(String, PathBuf)> = Vec::new();
    let mut n: usize = 0;
    while rest.len() > 0
        invariant
            n <= all.len(),
            total == all.len(),
            rest@ == all.skip(n as int),
            picked@ == selected_folders(all.take(n as int)),
            forall|i: int| 0 <= i < picked.len() ==> !is_opaque_name(#[trigger] picked@[i].0@),
        decreases rest.len(),
    {
        let entry = rest.remove(0);
        proof {
            assert(all.take(n + 1).drop_last() =~= all.take(n as int));
            assert(all.take(n + 1).last() == entry);
            assert(all.skip(n + 1) =~= all.skip(n as int).drop_first());
        }
        let ListedFolder { name, is_dir, candidate, candidate_is_file } = entry;
        if is_dir && !is_opaque(name.as_str()) && candidate_is_file {
            picked.push((name, candidate));
        }
        n = n + 1;
    }
    assert(all.take(all.len() as int) =~= all);
    let ghost before = picked@;
    let out = sort_by_key(picked);
    proof {
        lemma_sorted_member(out@, before);
    }
    out
}

/// The stem of `name` if its extension is exactly `yaml`.
pub fn yaml_stem_of(name: &str) -> (r: Option<String>)
    ensures
        match r {
            Some(s) => yaml_stem(name@) == Some(s@),
            None => yaml_stem(name@) is None,
        },
{
    let cs = chars_of(name);
    let mut i: usize = cs.len();
    assert(cs@.take(i as int) =~= cs@);
    while i > 0 && cs[i - 1] != '.'
        invariant
            i <= cs.len(),
            cs@ == name@,
            last_dot(cs@) == last_dot(cs@.take(i as int)),
        decreases i,
    {
        assert(cs@.take(i as int).drop_last() =~= cs@.take(i - 1));
        i = i - 1;
    }
    if i <= 1 {
        proof {
            if i == 1 {
                assert(last_dot(cs@.take(1)) == Some(0int));
            } else {
                assert(last_dot(cs@.take(0)) is None);
            }
        }
        return None;
    }
    let d = i - 1;
    assert(last_dot(cs@.take(i as int)) == Some(d as int));
    let ext = string_from_range(&cs, d + 1, cs.len());
    assert(ext@ =~= cs@.skip(d + 1));
    if str_eq(ext.as_str(), "yaml") {
        let stem = string_from_range(&cs, 0, d);
        assert(stem@ =~= cs@.take(d as int));
        Some(stem)
    } else {
        None
    }
}

/// The `*.yaml` files (from `listing`; directories are skipped), as `(stem,
/// path)` sorted by stem.
pub fn yaml_files(listing: Vec<ListedFile>) -> (out: Vec<(String, PathBuf)>)
    ensures
        sorted_by_key(out@),
        pair_views(out@).to_multiset() == selected_yaml(listing@).to_multiset(),
{
    let ghost all = listing@;
    let mut rest = listing;
    let total = rest.len();
    let mut picked: Vec<(String, PathBuf)> = Vec::new();
    let mut n: usize = 0;
    while rest.len() > 0
        invariant
            n <= all.len(),
            total == all.len(),
            rest@ == all.skip(n as int),
            pair_views(picked@) == selected_yaml(all.take(n as int)),
        decreases rest.len(),
    {
        let entry = rest.remove(0);
        proof {
            assert(all.take(n + 1).drop_last() =~= all.take(n as int));
            assert(all.take(n + 1).last() == entry);
            assert(all.skip(n + 1) =~= all.skip(n as int).drop_first());
        }
        let ghost old_picked = picked@;
        let ListedFile { name, path, is_file } = entry;
        if is_file {
            match yaml_stem_of(name.as_str()) {
                Some(stem) => {
                    let ghost sv = stem@;
                    picked.push((stem, path));
                    assert(pair_views(picked@) =~= pair_views(old_picked).push((sv, entry.path)));
                },
                None => {},
            }
        }
        n = n + 1;
        assert(pair_views(picked@) =~= selected_yaml(all.take(n as int)));
    }
    assert(all.take(all.len() as int) =~= all);
    let ghost before = picked@;
    let out = sort_by_key(picked);
    proof {
        lemma_pair_views_multiset(out@, before);
    }
    out
}

proof fn lemma_pair_views_multiset<T>(a: Seq<(String, T)>, b: Seq<(String, T)>)
    requires
        a.to_multiset() == b.to_multiset(),
    ensures
        pair_views(a).to_multiset() == pair_views(b).to_multiset(),
{
    broadcast use vstd::seq_lib::group_to_multiset_ensures;

    lemma_map_multiset(a, b, |p: (String, T)| (p.0@, p.1));
    assert(pair_views(a) == a.map_values(|p: (String, T)| (p.0@, p.1)));
    assert(pair_views(b) == b.map_values(|p: (String, T)| (p.0@, p.1)));
}

} // verus!

verus! {

/// The `(slug, path)` pairs of card entries.
pub open spec fn card_pairs(s: Seq<CardEntry>) -> Seq<(String, PathBuf)> {
    s.map_values(|e: CardEntry| (e.slug, e.path))
}

/// The `(slug, path)` pairs of waypoint entries.
pub open spec fn waypoint_pairs(s: Seq<WaypointEntry>) -> Seq<(String, PathBuf)> {
    s.map_values(|e: WaypointEntry| (e.slug, e.path))
}

/// The `(id, path)` pairs of agent entries.
pub open spec fn agent_pairs(s: Seq<AgentEntry>) -> Seq<(String, PathBuf)> {
    s.map_values(|e: AgentEntry| (e.id, e.path))
}

fn to_card_entries(pairs: Vec<(String, PathBuf)>) -> (out: Vec<CardEntry>)
    ensures
        card_pairs(out@) == pairs@,
{
    let ghost all = pairs@;
    let mut rest = pairs;
    let total = rest.len();
    let mut out: Vec<CardEntry> = Vec::new();
    let mut n: usize = 0;
    while rest.len() > 0
        invariant
            n <= all.len(),
            total == all.len(),
            rest@ == all.skip(n as int),
            card_pairs(out@) == all.take(n as int),
        decreases rest.len(),
    {
        let (slug, path) = rest.remove(0);
        proof {
            assert(all.skip(n + 1) =~= all.skip(n as int).drop_first());
        }
        assert(all[n as int] == (slug, path));
        let ghost before = out@;
        out.push(CardEntry { slug, path });
        assert(all.take(n + 1) =~= all.take(n as int).push(all[n as int]));
        assert(card_pairs(out@) =~= card_pairs(before).push(all[n as int]));
        n = n + 1;
    }
    assert(all.take(all.len() as int) =~= all);
    out
}

fn to_waypoint_entries(pairs: Vec<(String, PathBuf)>) -> (out: Vec<WaypointEntry>)
    ensures
        waypoint_pairs(out@) == pairs@,
{
    let ghost all = pairs@;
    let mut rest = pairs;
    let total = rest.len();
    let mut out: Vec<WaypointEntry> = Vec::new();
    let mut n: usize = 0;
    while rest.len() > 0
        invariant
            n <= all.len(),
            total == all.len(),
            rest@ == all.skip(n as int),
            waypoint_pairs(out@) == all.take(n as int),
        decreases rest.len(),
    {
        let (slug, path) = rest.remove(0);
        proof {
            assert(all.skip(n + 1) =~= all.skip(n as int).drop_first());
        }
        assert(all[n as int] == (slug, path));
        let ghost before = out@;
        out.push(WaypointEntry { slug, path });
        assert(all.take(n + 1) =~= all.take(n as int).push(all[n as int]));
        assert(waypoint_pairs(out@) =~= waypoint_pairs(before).push(all[n as int]));
        n = n + 1;
    }
    assert(all.take(all.len() as int) =~= all);
    out
}

fn to_agent_entries(pairs: Vec<(String, PathBuf)>) -> (out: Vec<AgentEntry>)
    ensures
        agent_pairs(out@) == pairs@,
{
    let ghost all = pairs@;
    let mut rest = pairs;
    let total = rest.len();
    let mut out: Vec<AgentEntry> = Vec::new();
    let mut n: usize = 0;
    while rest.len() > 0
        invariant
            n <= all.len(),
            total == all.len(),
            rest@ == all.skip(n as int),
            agent_pairs(out@) == all.take(n as int),
        decreases rest.len(),
    {
        let (id, path) = rest.remove(0);
        proof {
            assert(all.skip(n + 1) =~= all.skip(n as int).drop_first());
        }
        assert(all[n as int] == (id, path));
        let ghost before = out@;
        out.push(AgentEntry { id, path });
        assert(all.take(n + 1) =~= all.take(n as int).push(all[n as int]));
        assert(agent_pairs(out@) =~= agent_pairs(before).push(all[n as int]));
        n = n + 1;
    }
    assert(all.take(all.len() as int) =~= all);
    out
}

/// Assemble the layout of a project from the listings of its `cards/`,
/// `waypoints/` and `agents/` directories (a missing directory is an empty
/// listing), the path of `.fsberlin/config.yaml` if it is a file, and the
/// path of `findings/` if it is a directory.
///
/// Cards and waypoints are the non-opaque subdirectories holding `card.md`
/// and `waypoint.md` respectively; agents are the `*.yaml` files; each list
/// is sorted by slug (or id), strictly when the listing repeats no name.
#[verifier::spinoff_prover]
#[verifier::rlimit(40)]
pub fn discover(
    root: PathBuf,
    cards: Vec<ListedFolder>,
    waypoints: Vec<ListedFolder>,
    agents: Vec<ListedFile>,
    config: Option<PathBuf>,
    findings_dir: Option<PathBuf>,
) -> (layout: Layout)
    ensures
        layout.root == root,
        layout.config == config,
        layout.findings_dir == findings_dir,
        sorted_by_key(card_pairs(layout.cards@)),
        card_pairs(layout.cards@).to_multiset() == selected_folders(cards@).to_multiset(),
        forall|i: int|
            0 <= i < layout.cards.len() ==> !is_opaque_name((#[trigger] layout.cards@[i]).slug@),
        sorted_by_key(waypoint_pairs(layout.waypoints@)),
        waypoint_pairs(layout.waypoints@).to_multiset() == selected_folders(
            waypoints@,
        ).to_multiset(),
        forall|i: int|
            0 <= i < layout.waypoints.len() ==> !is_opaque_name(
                (#[trigger] layout.waypoints@[i]).slug@,
            ),
        sorted_by_key(agent_pairs(layout.agents@)),
        pair_views(agent_pairs(layout.agents@)).to_multiset() == selected_yaml(
            agents@,
        ).to_multiset(),
        forall|i: int|
            0 <= i < layout.cards.len() ==> from_listed_folder(
                cards@,
                (#[trigger] layout.cards@[i]).slug,
                layout.cards@[i].path,
            ),
        forall|k: int|
            0 <= k < cards.len() && (#[trigger] cards@[k]).is_dir && cards@[k].candidate_is_file
                && !is_opaque_name(cards@[k].name@) ==> exists|i: int|
                0 <= i < layout.cards.len() && ((#[trigger] layout.cards@[i]).slug, layout.cards@[i].path)
                    == (cards@[k].name, cards@[k].candidate),
        forall|i: int|
            0 <= i < layout.waypoints.len() ==> from_listed_folder(
                waypoints@,
                (#[trigger] layout.waypoints@[i]).slug,
                layout.waypoints@[i].path,
            ),
        forall|k: int|
            0 <= k < waypoints.len() && (#[trigger] waypoints@[k]).is_dir
                && waypoints@[k].candidate_is_file && !is_opaque_name(waypoints@[k].name@) ==> exists|i: int|
                0 <= i < layout.waypoints.len() && ((#[trigger] layout.waypoints@[i]).slug,
                layout.waypoints@[i].path) == (waypoints@[k].name, waypoints@[k].candidate),
        folder_names_distinct(cards@) ==> strictly_ascending(card_pairs(layout.cards@)),
        folder_names_distinct(waypoints@) ==> strictly_ascending(waypoint_pairs(layout.waypoints@)),
        file_names_distinct(agents@) ==> strictly_ascending(agent_pairs(layout.agents@)),
        forall|i: int|
            0 <= i < layout.agents.len() ==> from_listed_yaml(
                agents@,
                (#[trigger] layout.agents@[i]).id@,
                layout.agents@[i].path,
            ),
        forall|k: int|
            0 <= k < agents.len() && (#[trigger] agents@[k]).is_file && yaml_stem(agents@[k].name@)
                is Some ==> exists|i: int|
                0 <= i < layout.agents.len() && ((#[trigger] layout.agents@[i]).id@,
                layout.agents@[i].path) == (yaml_stem(agents@[k].name@)->0, agents@[k].path),
{
    let ghost in_cards = cards@;
    let ghost in_waypoints = waypoints@;
    let ghost in_agents = agents@;
    let card_list = folders_with_file(cards);
    let waypoint_list = folders_with_file(waypoints);
    let agent_list = yaml_files(agents);
    let ghost cl = card_list@;
    let ghost wl = waypoint_list@;
    let cards = to_card_entries(card_list);
    let waypoints = to_waypoint_entries(waypoint_list);
    let agents = to_agent_entries(agent_list);
    assert forall|i: int| 0 <= i < cards.len() implies !is_opaque_name(
        (#[trigger] cards@[i]).slug@,
    ) by {
        assert(card_pairs(cards@)[i] == cl[i]);
        assert(!is_opaque_name(cl[i].0@));
    }
    assert forall|i: int| 0 <= i < waypoints.len() implies !is_opaque_name(
        (#[trigger] waypoints@[i]).slug@,
    ) by {
        assert(waypoint_pairs(waypoints@)[i] == wl[i]);
        assert(!is_opaque_name(wl[i].0@));
    }
    proof {
        lemma_agent_entries_from_listing(in_agents, agents@);
        lemma_card_entries_from_listing(in_cards, cards@);
        lemma_waypoint_entries_from_listing(in_waypoints, waypoints@);
        if folder_names_distinct(in_cards) {
            lemma_folders_strictly_ascending(in_cards, card_pairs(cards@));
        }
        if folder_names_distinct(in_waypoints) {
            lemma_folders_strictly_ascending(in_waypoints, waypoint_pairs(waypoints@));
        }
        if file_names_distinct(in_agents) {
            lemma_yaml_strictly_ascending(in_agents, agent_pairs(agents@));
        }
    }
    Layout { root, cards, waypoints, agents, config, findings_dir }
}

} // verus!

verus! {

/// No two listed folders share a name (as is true of a directory listing).
pub open spec fn folder_names_distinct(l: Seq<ListedFolder>) -> bool {
    forall|i: int, j: int| 0 <= i < j < l.len() ==> l[i].name@ != l[j].name@
}

/// No two listed files share a name (as is true of a directory listing).
pub open spec fn file_names_distinct(l: Seq<ListedFile>) -> bool {
    forall|i: int, j: int| 0 <= i < j < l.len() ==> l[i].name@ != l[j].name@
}

proof fn lemma_selected_folder_names(l: Seq<ListedFolder>)
    ensures
        forall|i: int|
            0 <= i < selected_folders(l).len() ==> exists|k: int|
                0 <= k < l.len() && (#[trigger] l[k]).name == (#[trigger] selected_folders(l)[i]).0,
        folder_names_distinct(l) ==> key_views(selected_folders(l)).no_duplicates(),
    decreases l.len(),
{
    if l.len() > 0 {
        let t = l.drop_last();
        let last = l.last();
        lemma_selected_folder_names(t);
        let st = selected_folders(t);
        let s = selected_folders(l);
        assert forall|i: int| 0 <= i < s.len() implies exists|k: int|
            0 <= k < l.len() && (#[trigger] l[k]).name == (#[trigger] s[i]).0 by {
            if i < st.len() {
                assert(s[i] == st[i]);
                let k = choose|k: int| 0 <= k < t.len() && (#[trigger] t[k]).name == st[i].0;
                assert(l[k] == t[k]);
            } else {
                assert(l[l.len() - 1] == last);
            }
        }
        if folder_names_distinct(l) {
            assert forall|i: int, j: int| 0 <= i < j < t.len() implies t[i].name@ != t[j].name@ by {
                assert(t[i] == l[i] && t[j] == l[j]);
            }
            let ks = key_views(st);
            if folder_selected(last) {
                assert(s =~= st.push((last.name, last.candidate)));
                assert(key_views(s) =~= ks.push(last.name@));
                assert forall|i: int| 0 <= i < ks.len() implies ks[i] != last.name@ by {
                    let k = choose|k: int| 0 <= k < t.len() && (#[trigger] t[k]).name == st[i].0;
                    assert(t[k] == l[k] && l[l.len() - 1] == last);
                }
            } else {
                assert(s =~= st);
            }
        }
    }
}

proof fn lemma_last_dot(s: Seq<char>)
    ensures
        last_dot(s) matches Some(d) ==> 0 <= d < s.len() && s[d] == '.',
    decreases s.len(),
{
    if s.len() > 0 && s.last() != '.' {
        lemma_last_dot(s.drop_last());
    }
}

/// Two names with the same `yaml` stem are the same name.
#[verifier::spinoff_prover]
proof fn lemma_yaml_stem_injective(a: Seq<char>, b: Seq<char>)
    requires
        yaml_stem(a) is Some,
        yaml_stem(a) == yaml_stem(b),
    ensures
        a == b,
{
    let st = yaml_stem(a)->0;
    lemma_yaml_stem_iff(a, st);
    lemma_yaml_stem_iff(b, st);
}

proof fn lemma_selected_yaml_names(l: Seq<ListedFile>)
    ensures
        forall|i: int|
            0 <= i < selected_yaml(l).len() ==> exists|k: int|
                0 <= k < l.len() && yaml_stem((#[trigger] l[k]).name@) == Some(
                    (#[trigger] selected_yaml(l)[i]).0,
                ),
        file_names_distinct(l) ==> selected_yaml(l).map_values(
            |p: (Seq<char>, PathBuf)| p.0,
        ).no_duplicates(),
    decreases l.len(),
{
    if l.len() > 0 {
        let t = l.drop_last();
        let last = l.last();
        lemma_selected_yaml_names(t);
        let st = selected_yaml(t);
        let s = selected_yaml(l);
        assert forall|i: int| 0 <= i < s.len() implies exists|k: int|
            0 <= k < l.len() && yaml_stem((#[trigger] l[k]).name@) == Some((#[trigger] s[i]).0) by {
            if i < st.len() {
                assert(s[i] == st[i]);
                let k = choose|k: int| 0 <= k < t.len() && yaml_stem((#[trigger] t[k]).name@) == Some(st[i].0);
                assert(l[k] == t[k]);
            } else {
                assert(l[l.len() - 1] == last);
            }
        }
        if file_names_distinct(l) {
            assert forall|i: int, j: int| 0 <= i < j < t.len() implies t[i].name@ != t[j].name@ by {
                assert(t[i] == l[i] && t[j] == l[j]);
            }
            let ks = st.map_values(|p: (Seq<char>, PathBuf)| p.0);
            match yaml_stem(last.name@) {
                Some(stem) => {
                    if last.is_file {
                        assert(s =~= st.push((stem, last.path)));
                        assert(s.map_values(|p: (Seq<char>, PathBuf)| p.0) =~= ks.push(stem));
                        assert forall|i: int| 0 <= i < ks.len() implies ks[i] != stem by {
                            let k = choose|k: int|
                                0 <= k < t.len() && yaml_stem((#[trigger] t[k]).name@) == Some(st[i].0);
                            if ks[i] == stem {
                                lemma_yaml_stem_injective(t[k].name@, last.name@);
                                assert(t[k] == l[k] && l[l.len() - 1] == last);
                            }
                        }
                    } else {
                        assert(s =~= st);
                    }
                },
                None => {
                    assert(s =~= st);
                },
            }
        }
    }
}

/// Folders from a listing without repeated names come out in strictly
/// ascending slug order: sorted by slug and holding the selected folders,
/// no two share a slug.
pub proof fn lemma_folders_strictly_ascending(listing: Seq<ListedFolder>, out: Seq<(String, PathBuf)>)
    requires
        folder_names_distinct(listing),
        sorted_by_key(out),
        out.to_multiset() == selected_folders(listing).to_multiset(),
    ensures
        strictly_ascending(out),
{
    lemma_selected_folder_names(listing);
    lemma_map_multiset(out, selected_folders(listing), |p: (String, PathBuf)| p.0@);
    assert(key_views(out) =~= out.map_values(|p: (String, PathBuf)| p.0@));
    assert(key_views(selected_folders(listing)) =~= selected_folders(listing).map_values(
        |p: (String, PathBuf)| p.0@,
    ));
    lemma_sorted_distinct_strict(out, key_views(selected_folders(listing)));
}

/// `*.yaml` files from a listing without repeated names come out in
/// strictly ascending stem order.
pub proof fn lemma_yaml_strictly_ascending(listing: Seq<ListedFile>, out: Seq<(String, PathBuf)>)
    requires
        file_names_distinct(listing),
        sorted_by_key(out),
        pair_views(out).to_multiset() == selected_yaml(listing).to_multiset(),
    ensures
        strictly_ascending(out),
{
    lemma_selected_yaml_names(listing);
    let f = |p: (Seq<char>, PathBuf)| p.0;
    lemma_map_multiset(pair_views(out), selected_yaml(listing), f);
    assert(key_views(out) =~= pair_views(out).map_values(f));
    lemma_sorted_distinct_strict(out, selected_yaml(listing).map_values(f));
}

} // verus!

verus! {

proof fn lemma_selected_folders_contains(l: Seq<ListedFolder>, x: (String, PathBuf))
    ensures
        selected_folders(l).contains(x) <==> exists|k: int|
            0 <= k < l.len() && (#[trigger] l[k]).is_dir && l[k].candidate_is_file && !is_opaque_name(
                l[k].name@,
            ) && x == (l[k].name, l[k].candidate),
    decreases l.len(),
{
    if l.len() > 0 {
        let t = l.drop_last();
        let last = l.last();
        lemma_selected_folders_contains(t, x);
        let st = selected_folders(t);
        let s = selected_folders(l);
        let extra: Seq<(String, PathBuf)> = if folder_selected(last) {
            seq![(last.name, last.candidate)]
        } else {
            Seq::empty()
        };
        assert(s == st + extra);
        if s.contains(x) {
            let i = choose|i: int| 0 <= i < s.len() && s[i] == x;
            if i < st.len() {
                assert(st[i] == x);
                let k = choose|k: int|
                    0 <= k < t.len() && (#[trigger] t[k]).is_dir && t[k].candidate_is_file
                        && !is_opaque_name(t[k].name@) && x == (t[k].name, t[k].candidate);
                assert(l[k] == t[k]);
            } else {
                assert(extra[i - st.len()] == x);
                assert(l[l.len() - 1] == last);
            }
        }
        if exists|k: int|
            0 <= k < l.len() && (#[trigger] l[k]).is_dir && l[k].candidate_is_file && !is_opaque_name(
                l[k].name@,
            ) && x == (l[k].name, l[k].candidate) {
            let k = choose|k: int|
                0 <= k < l.len() && (#[trigger] l[k]).is_dir && l[k].candidate_is_file
                    && !is_opaque_name(l[k].name@) && x == (l[k].name, l[k].candidate);
            if k < t.len() {
                assert(t[k] == l[k]);
                let i = choose|i: int| 0 <= i < st.len() && st[i] == x;
                assert(s[i] == x);
            } else {
                assert(l[k] == last);
                assert(s[st.len() as int] == x);
            }
        }
    }
}

/// Whether `(slug, path)` is the name and the descriptor path of a listed
/// directory that is not opaque and whose descriptor file exists.
pub open spec fn from_listed_folder(listing: Seq<ListedFolder>, slug: String, path: PathBuf) -> bool {
    exists|k: int|
        0 <= k < listing.len() && (#[trigger] listing[k]).is_dir && listing[k].candidate_is_file
            && !is_opaque_name(listing[k].name@) && listing[k].name == slug && listing[k].candidate
            == path
}

proof fn lemma_folder_entry_listed(listing: Seq<ListedFolder>, out: Seq<(String, PathBuf)>, i: int)
    requires
        out.to_multiset() == selected_folders(listing).to_multiset(),
        0 <= i < out.len(),
    ensures
        from_listed_folder(listing, out[i].0, out[i].1),
{
    broadcast use vstd::seq_lib::group_to_multiset_ensures;

    assert(out.contains(out[i]));
    assert(selected_folders(listing).to_multiset().count(out[i]) > 0);
    lemma_selected_folders_contains(listing, out[i]);
    let k = choose|k: int|
        0 <= k < listing.len() && (#[trigger] listing[k]).is_dir && listing[k].candidate_is_file
            && !is_opaque_name(listing[k].name@) && out[i] == (listing[k].name, listing[k].candidate);
    assert(listing[k].name == out[i].0 && listing[k].candidate == out[i].1);
}

/// Discovered folders come from the listing and only from folders that
/// hold their descriptor: every `(slug, path)` produced is the name and the
/// descriptor path of a listed directory that is not opaque and whose
/// descriptor file exists, and every such listed directory is produced.
pub proof fn lemma_folders_from_listing(listing: Seq<ListedFolder>, out: Seq<(String, PathBuf)>)
    requires
        out.to_multiset() == selected_folders(listing).to_multiset(),
    ensures
        forall|i: int| 0 <= i < out.len() ==> from_listed_folder(listing, (#[trigger] out[i]).0, out[i].1),
        forall|k: int|
            0 <= k < listing.len() && (#[trigger] listing[k]).is_dir && listing[k].candidate_is_file
                && !is_opaque_name(listing[k].name@) ==> exists|i: int|
                0 <= i < out.len() && (#[trigger] out[i]) == (listing[k].name, listing[k].candidate),
{
    broadcast use vstd::seq_lib::group_to_multiset_ensures;

    let sel = selected_folders(listing);
    assert forall|i: int| 0 <= i < out.len() implies from_listed_folder(listing, (#[trigger] out[i]).0, out[i].1) by {
        lemma_folder_entry_listed(listing, out, i);
    }
    assert forall|k: int|
        0 <= k < listing.len() && (#[trigger] listing[k]).is_dir && listing[k].candidate_is_file
            && !is_opaque_name(listing[k].name@) implies exists|i: int|
        0 <= i < out.len() && (#[trigger] out[i]) == (listing[k].name, listing[k].candidate) by {
        let x = (listing[k].name, listing[k].candidate);
        lemma_selected_folders_contains(listing, x);
        assert(sel.contains(x));
        assert(out.to_multiset().count(x) > 0);
        assert(out.contains(x));
    }
}

proof fn lemma_card_entries_from_listing(listing: Seq<ListedFolder>, es: Seq<CardEntry>)
    requires
        card_pairs(es).to_multiset() == selected_folders(listing).to_multiset(),
    ensures
        forall|i: int| 0 <= i < es.len() ==> from_listed_folder(listing, (#[trigger] es[i]).slug, es[i].path),
        forall|k: int|
            0 <= k < listing.len() && (#[trigger] listing[k]).is_dir && listing[k].candidate_is_file
                && !is_opaque_name(listing[k].name@) ==> exists|i: int|
                0 <= i < es.len() && ((#[trigger] es[i]).slug, es[i].path) == (listing[k].name, listing[k].candidate),
{
    let ps = card_pairs(es);
    lemma_folders_from_listing(listing, ps);
    assert forall|i: int| 0 <= i < es.len() implies from_listed_folder(listing, (#[trigger] es[i]).slug, es[i].path) by {
        assert(ps[i] == (es[i].slug, es[i].path));
    }
    assert forall|k: int|
        0 <= k < listing.len() && (#[trigger] listing[k]).is_dir && listing[k].candidate_is_file
            && !is_opaque_name(listing[k].name@) implies exists|i: int|
        0 <= i < es.len() && ((#[trigger] es[i]).slug, es[i].path) == (listing[k].name, listing[k].candidate) by {
        let i = choose|i: int| 0 <= i < ps.len() && (#[trigger] ps[i]) == (listing[k].name, listing[k].candidate);
        assert(ps[i] == (es[i].slug, es[i].path));
    }
}

proof fn lemma_waypoint_entries_from_listing(listing: Seq<ListedFolder>, es: Seq<WaypointEntry>)
    requires
        waypoint_pairs(es).to_multiset() == selected_folders(listing).to_multiset(),
    ensures
        forall|i: int| 0 <= i < es.len() ==> from_listed_folder(listing, (#[trigger] es[i]).slug, es[i].path),
        forall|k: int|
            0 <= k < listing.len() && (#[trigger] listing[k]).is_dir && listing[k].candidate_is_file
                && !is_opaque_name(listing[k].name@) ==> exists|i: int|
                0 <= i < es.len() && ((#[trigger] es[i]).slug, es[i].path) == (listing[k].name, listing[k].candidate),
{
    let ps = waypoint_pairs(es);
    lemma_folders_from_listing(listing, ps);
    assert forall|i: int| 0 <= i < es.len() implies from_listed_folder(listing, (#[trigger] es[i]).slug, es[i].path) by {
        assert(ps[i] == (es[i].slug, es[i].path));
    }
    assert forall|k: int|
        0 <= k < listing.len() && (#[trigger] listing[k]).is_dir && listing[k].candidate_is_file
            && !is_opaque_name(listing[k].name@) implies exists|i: int|
        0 <= i < es.len() && ((#[trigger] es[i]).slug, es[i].path) == (listing[k].name, listing[k].candidate) by {
        let i = choose|i: int| 0 <= i < ps.len() && (#[trigger] ps[i]) == (listing[k].name, listing[k].candidate);
        assert(ps[i] == (es[i].slug, es[i].path));
    }
}

/// Whether `(id, path)` is the stem and the path of a listed file whose
/// name is that stem followed by `.yaml`.
pub open spec fn from_listed_yaml(listing: Seq<ListedFile>, id: Seq<char>, path: PathBuf) -> bool {
    exists|k: int|
        0 <= k < listing.len() && (#[trigger] listing[k]).is_file && listing[k].name@ == id + ".yaml"@
            && id.len() > 0 && listing[k].path == path
}

/// A name has a `yaml` stem exactly when it is a non-empty stem followed by
/// `.yaml`, and that stem is it.
#[verifier::spinoff_prover]
pub proof fn lemma_yaml_stem_iff(name: Seq<char>, stem: Seq<char>)
    ensures
        yaml_stem(name) == Some(stem) <==> stem.len() > 0 && name == stem + ".yaml"@,
{
    reveal_strlit(".yaml");
    reveal_strlit("yaml");
    let ext = ".yaml"@;
    assert(ext.len() == 5 && ext[0] == '.' && ext[1] == 'y' && ext[2] == 'a' && ext[3] == 'm' && ext[4] == 'l');
    lemma_last_dot(name);
    if yaml_stem(name) == Some(stem) {
        let d = last_dot(name)->0;
        let tail = name.skip(d + 1);
        assert(tail == "yaml"@);
        assert(tail.len() == 4);
        assert(name.len() == d + 5);
        assert forall|i: int| 0 <= i < name.len() implies name[i] == (name.take(d) + ext)[i] by {
            if i > d {
                assert(name[i] == tail[i - d - 1]);
            }
        }
        assert(name =~= name.take(d) + ext);
    }
    if stem.len() > 0 && name == stem + ext {
        let n = stem.len() as int;
        assert(name[n] == '.' && name[n + 1] == 'y' && name[n + 2] == 'a' && name[n + 3] == 'm'
            && name[n + 4] == 'l');
        let t1 = name.take(n + 1);
        let t2 = name.take(n + 2);
        let t3 = name.take(n + 3);
        let t4 = name.take(n + 4);
        assert(t1.last() == '.');
        assert(last_dot(t1) == Some(n));
        assert(t2.drop_last() =~= t1 && t2.last() == 'y');
        assert(last_dot(t2) == Some(n));
        assert(t3.drop_last() =~= t2 && t3.last() == 'a');
        assert(last_dot(t3) == Some(n));
        assert(t4.drop_last() =~= t3 && t4.last() == 'm');
        assert(last_dot(t4) == Some(n));
        assert(name.drop_last() =~= t4 && name.last() == 'l');
        assert(last_dot(name) == Some(n));
        assert(name.skip(n + 1) =~= "yaml"@);
        assert(name.take(n) =~= stem);
    }
}

proof fn lemma_selected_yaml_contains(l: Seq<ListedFile>, x: (Seq<char>, PathBuf))
    ensures
        selected_yaml(l).contains(x) <==> exists|k: int|
            0 <= k < l.len() && (#[trigger] l[k]).is_file && yaml_stem(l[k].name@) == Some(x.0)
                && x.1 == l[k].path,
    decreases l.len(),
{
    if l.len() > 0 {
        let t = l.drop_last();
        let last = l.last();
        lemma_selected_yaml_contains(t, x);
        let st = selected_yaml(t);
        let s = selected_yaml(l);
        let extra: Seq<(Seq<char>, PathBuf)> = match yaml_stem(last.name@) {
            Some(stem) => if last.is_file {
                seq![(stem, last.path)]
            } else {
                Seq::empty()
            },
            None => Seq::empty(),
        };
        assert(s == st + extra);
        if s.contains(x) {
            let i = choose|i: int| 0 <= i < s.len() && s[i] == x;
            if i < st.len() {
                assert(st[i] == x);
                let k = choose|k: int|
                    0 <= k < t.len() && (#[trigger] t[k]).is_file && yaml_stem(t[k].name@) == Some(x.0)
                        && x.1 == t[k].path;
                assert(l[k] == t[k]);
            } else {
                assert(extra[i - st.len()] == x);
                assert(l[l.len() - 1] == last);
            }
        }
        if exists|k: int|
            0 <= k < l.len() && (#[trigger] l[k]).is_file && yaml_stem(l[k].name@) == Some(x.0) && x.1
                == l[k].path {
            let k = choose|k: int|
                0 <= k < l.len() && (#[trigger] l[k]).is_file && yaml_stem(l[k].name@) == Some(x.0)
                    && x.1 == l[k].path;
            if k < t.len() {
                assert(t[k] == l[k]);
                let i = choose|i: int| 0 <= i < st.len() && st[i] == x;
                assert(s[i] == x);
            } else {
                assert(l[k] == last);
                assert(s[st.len() as int] == x);
            }
        }
    }
}

proof fn lemma_agent_entries_from_listing(listing: Seq<ListedFile>, es: Seq<AgentEntry>)
    requires
        pair_views(agent_pairs(es)).to_multiset() == selected_yaml(listing).to_multiset(),
    ensures
        forall|i: int| 0 <= i < es.len() ==> from_listed_yaml(listing, (#[trigger] es[i]).id@, es[i].path),
        forall|k: int|
            0 <= k < listing.len() && (#[trigger] listing[k]).is_file && yaml_stem(listing[k].name@)
                is Some ==> exists|i: int|
                0 <= i < es.len() && ((#[trigger] es[i]).id@, es[i].path) == (
                    yaml_stem(listing[k].name@)->0,
                    listing[k].path,
                ),
{
    broadcast use vstd::seq_lib::group_to_multiset_ensures;

    let ps = pair_views(agent_pairs(es));
    assert forall|i: int| 0 <= i < es.len() implies from_listed_yaml(listing, (#[trigger] es[i]).id@, es[i].path) by {
        assert(ps[i] == (es[i].id@, es[i].path));
        assert(ps.contains(ps[i]));
        assert(selected_yaml(listing).to_multiset().count(ps[i]) > 0);
        lemma_selected_yaml_contains(listing, ps[i]);
        let k = choose|k: int|
            0 <= k < listing.len() && (#[trigger] listing[k]).is_file && yaml_stem(listing[k].name@)
                == Some(ps[i].0) && ps[i].1 == listing[k].path;
        lemma_yaml_stem_iff(listing[k].name@, es[i].id@);
    }
    assert forall|k: int|
        0 <= k < listing.len() && (#[trigger] listing[k]).is_file && yaml_stem(listing[k].name@) is Some implies exists|i: int|
        0 <= i < es.len() && ((#[trigger] es[i]).id@, es[i].path) == (
            yaml_stem(listing[k].name@)->0,
            listing[k].path,
        ) by {
        let x = (yaml_stem(listing[k].name@)->0, listing[k].path);
        lemma_selected_yaml_contains(listing, x);
        assert(selected_yaml(listing).contains(x));
        assert(ps.to_multiset().count(x) > 0);
        assert(ps.contains(x));
        let i = choose|i: int| 0 <= i < ps.len() && ps[i] == x;
        assert(ps[i] == (es[i].id@, es[i].path));
    }
}

} // verus!

