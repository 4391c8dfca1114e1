//! Rendering a waypoint's projected state: `projected = base + overlay`.
//!
//! The base is the project tree minus `waypoints/`, opaque directories and the
//! regenerable index cache; the overlay is the files under
//! `waypoints/<slug>/` (except its `waypoint.md` descriptor), which shadow
//! base files at the same relative path. Invariant-floor files (root
//! `why.md`, `schema/*`) may not be overlaid. The caller walks and copies the
//! files; this module makes every decision.

use vstd::prelude::*;

use crate::text::{chars_of, push_char, seq_le, sort_strings, str_eq};
use crate::walk::{is_opaque, is_opaque_name};
use crate::{Error, Result};

verus! {

/// What a render produced.
#[derive(Debug, Default, PartialEq, Eq)]
pub struct RenderReport {
    /// Number of base files copied.
    pub base_files: usize,
    /// Relative paths contributed by the overlay (added or shadowed), sorted.
    pub overlaid: Vec<String>,
}

/// Whether `rel` is an invariant-floor path: root `why.md`, `schema`, or
/// anything under `schema/`.
pub open spec fn invariant_floor(rel: Seq<char>) -> bool {
    rel == "why.md"@ || rel == "schema"@ || (rel.len() >= 7 && rel.take(7) == "schema/"@)
}

/// Whether `rel` is an invariant-floor path.
pub fn is_invariant_floor(rel: &str) -> (r: bool)
    ensures
        r == invariant_floor(rel@),
{
    if str_eq(rel, "why.md") || str_eq(rel, "schema") {
        return true;
    }
    let cs = chars_of(rel);
    let p = chars_of("schema/");
    proof {
        reveal_strlit("schema/");
        assert(p@.len() == 7);
    }
    if cs.len() < p.len() {
        proof {
            reveal_strlit("schema/");
        }
        return false;
    }
    let mut i: usize = 0;
    while i < p.len()
        invariant
            i <= p.len(),
            p.len() <= cs.len(),
            cs@ == rel@,
            p@ == "schema/"@,
            p.len() == 7,
            rel@ != "why.md"@,
            rel@ != "schema"@,
            forall|k: int| 0 <= k < i ==> cs@[k] == p@[k],
        decreases p.len() - i,
    {
        if cs[i] != p[i] {
            proof {
                assert(rel@.take(7)[i as int] != "schema/"@[i as int]);
                if rel@.take(7) == "schema/"@ {
                    assert(rel@.take(7)[i as int] == "schema/"@[i as int]);
                }
            }
            return false;
        }
        i = i + 1;
    }
    proof {
        reveal_strlit("schema/");
        assert(rel@.take(7) =~= "schema/"@);
    }
    true
}

/// Why a render is refused before any file is written, if it is: the
/// waypoint directory must exist, the output must lie outside the project,
/// and an existing output directory must be empty.
pub open spec fn preflight_refusal(
    slug: Seq<char>,
    waypoint_is_dir: bool,
    out_inside_root: bool,
    out_nonempty: bool,
    out_display: Seq<char>,
) -> Option<Seq<char>> {
    if !waypoint_is_dir {
        Some("no waypoint `"@ + slug + "`"@)
    } else if out_inside_root {
        Some("output directory must be outside the project"@)
    } else if out_nonempty {
        Some(out_display + " is not empty (refusing to clobber)"@)
    } else {
        None
    }
}

/// Check that a render may start.
pub fn render_preflight(
    slug: &str,
    waypoint_is_dir: bool,
    out_inside_root: bool,
    out_nonempty: bool,
    out_display: &str,
) -> (r: Result<()>)
    ensures
        match preflight_refusal(slug@, waypoint_is_dir, out_inside_root, out_nonempty, out_display@) {
            None => r is Ok,
            Some(m) => r matches Err(Error::Render(s)) && s@ == m,
        },
        (r is Ok) <==> (waypoint_is_dir && !out_inside_root && !out_nonempty),
        !waypoint_is_dir ==> (r matches Err(Error::Render(s)) && s@ == "no waypoint `"@ + slug@ + "`"@),
        waypoint_is_dir && out_inside_root ==> (r matches Err(Error::Render(s)) && s@
            == "output directory must be outside the project"@),
        waypoint_is_dir && !out_inside_root && out_nonempty ==> (r matches Err(Error::Render(s)) && s@
            == out_display@ + " is not empty (refusing to clobber)"@),
{
    if !waypoint_is_dir {
        let mut m = String::new();
        m.append("no waypoint `");
        m.append(slug);
        m.append("`");
        return Err(Error::Render(m));
    }
    if out_inside_root {
        let mut m = String::new();
        m.append("output directory must be outside the project");
        return Err(Error::Render(m));
    }
    if out_nonempty {
        let mut m = String::new();
        m.append(out_display);
        m.append(" is not empty (refusing to clobber)");
        return Err(Error::Render(m));
    }
    Ok(())
}

/// Whether the base walk descends into the directory `name` (a direct child
/// of the project root when `at_root`): not into opaque directories, and not
/// into the root's `waypoints/`.
pub open spec fn base_descends(at_root: bool, name: Seq<char>) -> bool {
    !(is_opaque_name(name) || (at_root && name == "waypoints"@))
}

/// Whether the base walk descends into the directory `name`.
pub fn base_descends_into(at_root: bool, name: &str) -> (r: bool)
    ensures
        r == base_descends(at_root, name@),
{
    !(is_opaque(name) || (at_root && str_eq(name, "waypoints")))
}

/// Whether the base file at relative path `rel` is copied: every file but
/// the regenerable index cache.
pub open spec fn base_copies(rel: Seq<char>) -> bool {
    rel != ".fsberlin/index.sqlite"@
}

/// Whether the base file at relative path `rel` is copied.
pub fn base_copies_file(rel: &str) -> (r: bool)
    ensures
        r == base_copies(rel@),
{
    !str_eq(rel, ".fsberlin/index.sqlite")
}

/// `s` with every `'\\'` replaced by `'/'`.
pub open spec fn forward_slashes(s: Seq<char>) -> Seq<char> {
    s.map_values(|c: char| if c == '\\' { '/' } else { c })
}

/// The relative path `rel` with forward slashes only.
pub fn normalize_separators(rel: &str) -> (r: String)
    ensures
        r@ == forward_slashes(rel@),
{
    let cs = chars_of(rel);
    let mut out = String::new();
    let mut i: usize = 0;
    while i < cs.len()
        invariant
            i <= cs.len(),
            cs@ == rel@,
            out@ == forward_slashes(cs@.take(i as int)),
        decreases cs.len() - i,
    {
        let c = cs[i];
        push_char(&mut out, if c == '\\' { '/' } else { c });
        i = i + 1;
        assert(forward_slashes(cs@.take(i as int)) =~= forward_slashes(cs@.take((i - 1) as int)).push(
            if c == '\\' { '/' } else { c },
        ));
    }
    assert(cs@.take(cs.len() as int) =~= cs@);
    out
}

/// What the overlay does with its file at relative path `rel` (forward
/// slashes): skip the `waypoint.md` descriptor (`Ok(false)`), refuse an
/// invariant-floor path, or copy it over the base (`Ok(true)`).
pub open spec fn overlay_decision(rel: Seq<char>) -> std::result::Result<bool, Seq<char>> {
    if rel == "waypoint.md"@ {
        Ok(false)
    } else if invariant_floor(rel) {
        Err("overlay may not shadow invariant-floor file `"@ + rel + "`"@)
    } else {
        Ok(true)
    }
}

/// Decide what the overlay does with its file at relative path `rel`.
pub fn overlay_action(rel: &str) -> (r: Result<bool>)
    ensures
        match overlay_decision(rel@) {
            Ok(b) => r == Ok::<bool, Error>(b),
            Err(m) => r matches Err(Error::Render(s)) && s@ == m,
        },
        rel@ == "waypoint.md"@ ==> r == Ok::<bool, Error>(false),
        rel@ != "waypoint.md"@ && (rel@ == "why.md"@ || rel@ == "schema"@ || (rel@.len() >= 7
            && rel@.take(7) == "schema/"@)) ==> (r matches Err(Error::Render(s)) && s@
            == "overlay may not shadow invariant-floor file `"@ + rel@ + "`"@),
        rel@ != "waypoint.md"@ && !(rel@ == "why.md"@ || rel@ == "schema"@ || (rel@.len() >= 7
            && rel@.take(7) == "schema/"@)) ==> r == Ok::<bool, Error>(true),
{
    if str_eq(rel, "waypoint.md") {
        return Ok(false);
    }
    if is_invariant_floor(rel) {
        let mut m = String::new();
        m.append("overlay may not shadow invariant-floor file `");
        m.append(rel);
        m.append("`");
        return Err(Error::Render(m));
    }
    Ok(true)
}

/// The report of a finished render: the base file count and the overlaid
/// paths in sorted order.
pub fn finish_report(base_files: usize, overlaid: Vec<String>) -> (r: RenderReport)
    ensures
        r.base_files == base_files,
        forall|i: int, j: int|
            0 <= i < j < r.overlaid.len() ==> seq_le(r.overlaid@[i]@, r.overlaid@[j]@),
        r.overlaid@.to_multiset() == overlaid@.to_multiset(),
{
    RenderReport { base_files, overlaid: sort_strings(overlaid) }
}

} // verus!

verus! {

/// What the projection never contains: the overlay never writes its
/// `waypoint.md` descriptor or an invariant-floor file; the base walk never
/// enters opaque directories or the root `waypoints/` directory, and never
/// copies the index cache.
pub proof fn lemma_projection_excludes(rel: Seq<char>, at_root: bool, name: Seq<char>)
    ensures
        overlay_decision(rel) == Ok::<bool, Seq<char>>(true) ==> rel != "waypoint.md"@
            && !invariant_floor(rel),
        is_opaque_name(name) ==> !base_descends(at_root, name),
        !base_descends(true, "waypoints"@),
        !base_copies(".fsberlin/index.sqlite"@),
{
}

} // verus!

verus! {

/// The base files that are copied, from the base walk's files (relative
/// paths, forward slashes), in walk order.
pub open spec fn copied_base(base: Seq<String>) -> Seq<String>
    decreases base.len(),
{
    if base.len() == 0 {
        Seq::empty()
    } else {
        copied_base(base.drop_last()) + if base_copies(base.last()@) {
            seq![base.last()]
        } else {
            Seq::empty()
        }
    }
}

/// The overlay files that are copied, from the overlay walk's files
/// (relative paths, forward slashes), in walk order; or the refusal of the
/// first one that would shadow an invariant-floor file.
pub open spec fn overlay_outcome(overlay: Seq<String>) -> std::result::Result<Seq<String>, Seq<char>>
    decreases overlay.len(),
{
    if overlay.len() == 0 {
        Ok(Seq::empty())
    } else {
        match overlay_outcome(overlay.drop_last()) {
            Err(m) => Err(m),
            Ok(o) => match overlay_decision(overlay.last()@) {
                Err(m) => Err(m),
                Ok(copy) => if copy {
                    Ok(o.push(overlay.last()))
                } else {
                    Ok(o)
                },
            },
        }
    }
}

/// Paths tagged with where their content comes from (`true`: the overlay).
pub open spec fn tagged(paths: Seq<String>, from_overlay: bool) -> Seq<(String, bool)> {
    paths.map_values(|p: String| (p, from_overlay))
}

/// A projection: every file written, in write order, each with whether it
/// comes from the overlay, and the report of the render.
#[derive(Debug)]
pub struct Projection {
    pub files: Vec<(String, bool)>,
    pub report: RenderReport,
}

/// Plan the projection of a waypoint from the files the base walk found
/// and the files under the waypoint's directory (relative paths with
/// forward slashes, in walk order): the copied base files are written
/// first, then the copied overlay files over them; or the refusal of an
/// overlay file that would shadow an invariant-floor file.
pub fn projection(base: Vec<String>, overlay: Vec<String>) -> (r: Result<Projection>)
    ensures
        match overlay_outcome(overlay@) {
            Err(m) => r matches Err(Error::Render(s)) && s@ == m,
            Ok(o) => r matches Ok(p) && {
                &&& p.files@ == tagged(copied_base(base@), false) + tagged(o, true)
                &&& p.report.base_files == copied_base(base@).len()
                &&& forall|i: int, j: int|
                    0 <= i < j < p.report.overlaid.len() ==> seq_le(
                        p.report.overlaid@[i]@,
                        p.report.overlaid@[j]@,
                    )
                &&& p.report.overlaid@.to_multiset() == o.to_multiset()
            },
        },
{
    let mut files: Vec<(String, bool)> = Vec::new();
    let mut i: usize = 0;
    while i < base.len()
        invariant
            i <= base.len(),
            files@ == tagged(copied_base(base@.take(i as int)), false),
        decreases base.len() - i,
    {
        let ghost before = files@;
        assert(base@.take(i + 1).drop_last() =~= base@.take(i as int));
        assert(base@.take(i + 1).last() == base@[i as int]);
        if base_copies_file(base[i].as_str()) {
            files.push((base[i].clone(), false));
            assert(files@ =~= tagged(copied_base(base@.take(i + 1)), false));
        } else {
            assert(files@ =~= tagged(copied_base(base@.take(i + 1)), false));
        }
        i = i + 1;
    }
    assert(base@.take(base.len() as int) =~= base@);
    let base_files = files.len();
    let mut overlaid: Vec<String> = Vec::new();
    let mut j: usize = 0;
    while j < overlay.len()
        invariant
            j <= overlay.len(),
            base_files == copied_base(base@).len(),
            overlay_outcome(overlay@.take(j as int)) == Ok::<Seq<String>, Seq<char>>(overlaid@),
            files@ == tagged(copied_base(base@), false) + tagged(overlaid@, true),
        decreases overlay.len() - j,
    {
        assert(overlay@.take(j + 1).drop_last() =~= overlay@.take(j as int));
        assert(overlay@.take(j + 1).last() == overlay@[j as int]);
        match overlay_action(overlay[j].as_str()) {
            Err(e) => {
                proof {
                    lemma_outcome_err_sticks(overlay@, j + 1);
                }
                return Err(e);
            },
            Ok(copy) => {
                if copy {
                    let ghost before = overlaid@;
                    overlaid.push(overlay[j].clone());
                    files.push((overlay[j].clone(), true));
                    assert(tagged(overlaid@, true) =~= tagged(before, true).push((overlay@[j as int], true)));
                    assert(files@ =~= tagged(copied_base(base@), false) + tagged(overlaid@, true));
                }
            },
        }
        j = j + 1;
    }
    assert(overlay@.take(overlay.len() as int) =~= overlay@);
    Ok(Projection { files, report: finish_report(base_files, overlaid) })
}

proof fn lemma_outcome_err_sticks(overlay: Seq<String>, n: int)
    requires
        0 < n <= overlay.len(),
        overlay_outcome(overlay.take(n)) is Err,
    ensures
        overlay_outcome(overlay) == overlay_outcome(overlay.take(n)),
    decreases overlay.len() - n,
{
    if n < overlay.len() {
        assert(overlay.take(n + 1).drop_last() =~= overlay.take(n));
        lemma_outcome_err_sticks(overlay, n + 1);
    } else {
        assert(overlay.take(n) =~= overlay);
    }
}

} // verus!

verus! {

/// Whether one of `paths` is `p`.
pub open spec fn has_path(paths: Seq<String>, p: Seq<char>) -> bool {
    exists|i: int| 0 <= i < paths.len() && (#[trigger] paths[i])@ == p
}

/// Where the content of path `p` comes from after writing `files` in
/// order (`Some(true)`: the overlay), or `None` if `p` is never written.
pub open spec fn last_write(files: Seq<(String, bool)>, p: Seq<char>) -> Option<bool>
    decreases files.len(),
{
    if files.len() == 0 {
        None
    } else if files.last().0@ == p {
        Some(files.last().1)
    } else {
        last_write(files.drop_last(), p)
    }
}

proof fn lemma_last_write_concat(a: Seq<(String, bool)>, b: Seq<(String, bool)>, p: Seq<char>)
    ensures
        last_write(a + b, p) == match last_write(b, p) {
            Some(x) => Some(x),
            None => last_write(a, p),
        },
    decreases b.len(),
{
    if b.len() == 0 {
        assert(a + b =~= a);
    } else {
        assert((a + b).drop_last() =~= a + b.drop_last());
        assert((a + b).last() == b.last());
        lemma_last_write_concat(a, b.drop_last(), p);
    }
}

proof fn lemma_last_write_tagged(xs: Seq<String>, f: bool, p: Seq<char>)
    ensures
        last_write(tagged(xs, f), p) == if has_path(xs, p) {
            Some(f)
        } else {
            None::<bool>
        },
    decreases xs.len(),
{
    if xs.len() > 0 {
        let t = xs.drop_last();
        assert(tagged(xs, f).drop_last() =~= tagged(t, f));
        lemma_last_write_tagged(t, f, p);
        if has_path(t, p) {
            let i = choose|i: int| 0 <= i < t.len() && (#[trigger] t[i])@ == p;
            assert(xs[i] == t[i]);
        }
        if has_path(xs, p) && xs.last()@ != p {
            let i = choose|i: int| 0 <= i < xs.len() && (#[trigger] xs[i])@ == p;
            assert(t[i] == xs[i]);
        }
        if xs.last()@ == p {
            assert(xs[xs.len() - 1]@ == p);
        }
    }
}

/// The projection holds exactly the copied base files and the copied
/// overlay files, and the overlay shadows the base: after the planned
/// writes, a path holds the overlay's content if the overlay copies it,
/// else the base's content if the base copies it, and is not written
/// otherwise.
pub proof fn lemma_projection_shadows(base: Seq<String>, o: Seq<String>, p: Seq<char>)
    ensures
        last_write(tagged(copied_base(base), false) + tagged(o, true), p) == if has_path(o, p) {
            Some(true)
        } else if has_path(copied_base(base), p) {
            Some(false)
        } else {
            None::<bool>
        },
{
    lemma_last_write_concat(tagged(copied_base(base), false), tagged(o, true), p);
    lemma_last_write_tagged(copied_base(base), false, p);
    lemma_last_write_tagged(o, true, p);
}

/// Which base files are copied: exactly those that are not the index cache.
pub proof fn lemma_copied_base(base: Seq<String>, p: Seq<char>)
    ensures
        has_path(copied_base(base), p) <==> has_path(base, p) && p != ".fsberlin/index.sqlite"@,
    decreases base.len(),
{
    if base.len() > 0 {
        let t = base.drop_last();
        lemma_copied_base(t, p);
        let extra: Seq<String> = if base_copies(base.last()@) {
            seq![base.last()]
        } else {
            Seq::empty()
        };
        let c = copied_base(t) + extra;
        assert(copied_base(base) == c);
        if has_path(c, p) {
            let i = choose|i: int| 0 <= i < c.len() && (#[trigger] c[i])@ == p;
            if i < copied_base(t).len() {
                assert(c[i] == copied_base(t)[i]);
                let k = choose|k: int| 0 <= k < t.len() && (#[trigger] t[k])@ == p;
                assert(base[k] == t[k]);
            } else {
                assert(c[i] == base.last());
                assert(base[base.len() - 1]@ == p);
            }
        }
        if has_path(base, p) && p != ".fsberlin/index.sqlite"@ {
            let k = choose|k: int| 0 <= k < base.len() && (#[trigger] base[k])@ == p;
            if k < t.len() {
                assert(t[k] == base[k]);
                let i = choose|i: int| 0 <= i < copied_base(t).len() && (#[trigger] copied_base(t)[i])@ == p;
                assert(c[i] == copied_base(t)[i]);
            } else {
                assert(c[c.len() - 1] == base.last());
            }
        }
    }
}

/// Which overlay files are copied, and when the overlay is refused: the
/// overlay is refused exactly when one of its files other than the
/// top-level `waypoint.md` is an invariant-floor path; otherwise it copies
/// exactly its files other than `waypoint.md`, none of them invariant-floor.
pub proof fn lemma_overlay_outcome(overlay: Seq<String>, p: Seq<char>)
    ensures
        overlay_outcome(overlay) is Err <==> exists|i: int|
            0 <= i < overlay.len() && (#[trigger] overlay[i])@ != "waypoint.md"@ && invariant_floor(
                overlay[i]@,
            ),
        overlay_outcome(overlay) matches Ok(o) ==> (has_path(o, p) <==> has_path(overlay, p) && p
            != "waypoint.md"@),
        overlay_outcome(overlay) matches Ok(o) ==> (has_path(o, p) ==> !invariant_floor(p)),
    decreases overlay.len(),
{
    if overlay.len() > 0 {
        let t = overlay.drop_last();
        let last = overlay.last();
        lemma_overlay_outcome(t, p);
        assert(overlay[overlay.len() - 1] == last);
        assert forall|i: int| 0 <= i < t.len() implies #[trigger] t[i] == overlay[i] by {}
        if exists|i: int| 0 <= i < overlay.len() && (#[trigger] overlay[i])@ != "waypoint.md"@
            && invariant_floor(overlay[i]@) {
            let i = choose|i: int| 0 <= i < overlay.len() && (#[trigger] overlay[i])@ != "waypoint.md"@
                && invariant_floor(overlay[i]@);
            if i < t.len() {
                assert(t[i] == overlay[i]);
            }
        }
        if let Ok(o) = overlay_outcome(overlay) {
            let o0 = overlay_outcome(t)->Ok_0;
            if has_path(o, p) {
                let i = choose|i: int| 0 <= i < o.len() && (#[trigger] o[i])@ == p;
                if i < o0.len() {
                    assert(o[i] == o0[i]);
                    let k = choose|k: int| 0 <= k < t.len() && (#[trigger] t[k])@ == p;
                    assert(overlay[k] == t[k]);
                } else {
                    assert(o[i] == last);
                }
            }
            if has_path(overlay, p) && p != "waypoint.md"@ {
                let k = choose|k: int| 0 <= k < overlay.len() && (#[trigger] overlay[k])@ == p;
                if k < t.len() {
                    assert(t[k] == overlay[k]);
                    let i = choose|i: int| 0 <= i < o0.len() && (#[trigger] o0[i])@ == p;
                    assert(o[i] == o0[i]);
                } else {
                    assert(o[o.len() - 1] == last);
                }
            }
        }
    }
}

} // verus!

verus! {

/// A render is refused before anything is written unless the waypoint
/// exists, the output lies outside the project and the output is empty or
/// new; an output inside the project is refused whether or not it is empty,
/// and each refusal says why.
pub proof fn lemma_preflight_refusals(
    slug: Seq<char>,
    waypoint_is_dir: bool,
    out_inside_root: bool,
    out_nonempty: bool,
    out_display: Seq<char>,
)
    ensures
        preflight_refusal(slug, waypoint_is_dir, out_inside_root, out_nonempty, out_display) is None
            <==> waypoint_is_dir && !out_inside_root && !out_nonempty,
        !waypoint_is_dir ==> preflight_refusal(slug, waypoint_is_dir, out_inside_root, out_nonempty, out_display)
            == Some("no waypoint `"@ + slug + "`"@),
        waypoint_is_dir && out_inside_root ==> preflight_refusal(
            slug,
            waypoint_is_dir,
            out_inside_root,
            out_nonempty,
            out_display,
        ) == Some("output directory must be outside the project"@),
        waypoint_is_dir && !out_inside_root && out_nonempty ==> preflight_refusal(
            slug,
            waypoint_is_dir,
            out_inside_root,
            out_nonempty,
            out_display,
        ) == Some(out_display + " is not empty (refusing to clobber)"@),
{
}

} // verus!

