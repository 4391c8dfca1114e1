//! Extracting the YAML frontmatter block at the head of a markdown file.

use vstd::prelude::*;

use crate::text::chars_of;
use crate::{Error, Result};

verus! {

/// The byte-order mark that may precede the opening fence.
pub open spec fn bom() -> char {
    '\u{feff}'
}

/// `s` without one leading byte-order mark.
pub open spec fn strip_bom(s: Seq<char>) -> Seq<char> {
    if s.len() > 0 && s[0] == bom() {
        s.drop_first()
    } else {
        s
    }
}

/// The opening fence, LF form.
pub open spec fn open_lf() -> Seq<char> {
    seq!['-', '-', '-', '\n']
}

/// The opening fence, CRLF form.
pub open spec fn open_crlf() -> Seq<char> {
    seq!['-', '-', '-', '\r', '\n']
}

/// Whether `p` occurs in `s` starting at index `i`.
pub open spec fn occurs_at(s: Seq<char>, p: Seq<char>, i: int) -> bool {
    0 <= i && i + p.len() <= s.len() && s.subrange(i, i + p.len()) == p
}

/// The text after the opening fence, if the (BOM-stripped) text starts with one.
pub open spec fn after_open(s: Seq<char>) -> Option<Seq<char>> {
    let t = strip_bom(s);
    if t.len() >= 4 && t.take(4) == open_lf() {
        Some(t.skip(4))
    } else if t.len() >= 5 && t.take(5) == open_crlf() {
        Some(t.skip(5))
    } else {
        None
    }
}

/// Whether a line of `r` ends at index `q`: at the end of the text, at a
/// `\n`, or at a `\r` that ends the text or precedes a `\n`.
pub open spec fn line_ends_at(r: Seq<char>, q: int) -> bool {
    q == r.len() || (0 <= q < r.len() && (r[q] == '\n' || (r[q] == '\r' && (q + 1 == r.len() || r[q
        + 1] == '\n'))))
}

/// Whether a line of `r` that is exactly `---` starts at index `p`.
pub open spec fn fence_line_at(r: Seq<char>, p: int) -> bool {
    &&& 0 <= p
    &&& p + 3 <= r.len()
    &&& (p == 0 || r[p - 1] == '\n')
    &&& r[p] == '-' && r[p + 1] == '-' && r[p + 2] == '-'
    &&& line_ends_at(r, p + 3)
}

/// The first index at or after `i` where a `---` line of `r` starts.
pub open spec fn first_fence(r: Seq<char>, i: int) -> Option<int>
    decreases r.len() + 1 - i,
{
    if i < 0 || i > r.len() {
        None
    } else if fence_line_at(r, i) {
        Some(i)
    } else {
        first_fence(r, i + 1)
    }
}

/// The lines of `r` before the line starting at `p`, without the newline
/// that ends the last of them.
pub open spec fn lines_before(r: Seq<char>, p: int) -> Seq<char> {
    if p == 0 {
        Seq::empty()
    } else {
        r.take(p - 1)
    }
}

/// The frontmatter of `s`: the lines between the opening fence and the
/// first following line that is exactly `---` (which may come right after
/// the opening fence, giving an empty block).
pub open spec fn frontmatter_of(s: Seq<char>) -> Option<Seq<char>> {
    match after_open(s) {
        None => None,
        Some(rest) => match first_fence(rest, 0) {
            None => None,
            Some(p) => Some(lines_before(rest, p)),
        },
    }
}

proof fn lemma_take_of_skip(s: Seq<char>, h: int, i: int)
    requires
        0 <= h <= i <= s.len(),
    ensures
        s.skip(h).take(i - h) == s.subrange(h, i),
{
    assert(s.skip(h).take(i - h) =~= s.subrange(h, i));
}

/// Whether `cs[i..]` starts with `p` (characters of `p` given explicitly).
fn matches_at(cs: &Vec<char>, i: usize, p: &Vec<char>) -> (r: bool)
    ensures
        r == occurs_at(cs@, p@, i as int),
{
    if i > cs.len() || p.len() > cs.len() - i {
        return false;
    }
    let mut k: usize = 0;
    while k < p.len()
        invariant
            k <= p.len(),
            i + p.len() <= cs.len(),
            forall|j: int| 0 <= j < k ==> cs@[i + j] == p@[j],
        decreases p.len() - k,
    {
        if cs[i + k] != p[k] {
            assert(cs@.subrange(i as int, i + p.len())[k as int] != p@[k as int]);
            return false;
        }
        k = k + 1;
    }
    assert(cs@.subrange(i as int, i + p.len()) =~= p@);
    true
}

/// Return the YAML frontmatter at the head of a markdown file: the text
/// between the opening `---` line and the next `---` line.
///
/// A leading byte-order mark is skipped; the opening fence is `"---\n"` or
/// `"---\r\n"`; the block ends at the *first* following line that is
/// exactly `---` (also right after the opening fence, for an empty block),
/// so a `---` rule in the body is never part of the frontmatter.
pub fn extract_frontmatter(text: &str) -> (r: Result<&str>)
    ensures
        match r {
            Ok(fm) => frontmatter_of(text@) == Some(fm@),
            Err(e) => frontmatter_of(text@).is_none() && e == Error::MissingFrontmatter,
        },
{
    let cs = chars_of(text);
    let start: usize = if cs.len() > 0 && cs[0] == '\u{feff}' { 1 } else { 0 };
    let ghost t = strip_bom(text@);
    assert(t =~= cs@.skip(start as int));
    let lf = vec!['-', '-', '-', '\n'];
    let crlf = vec!['-', '-', '-', '\r', '\n'];
    assert(lf@ == open_lf());
    assert(crlf@ == open_crlf());
    let head: usize = if matches_at(&cs, start, &lf) {
        assert(t.take(4) =~= cs@.subrange(start as int, start + 4));
        start + 4
    } else if matches_at(&cs, start, &crlf) {
        assert(t.take(4) =~= cs@.subrange(start as int, start + 4));
        assert(t.take(5) =~= cs@.subrange(start as int, start + 5));
        start + 5
    } else {
        proof {
            if t.len() >= 4 && t.take(4) == open_lf() {
                assert(cs@.subrange(start as int, start + 4) =~= t.take(4));
            }
            if t.len() >= 5 && t.take(5) == open_crlf() {
                assert(cs@.subrange(start as int, start + 5) =~= t.take(5));
            }
        }
        return Err(Error::MissingFrontmatter);
    };
    let ghost rest = cs@.skip(head as int);
    assert(after_open(text@) == Some(rest));
    let mut i: usize = head;
    loop
        invariant
            head <= i <= cs.len(),
            cs@ == text@,
            after_open(text@) == Some(rest),
            rest == cs@.skip(head as int),
            first_fence(rest, 0) == first_fence(rest, i - head),
        decreases cs.len() - i,
    {
        if is_fence_line(&cs, head, i) {
            assert(first_fence(rest, i - head) == Some(i - head));
            if i == head {
                let fm = text.substring_char(head, head);
                assert(fm@ =~= lines_before(rest, 0));
                return Ok(fm);
            }
            let fm = text.substring_char(head, i - 1);
            proof {
                lemma_take_of_skip(cs@, head as int, i - 1);
            }
            assert(fm@ =~= lines_before(rest, i - head));
            return Ok(fm);
        }
        if i == cs.len() {
            assert(first_fence(rest, i - head + 1) is None);
            return Err(Error::MissingFrontmatter);
        }
        i = i + 1;
    }
}

/// Whether a line that is exactly `---` starts at index `i` of `cs`, lines
/// being counted from index `head`.
fn is_fence_line(cs: &Vec<char>, head: usize, i: usize) -> (b: bool)
    requires
        head <= i <= cs.len(),
    ensures
        b == fence_line_at(cs@.skip(head as int), i - head),
{
    let ghost r = cs@.skip(head as int);
    let ghost p: int = i - head;
    assert(r.len() == cs.len() - head);
    assert(forall|k: int| 0 <= k < r.len() ==> #[trigger] r[k] == cs@[head + k]);
    if i > head && cs[i - 1] != '\n' {
        assert(r[p - 1] == cs@[i - 1]);
        return false;
    }
    if cs.len() - i < 3 {
        return false;
    }
    assert(r[p] == cs@[i as int] && r[p + 1] == cs@[i + 1] && r[p + 2] == cs@[i + 2]);
    if cs[i] != '-' || cs[i + 1] != '-' || cs[i + 2] != '-' {
        return false;
    }
    let q = i + 3;
    if q == cs.len() {
        return true;
    }
    assert(r[p + 3] == cs@[q as int]);
    if cs[q] == '\n' {
        return true;
    }
    if cs[q] == '\r' {
        if q + 1 == cs.len() {
            return true;
        }
        assert(r[p + 4] == cs@[q + 1]);
        return cs[q + 1] == '\n';
    }
    false
}

} // verus!

verus! {

proof fn lemma_first_fence_at(r: Seq<char>, i: int, k: int)
    requires
        0 <= i <= k,
        fence_line_at(r, k),
        forall|j: int| i <= j < k ==> !fence_line_at(r, j),
    ensures
        first_fence(r, i) == Some(k),
    decreases k - i,
{
    if i < k {
        lemma_first_fence_at(r, i + 1, k);
    }
}

/// The closing fence line `"\n---\n"` as written after a block.
pub open spec fn close_line() -> Seq<char> {
    seq!['\n', '-', '-', '-', '\n']
}

/// Only the first fenced block is frontmatter: for a block `fm` with no line
/// that is exactly `---`, the frontmatter of `"---\n"` (or `"---\r\n"`) +
/// `fm` + `"\n---\n"` + any body is exactly `fm`, whatever the body holds
/// (further `---` rules included).
#[verifier::spinoff_prover]
#[verifier::rlimit(40)]
pub proof fn lemma_first_fenced_block(fm: Seq<char>, body: Seq<char>, crlf: bool)
    requires
        forall|p: int| !fence_line_at(fm, p),
    ensures
        frontmatter_of((if crlf { open_crlf() } else { open_lf() }) + fm + close_line() + body)
            == Some(fm),
{
    let open = if crlf { open_crlf() } else { open_lf() };
    let s = open + fm + close_line() + body;
    let rest = fm + close_line() + body;
    lemma_after_open(open, rest, crlf);
    assert(s =~= open + rest);
    let n = fm.len() as int;
    assert(rest[n] == '\n' && rest[n + 1] == '-' && rest[n + 2] == '-' && rest[n + 3] == '-'
        && rest[n + 4] == '\n');
    assert(fence_line_at(rest, n + 1));
    assert forall|j: int| 0 <= j < n + 1 implies !fence_line_at(rest, j) by {
        if fence_line_at(rest, j) {
            if j + 3 <= n {
                assert(j > 0 ==> rest[j - 1] == fm[j - 1]);
                assert(rest[j] == fm[j] && rest[j + 1] == fm[j + 1] && rest[j + 2] == fm[j + 2]);
                if j + 3 < n {
                    assert(rest[j + 3] == fm[j + 3]);
                    if j + 4 < n {
                        assert(rest[j + 4] == fm[j + 4]);
                    }
                }
                assert(fence_line_at(fm, j));
            } else {
                assert(rest[n] == '\n');
            }
        }
    }
    lemma_first_fence_at(rest, 0, n + 1);
    assert(rest.take(n) =~= fm);
}

/// A `---` line right after the opening fence closes an empty block:
/// the frontmatter of `"---\n---\n"` (or with `"---\r\n"` opening) + any
/// body is empty.
#[verifier::spinoff_prover]
#[verifier::rlimit(40)]
pub proof fn lemma_empty_block(body: Seq<char>, crlf: bool)
    ensures
        frontmatter_of((if crlf { open_crlf() } else { open_lf() }) + open_lf() + body) == Some(
            Seq::<char>::empty(),
        ),
{
    let open = if crlf { open_crlf() } else { open_lf() };
    let rest = open_lf() + body;
    lemma_after_open(open, rest, crlf);
    assert(open + open_lf() + body =~= open + rest);
    assert(fence_line_at(rest, 0));
    assert(first_fence(rest, 0) == Some(0int));
}

proof fn lemma_after_open(open: Seq<char>, rest: Seq<char>, crlf: bool)
    requires
        open == (if crlf { open_crlf() } else { open_lf() }),
    ensures
        after_open(open + rest) == Some(rest),
{
    let s = open + rest;
    assert(s[0] == '-');
    assert(strip_bom(s) == s);
    if crlf {
        assert(s.take(4)[3] == '\r');
        assert(s.take(4) != open_lf());
        assert(s.take(5) =~= open_crlf());
        assert(s.skip(5) =~= rest);
    } else {
        assert(s.take(4) =~= open_lf());
        assert(s.skip(4) =~= rest);
    }
}

} // verus!
