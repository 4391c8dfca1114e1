//! Character-level helpers shared by the parsers and formatters.

use vstd::prelude::*;

verus! {

/// The characters of `s`, in order.
pub fn chars_of(s: &str) -> (v: Vec<char>)
    ensures
        v@ == s@,
{
    let mut v: Vec<char> = Vec::new();
    for c in it: s.chars()
        invariant
            v@ == it.seq().take(it.index() as int),
            it.seq() == s@,
    {
        v.push(c);
    }
    v
}

} // verus!

verus! {

/// Appends `c` to `s` (std `String::push`, whose documentation says it
/// appends the given char to the end of the string).
#[verifier::external_body]
pub(crate) fn push_char(s: &mut String, c: char)
    ensures
        final(s)@ == old(s)@.push(c),
{
    s.push(c);
}

/// A `String` holding the characters `cs[from..to]`.
pub fn string_from_range(cs: &Vec<char>, from: usize, to: usize) -> (s: String)
    requires
        from <= to <= cs.len(),
    ensures
        s@ == cs@.subrange(from as int, to as int),
{
    let mut s = String::new();
    let mut i: usize = from;
    while i < to
        invariant
            from <= i <= to <= cs.len(),
            s@ == cs@.subrange(from as int, i as int),
        decreases to - i,
    {
        push_char(&mut s, cs[i]);
        i = i + 1;
        assert(cs@.subrange(from as int, i as int) == cs@.subrange(from as int, (i - 1) as int).push(
            cs@[i - 1],
        ));
    }
    s
}

/// The decimal digit for `d < 10`.
pub open spec fn digit_char(d: nat) -> char {
    if d == 0 { '0' }
    else if d == 1 { '1' }
    else if d == 2 { '2' }
    else if d == 3 { '3' }
    else if d == 4 { '4' }
    else if d == 5 { '5' }
    else if d == 6 { '6' }
    else if d == 7 { '7' }
    else if d == 8 { '8' }
    else { '9' }
}

/// The shortest decimal spelling of `n` (no sign, no leading zeros).
pub open spec fn decimal(n: nat) -> Seq<char>
    decreases n,
{
    if n < 10 {
        seq![digit_char(n)]
    } else {
        decimal(n / 10).push(digit_char(n % 10))
    }
}

/// `decimal(n)` left-padded with `'0'` up to `width` characters.
pub open spec fn padded_decimal(n: nat, width: nat) -> Seq<char> {
    let d = decimal(n);
    if d.len() >= width {
        d
    } else {
        Seq::new((width - d.len()) as nat, |i: int| '0') + d
    }
}

fn digit_of(d: u64) -> (c: char)
    requires
        d < 10,
    ensures
        c == digit_char(d as nat),
{
    if d == 0 { '0' }
    else if d == 1 { '1' }
    else if d == 2 { '2' }
    else if d == 3 { '3' }
    else if d == 4 { '4' }
    else if d == 5 { '5' }
    else if d == 6 { '6' }
    else if d == 7 { '7' }
    else if d == 8 { '8' }
    else { '9' }
}

/// Appends the decimal spelling of `n` to `s`.
pub fn push_decimal(s: &mut String, n: u64)
    ensures
        final(s)@ == old(s)@ + decimal(n as nat),
    decreases n,
{
    if n < 10 {
        push_char(s, digit_of(n));
        assert(old(s)@.push(digit_char(n as nat)) == old(s)@ + decimal(n as nat));
    } else {
        push_decimal(s, n / 10);
        push_char(s, digit_of(n % 10));
        assert(old(s)@ + decimal((n / 10) as nat) + seq![digit_char((n % 10) as nat)] == old(s)@
            + decimal(n as nat));
    }
}

/// Appends `decimal(n)` left-padded with zeros to `width` characters.
pub fn push_padded_decimal(s: &mut String, n: u64, width: usize)
    ensures
        final(s)@ == old(s)@ + padded_decimal(n as nat, width as nat),
{
    let mut digits = String::new();
    push_decimal(&mut digits, n);
    let dcs = chars_of(digits.as_str());
    assert(dcs@ == decimal(n as nat));
    if dcs.len() < width {
        let pad = width - dcs.len();
        let mut i: usize = 0;
        while i < pad
            invariant
                i <= pad,
                pad == width - dcs.len(),
                s@ == old(s)@ + Seq::new(i as nat, |k: int| '0'),
            decreases pad - i,
        {
            push_char(s, '0');
            i = i + 1;
            assert(Seq::new((i - 1) as nat, |k: int| '0').push('0') == Seq::new(i as nat, |k: int| '0'));
        }
    }
    s.append(digits.as_str());
    assert(old(s)@ + padded_decimal(n as nat, width as nat) == if dcs.len() < width {
        old(s)@ + Seq::new((width - dcs.len()) as nat, |k: int| '0') + decimal(n as nat)
    } else {
        old(s)@ + decimal(n as nat)
    });
}

} // verus!

verus! {

/// Strict lexicographic order on character sequences (by code point), the
/// order that `Ord` gives `str` and `String`: UTF-8 byte order and code-point
/// order agree.
pub open spec fn seq_lt(a: Seq<char>, b: Seq<char>) -> bool
    decreases a.len(),
{
    if a.len() == 0 {
        b.len() > 0
    } else if b.len() == 0 {
        false
    } else if a[0] != b[0] {
        a[0] < b[0]
    } else {
        seq_lt(a.drop_first(), b.drop_first())
    }
}

/// Non-strict lexicographic order.
pub open spec fn seq_le(a: Seq<char>, b: Seq<char>) -> bool {
    seq_lt(a, b) || a == b
}

pub proof fn lemma_lt_irreflexive(a: Seq<char>)
    ensures
        !seq_lt(a, a),
    decreases a.len(),
{
    if a.len() > 0 {
        lemma_lt_irreflexive(a.drop_first());
    }
}

pub proof fn lemma_lt_transitive(a: Seq<char>, b: Seq<char>, c: Seq<char>)
    requires
        seq_lt(a, b),
        seq_lt(b, c),
    ensures
        seq_lt(a, c),
    decreases a.len(),
{
    if a.len() > 0 && b.len() > 0 && c.len() > 0 {
        if a[0] == b[0] && b[0] == c[0] {
            lemma_lt_transitive(a.drop_first(), b.drop_first(), c.drop_first());
        }
    }
}

pub proof fn lemma_lt_total(a: Seq<char>, b: Seq<char>)
    ensures
        seq_lt(a, b) || seq_lt(b, a) || a == b,
    decreases a.len(),
{
    if a.len() > 0 && b.len() > 0 && a[0] == b[0] {
        lemma_lt_total(a.drop_first(), b.drop_first());
        if a.drop_first() == b.drop_first() {
            assert(a =~= seq![a[0]] + a.drop_first());
            assert(b =~= seq![b[0]] + b.drop_first());
        }
    } else if a.len() == 0 && b.len() == 0 {
        assert(a =~= b);
    }
}

pub proof fn lemma_lt_asymmetric(a: Seq<char>, b: Seq<char>)
    requires
        seq_lt(a, b),
    ensures
        !seq_lt(b, a),
        a != b,
{
    lemma_lt_irreflexive(a);
    if seq_lt(b, a) {
        lemma_lt_transitive(a, b, a);
    }
}

pub proof fn lemma_le_transitive(a: Seq<char>, b: Seq<char>, c: Seq<char>)
    requires
        seq_le(a, b),
        seq_le(b, c),
    ensures
        seq_le(a, c),
{
    if seq_lt(a, b) && seq_lt(b, c) {
        lemma_lt_transitive(a, b, c);
    }
}

proof fn lemma_lt_step(a: Seq<char>, b: Seq<char>, i: int)
    requires
        0 <= i < a.len(),
        i < b.len(),
        a[i] == b[i],
    ensures
        seq_lt(a.skip(i), b.skip(i)) == seq_lt(a.skip(i + 1), b.skip(i + 1)),
{
    assert(a.skip(i).drop_first() =~= a.skip(i + 1));
    assert(b.skip(i).drop_first() =~= b.skip(i + 1));
}

/// Whether `a` sorts strictly before `b` (the `<` of `str`).
pub fn str_lt(a: &str, b: &str) -> (r: bool)
    ensures
        r == seq_lt(a@, b@),
{
    let x = chars_of(a);
    let y = chars_of(b);
    let mut i: usize = 0;
    assert(a@.skip(0) =~= a@);
    assert(b@.skip(0) =~= b@);
    while i < x.len() && i < y.len()
        invariant
            i <= x.len(),
            i <= y.len(),
            x@ == a@,
            y@ == b@,
            seq_lt(a@, b@) == seq_lt(a@.skip(i as int), b@.skip(i as int)),
        decreases x.len() - i,
    {
        if x[i] != y[i] {
            return x[i] < y[i];
        }
        proof {
            lemma_lt_step(a@, b@, i as int);
        }
        i = i + 1;
    }
    i == x.len() && i < y.len()
}

/// Whether two strings hold the same characters.
pub fn str_eq(a: &str, b: &str) -> (r: bool)
    ensures
        r == (a@ == b@),
{
    let x = chars_of(a);
    let y = chars_of(b);
    if x.len() != y.len() {
        return false;
    }
    let mut i: usize = 0;
    while i < x.len()
        invariant
            i <= x.len(),
            x.len() == y.len(),
            x@ == a@,
            y@ == b@,
            forall|k: int| 0 <= k < i ==> x@[k] == y@[k],
        decreases x.len() - i,
    {
        if x[i] != y[i] {
            return false;
        }
        i = i + 1;
    }
    assert(x@ =~= y@);
    true
}

/// Rust's `char::is_whitespace`: the Unicode `White_Space` property.
pub open spec fn is_white_space(c: char) -> bool {
    ||| ('\u{9}' <= c && c <= '\u{d}')
    ||| c == ' '
    ||| c == '\u{85}'
    ||| c == '\u{a0}'
    ||| c == '\u{1680}'
    ||| ('\u{2000}' <= c && c <= '\u{200a}')
    ||| c == '\u{2028}'
    ||| c == '\u{2029}'
    ||| c == '\u{202f}'
    ||| c == '\u{205f}'
    ||| c == '\u{3000}'
}

/// Executable `is_white_space`.
pub fn is_white_space_char(c: char) -> (r: bool)
    ensures
        r == is_white_space(c),
{
    ('\u{9}' <= c && c <= '\u{d}') || c == ' ' || c == '\u{85}' || c == '\u{a0}' || c == '\u{1680}'
        || ('\u{2000}' <= c && c <= '\u{200a}') || c == '\u{2028}' || c == '\u{2029}' || c
        == '\u{202f}' || c == '\u{205f}' || c == '\u{3000}'
}

/// ASCII upper-casing of one character (`char::to_ascii_uppercase`).
pub open spec fn ascii_upper(c: char) -> char {
    if 'a' <= c && c <= 'z' {
        ((c as u32) - 32) as char
    } else {
        c
    }
}

} // verus!

verus! {

/// Executable `ascii_upper`.
pub fn ascii_upper_char(c: char) -> (r: char)
    ensures
        r == ascii_upper(c),
{
    if 'a' <= c && c <= 'z' {
        ((c as u8) - 32) as char
    } else {
        c
    }
}

} // verus!

verus! {

/// Keys in non-decreasing lexicographic order.
pub open spec fn sorted_by_key<T>(s: Seq<(String, T)>) -> bool {
    forall|i: int, j: int| 0 <= i < j < s.len() ==> seq_le(s[i].0@, s[j].0@)
}

/// Sort `(name, item)` pairs by name (a stable insertion sort).
pub fn sort_by_key<T>(v: Vec<(String, T)>) -> (out: Vec<(String, T)>)
    ensures
        sorted_by_key(out@),
        out@.to_multiset() == v@.to_multiset(),
{
    broadcast use vstd::seq_lib::group_to_multiset_ensures;

    let ghost all = v@;
    let mut rest = v;
    let total = rest.len();
    let mut out: Vec<(String, T)> = Vec::new();
    let mut n: usize = 0;
    assert(all.take(0) =~= Seq::<(String, T)>::empty());
    while rest.len() > 0
        invariant
            n <= all.len(),
            total == all.len(),
            rest@ == all.skip(n as int),
            sorted_by_key(out@),
            out@.to_multiset() == all.take(n as int).to_multiset(),
        decreases rest.len(),
    {
        let (k, x) = rest.remove(0);
        proof {
            assert(all[n as int] == (k, x));
            assert(all.take(n + 1) =~= all.take(n as int).push((k, x)));
            assert(all.skip(n + 1) =~= all.skip(n as int).drop_first());
        }
        let mut i: usize = 0;
        while i < out.len() && !str_lt(k.as_str(), out[i].0.as_str())
            invariant
                i <= out.len(),
                forall|j: int| 0 <= j < i ==> seq_le((#[trigger] out@[j]).0@, k@),
            decreases out.len() - i,
        {
            proof {
                lemma_lt_total(k@, out@[i as int].0@);
            }
            i = i + 1;
        }
        let ghost s = out@;
        proof {
            if i < s.len() {
                assert(seq_lt(k@, s[i as int].0@));
            }
            let u = s.insert(i as int, (k, x));
            assert forall|a: int, b: int| 0 <= a < b < u.len() implies seq_le(u[a].0@, u[b].0@) by {
                if b < i {
                    assert(u[a] == s[a] && u[b] == s[b]);
                } else if b == i {
                    assert(u[a] == s[a]);
                } else if a < i {
                    assert(u[a] == s[a] && u[b] == s[b - 1]);
                } else if a == i {
                    assert(u[b] == s[b - 1]);
                    if b - 1 > i {
                        lemma_le_transitive(k@, s[i as int].0@, s[b - 1].0@);
                    }
                } else {
                    assert(u[a] == s[a - 1] && u[b] == s[b - 1]);
                }
            }
        }
        let ghost kx = (k, x);
        out.insert(i, (k, x));
        proof {
            vstd::seq_lib::to_multiset_insert(s, i as int, kx);
            vstd::seq_lib::to_multiset_build(all.take(n as int), kx);
        }
        n = n + 1;
    }
    assert(all.take(all.len() as int) =~= all);
    out
}

} // verus!

verus! {

/// Equal multisets stay equal when every element is mapped through `f`.
pub proof fn lemma_map_multiset<A, B>(a: Seq<A>, b: Seq<A>, f: spec_fn(A) -> B)
    requires
        a.to_multiset() == b.to_multiset(),
    ensures
        a.map_values(f).to_multiset() == b.map_values(f).to_multiset(),
    decreases a.len(),
{
    broadcast use vstd::seq_lib::group_to_multiset_ensures;

    if a.len() == 0 {
        assert(a.to_multiset().len() == 0);
        assert(b.to_multiset().len() == b.len());
        assert(b.len() == 0);
        assert(a.map_values(f) =~= b.map_values(f));
    } else {
        let x = a.last();
        assert(a.contains(x));
        assert(b.to_multiset().count(x) > 0);
        assert(b.contains(x));
        let j = choose|j: int| 0 <= j < b.len() && b[j] == x;
        let b2 = b.remove(j);
        let a2 = a.drop_last();
        assert(a =~= a2.push(x));
        assert(b2.to_multiset() == b.to_multiset().remove(x));
        assert(a2.to_multiset() == a.to_multiset().remove(x));
        lemma_map_multiset(a2, b2, f);
        assert(a.map_values(f) =~= a2.map_values(f).push(f(x)));
        assert(b2.map_values(f) =~= b.map_values(f).remove(j));
        assert(b.map_values(f)[j] == f(x));
        assert(b2.map_values(f).to_multiset() == b.map_values(f).to_multiset().remove(f(x)));
        assert(b.map_values(f).to_multiset() =~= b2.map_values(f).to_multiset().insert(f(x)));
    }
}

/// Sort strings lexicographically.
pub fn sort_strings(v: Vec<String>) -> (out: Vec<String>)
    ensures
        forall|i: int, j: int| 0 <= i < j < out.len() ==> seq_le(out@[i]@, out@[j]@),
        out@.to_multiset() == v@.to_multiset(),
{
    let ghost orig = v@;
    let mut rest = v;
    let total = rest.len();
    let mut pairs: Vec<(String, ())> = Vec::new();
    let mut n: usize = 0;
    while rest.len() > 0
        invariant
            n <= orig.len(),
            total == orig.len(),
            rest@ == orig.skip(n as int),
            pairs@ == orig.take(n as int).map_values(|s: String| (s, ())),
        decreases rest.len(),
    {
        let s = rest.remove(0);
        proof {
            assert(orig.skip(n + 1) =~= orig.skip(n as int).drop_first());
        }
        pairs.push((s, ()));
        n = n + 1;
        assert(pairs@ =~= orig.take(n as int).map_values(|s: String| (s, ())));
    }
    assert(orig.take(orig.len() as int) =~= orig);
    let ghost before = pairs@;
    let sorted = sort_by_key(pairs);
    let ghost sv = sorted@;
    let mut rest2 = sorted;
    let total2 = rest2.len();
    let mut out: Vec<String> = Vec::new();
    let mut m: usize = 0;
    while rest2.len() > 0
        invariant
            m <= sv.len(),
            total2 == sv.len(),
            rest2@ == sv.skip(m as int),
            out@ == sv.take(m as int).map_values(|p: (String, ())| p.0),
        decreases rest2.len(),
    {
        let (s, _) = rest2.remove(0);
        proof {
            assert(sv.skip(m + 1) =~= sv.skip(m as int).drop_first());
        }
        out.push(s);
        m = m + 1;
        assert(out@ =~= sv.take(m as int).map_values(|p: (String, ())| p.0));
    }
    proof {
        assert(sv.take(sv.len() as int) =~= sv);
        lemma_map_multiset(sv, before, |p: (String, ())| p.0);
        assert(before.map_values(|p: (String, ())| p.0) =~= orig);
    }
    out
}

} // verus!

verus! {

/// The names (as character sequences) of `(name, item)` pairs, in order.
pub open spec fn key_views<T>(s: Seq<(String, T)>) -> Seq<Seq<char>> {
    s.map_values(|p: (String, T)| p.0@)
}

/// Whether the names of `(name, item)` pairs ascend strictly.
pub open spec fn strictly_ascending<T>(s: Seq<(String, T)>) -> bool {
    forall|i: int, j: int| 0 <= i < j < s.len() ==> seq_lt(s[i].0@, s[j].0@)
}

/// Pairs sorted by name, whose names are (as a multiset) those of a
/// sequence without repeats, ascend strictly.
pub proof fn lemma_sorted_distinct_strict<T>(out: Seq<(String, T)>, names: Seq<Seq<char>>)
    requires
        sorted_by_key(out),
        key_views(out).to_multiset() == names.to_multiset(),
        names.no_duplicates(),
    ensures
        strictly_ascending(out),
{
    names.lemma_multiset_has_no_duplicates();
    let k = key_views(out);
    k.lemma_multiset_has_no_duplicates_conv();
    assert forall|i: int, j: int| 0 <= i < j < out.len() implies seq_lt(out[i].0@, out[j].0@) by {
        assert(k[i] == out[i].0@ && k[j] == out[j].0@);
        assert(seq_le(out[i].0@, out[j].0@));
    }
}

} // verus!

