//! Strings as sequences of characters: conversion, search, replacement and
//! the lexicographic order.

use vstd::prelude::*;

verus! {

/// `String::push` appends one character to the string.
pub assume_specification[ String::push ](s: &mut String, c: char)
    ensures
        final(s)@ == old(s)@.push(c),
;

/// Whether `pat` stands in `text` at index `at`.
pub open spec fn occurs_at(text: Seq<char>, at: int, pat: Seq<char>) -> bool {
    &&& 0 <= at
    &&& at + pat.len() <= text.len()
    &&& text.subrange(at, at + pat.len()) == pat
}

/// Whether `text` begins with `prefix`.
pub open spec fn starts_with(text: Seq<char>, prefix: Seq<char>) -> bool {
    occurs_at(text, 0, prefix)
}

/// The index of the first `c` in `text`; the length of `text` where it holds
/// none.
pub open spec fn first_at(text: Seq<char>, c: char) -> nat
    decreases text.len(),
{
    if text.len() == 0 || text[0] == c {
        0
    } else {
        1 + first_at(text.skip(1), c)
    }
}

/// The part of `text` before the first `stop`; all of `text` where it holds
/// no `stop`.
pub open spec fn before_first(text: Seq<char>, stop: char) -> Seq<char> {
    text.take(first_at(text, stop) as int)
}

/// The part of `text` behind the first `stop`; nothing where it holds no
/// `stop`.
pub open spec fn after_first(text: Seq<char>, stop: char) -> Seq<char> {
    if first_at(text, stop) < text.len() {
        text.skip(first_at(text, stop) as int + 1)
    } else {
        Seq::empty()
    }
}

/// `text` with every occurrence of `pat` replaced by `with`. Occurrences are
/// taken from left to right and do not overlap. An empty `pat` occurs
/// nowhere.
pub open spec fn replaced(text: Seq<char>, pat: Seq<char>, with: Seq<char>) -> Seq<char>
    decreases text.len(),
{
    if pat.len() == 0 || text.len() < pat.len() {
        text
    } else if occurs_at(text, 0, pat) {
        with + replaced(text.skip(pat.len() as int), pat, with)
    } else {
        seq![text[0]] + replaced(text.skip(1), pat, with)
    }
}

/// `text` without the occurrences of `pat`.
pub open spec fn without(text: Seq<char>, pat: Seq<char>) -> Seq<char> {
    replaced(text, pat, Seq::empty())
}

/// The strict lexicographic order of character sequences, by code point.
/// It is the order in which `str` and `String` compare.
pub open spec fn precedes(a: Seq<char>, b: Seq<char>) -> bool
    decreases a.len(),
{
    if b.len() == 0 {
        false
    } else if a.len() == 0 {
        true
    } else if a[0] != b[0] {
        (a[0] as int) < (b[0] as int)
    } else {
        precedes(a.skip(1), b.skip(1))
    }
}

/// How one character sequence stands to another in the lexicographic order.
#[derive(Clone, Copy, Debug, PartialEq, Eq, Structural)]
pub enum Order {
    Before,
    Same,
    After,
}

pub proof fn lemma_precedes_irreflexive(a: Seq<char>)
    ensures
        !precedes(a, a),
    decreases a.len(),
{
    if a.len() > 0 {
        lemma_precedes_irreflexive(a.skip(1));
    }
}

pub proof fn lemma_precedes_transitive(a: Seq<char>, b: Seq<char>, c: Seq<char>)
    requires
        precedes(a, b),
        precedes(b, c),
    ensures
        precedes(a, c),
    decreases a.len(),
{
    if a.len() > 0 && a[0] == b[0] && b[0] == c[0] {
        lemma_precedes_transitive(a.skip(1), b.skip(1), c.skip(1));
    }
}

/// Of two different sequences one precedes the other.
pub proof fn lemma_precedes_total(a: Seq<char>, b: Seq<char>)
    ensures
        a == b || precedes(a, b) || precedes(b, a),
    decreases a.len(),
{
    if a.len() == 0 || b.len() == 0 {
        assert(a.len() == 0 && b.len() == 0 ==> a =~= b);
    } else if a[0] == b[0] {
        lemma_precedes_total(a.skip(1), b.skip(1));
        if a.skip(1) == b.skip(1) {
            assert(a =~= seq![a[0]] + a.skip(1));
            assert(b =~= seq![b[0]] + b.skip(1));
        }
    }
}

/// `first_at` is the one index before which no `c` stands and at which
/// `text` has a `c` or ends.
pub proof fn lemma_first_at(text: Seq<char>, c: char, at: int)
    requires
        0 <= at <= text.len(),
        forall|k: int| 0 <= k < at ==> text[k] != c,
        at == text.len() || text[at] == c,
    ensures
        first_at(text, c) == at,
    decreases text.len(),
{
    if at > 0 {
        let rest = text.skip(1);
        assert forall|k: int| 0 <= k < at - 1 implies rest[k] != c by {
            assert(rest[k] == text[k + 1]);
        }
        lemma_first_at(rest, c, at - 1);
    }
}

/// The characters of `s`, in order.
pub fn chars_of(s: &str) -> (chars: Vec<char>)
    ensures
        chars@ == s@,
{
    broadcast use vstd::string::group_string_axioms;

    let mut chars: Vec<char> = Vec::new();
    for c in it: s.chars()
        invariant
            it.seq() == s@,
            chars@ == it.seq().take(it.index() as int),
    {
        chars.push(c);
    }
    chars
}

/// The string made of `chars`, in order.
pub fn string_of(chars: &Vec<char>) -> (s: String)
    ensures
        s@ == chars@,
{
    let mut s = String::new();
    let mut i: usize = 0;
    while i < chars.len()
        invariant
            i <= chars.len(),
            s@ == chars@.take(i as int),
        decreases chars.len() - i,
    {
        s.push(chars[i]);
        i += 1;
    }
    s
}

/// Tests whether `pat` stands in `text` at index `at`.
pub fn matches_at(text: &Vec<char>, at: usize, pat: &Vec<char>) -> (found: bool)
    ensures
        found == occurs_at(text@, at as int, pat@),
{
    if at > text.len() || pat.len() > text.len() - at {
        return false;
    }
    let mut j: usize = 0;
    while j < pat.len()
        invariant
            j <= pat.len(),
            at + pat.len() <= text.len(),
            forall|k: int| 0 <= k < j ==> text@[at + k] == pat@[k],
        decreases pat.len() - j,
    {
        if text[at + j] != pat[j] {
            assert(text@.subrange(at as int, at + pat.len())[j as int] == text@[at + j]);
            return false;
        }
        j += 1;
    }
    assert(text@.subrange(at as int, at + pat.len()) =~= pat@);
    true
}

/// Tests whether `text` begins with `prefix`.
pub fn has_prefix(text: &Vec<char>, prefix: &Vec<char>) -> (found: bool)
    ensures
        found == starts_with(text@, prefix@),
{
    matches_at(text, 0, prefix)
}

/// Copies the part of `text` before the first `stop`.
pub fn take_before(text: &Vec<char>, stop: char) -> (head: Vec<char>)
    ensures
        head@ == before_first(text@, stop),
{
    let mut head: Vec<char> = Vec::new();
    let mut i: usize = 0;
    while i < text.len() && text[i] != stop
        invariant
            i <= text.len(),
            head@ == text@.take(i as int),
            forall|k: int| 0 <= k < i ==> text@[k] != stop,
        decreases text.len() - i,
    {
        head.push(text[i]);
        i += 1;
    }
    proof {
        lemma_first_at(text@, stop, i as int);
    }
    head
}

/// Copies the part of `text` behind the first `stop`.
pub fn take_after(text: &Vec<char>, stop: char) -> (tail: Vec<char>)
    ensures
        tail@ == after_first(text@, stop),
{
    let mut i: usize = 0;
    while i < text.len() && text[i] != stop
        invariant
            i <= text.len(),
            forall|k: int| 0 <= k < i ==> text@[k] != stop,
        decreases text.len() - i,
    {
        i += 1;
    }
    proof {
        lemma_first_at(text@, stop, i as int);
    }
    let mut tail: Vec<char> = Vec::new();
    if i < text.len() {
        let start: usize = i + 1;
        let mut j: usize = start;
        while j < text.len()
            invariant
                start <= j <= text.len(),
                tail@ == text@.subrange(start as int, j as int),
            decreases text.len() - j,
        {
            tail.push(text[j]);
            j += 1;
        }
        proof {
            assert(tail@ =~= text@.skip(start as int));
        }
    }
    tail
}

/// Replaces every occurrence of `pat` in `text` by `with`.
pub fn replace_all(text: &Vec<char>, pat: &Vec<char>, with: &Vec<char>) -> (out: Vec<char>)
    ensures
        out@ == replaced(text@, pat@, with@),
{
    let mut out: Vec<char> = Vec::new();
    let mut i: usize = 0;
    proof {
        assert(text@.skip(0) =~= text@);
        assert(out@ + replaced(text@, pat@, with@) =~= replaced(text@, pat@, with@));
    }
    while i < text.len()
        invariant
            i <= text.len(),
            out@ + replaced(text@.skip(i as int), pat@, with@) == replaced(text@, pat@, with@),
        decreases text.len() - i,
    {
        let ghost rest = text@.skip(i as int);
        proof {
            assert(rest.len() == text.len() - i);
            assert(occurs_at(rest, 0, pat@) == occurs_at(text@, i as int, pat@)) by {
                if 0 + pat@.len() <= rest.len() {
                    assert(rest.subrange(0, 0 + pat@.len() as int) =~= text@.subrange(
                        i as int,
                        i + pat@.len(),
                    ));
                }
            }
        }
        if pat.len() > 0 && matches_at(text, i, pat) {
            let ghost before = out@;
            let mut k: usize = 0;
            while k < with.len()
                invariant
                    k <= with.len(),
                    out@ == before + with@.take(k as int),
                decreases with.len() - k,
            {
                out.push(with[k]);
                k += 1;
            }
            proof {
                assert(with@.take(with.len() as int) =~= with@);
                assert(rest.skip(pat@.len() as int) =~= text@.skip(i + pat@.len()));
                assert(out@ + replaced(text@.skip(i + pat@.len()), pat@, with@) =~= before + (with@
                    + replaced(rest.skip(pat@.len() as int), pat@, with@)));
            }
            i += pat.len();
        } else {
            proof {
                assert(rest.skip(1) =~= text@.skip(i + 1));
                if pat@.len() == 0 || rest.len() < pat@.len() {
                    assert(rest =~= seq![rest[0]] + rest.skip(1));
                    lemma_replaced_short(rest.skip(1), pat@, with@);
                }
                assert(out@.push(text@[i as int]) + replaced(text@.skip(i + 1), pat@, with@)
                    =~= out@ + (seq![rest[0]] + replaced(rest.skip(1), pat@, with@)));
            }
            out.push(text[i]);
            i += 1;
        }
    }
    proof {
        assert(out@ + Seq::<char>::empty() =~= out@);
    }
    out
}

/// A text shorter than the pattern, or any text under the empty pattern, is
/// left as it is.
pub proof fn lemma_replaced_short(text: Seq<char>, pat: Seq<char>, with: Seq<char>)
    requires
        pat.len() == 0 || text.len() < pat.len(),
    ensures
        replaced(text, pat, with) == text,
{
}

/// Compares two character sequences in the lexicographic order.
pub fn order_of(a: &Vec<char>, b: &Vec<char>) -> (order: Order)
    ensures
        order is Before <==> precedes(a@, b@),
        order is Same <==> a@ == b@,
        order is After <==> precedes(b@, a@),
{
    let mut i: usize = 0;
    proof {
        assert(a@.skip(0) =~= a@);
        assert(b@.skip(0) =~= b@);
    }
    while i < a.len() && i < b.len() && a[i] == b[i]
        invariant
            i <= a.len(),
            i <= b.len(),
            a@.take(i as int) == b@.take(i as int),
            precedes(a@, b@) == precedes(a@.skip(i as int), b@.skip(i as int)),
            precedes(b@, a@) == precedes(b@.skip(i as int), a@.skip(i as int)),
        decreases a.len() - i,
    {
        proof {
            assert(a@.skip(i as int).skip(1) =~= a@.skip(i + 1));
            assert(b@.skip(i as int).skip(1) =~= b@.skip(i + 1));
            assert(a@.take(i + 1) =~= a@.take(i as int).push(a@[i as int]));
            assert(b@.take(i + 1) =~= b@.take(i as int).push(b@[i as int]));
        }
        i += 1;
    }
    let ghost ra = a@.skip(i as int);
    let ghost rb = b@.skip(i as int);
    if i == a.len() && i == b.len() {
        proof {
            assert(a@ =~= a@.take(i as int));
            assert(b@ =~= b@.take(i as int));
            lemma_precedes_irreflexive(a@);
        }
        Order::Same
    } else if i == a.len() {
        proof {
            assert(ra.len() == 0 && rb.len() > 0);
        }
        Order::Before
    } else if i == b.len() {
        proof {
            assert(rb.len() == 0 && ra.len() > 0);
        }
        Order::After
    } else {
        proof {
            assert(ra[0] == a@[i as int] && rb[0] == b@[i as int]);
        }
        if a[i] < b[i] {
            Order::Before
        } else {
            Order::After
        }
    }
}

} // verus!
