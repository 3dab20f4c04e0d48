//! What a cache entry holds: the outbound links of one page, each once, in
//! ascending order, one to a line.

use crate::text::{chars_of, first_at, lemma_first_at, lemma_precedes_irreflexive,
    lemma_precedes_total, lemma_precedes_transitive, order_of,
    precedes, string_of, Order};
use vstd::prelude::*;

verus! {

/// Whether each line precedes every later one. Such lines hold nothing twice.
pub open spec fn ascending(lines: Seq<Seq<char>>) -> bool {
    forall|i: int, j: int| 0 <= i < j < lines.len() ==> precedes(lines[i], lines[j])
}

/// The lines of the cache entry for `links`: the identifiers that occur in
/// `links`, each once, in ascending order.
pub open spec fn entry_lines(links: Seq<Seq<char>>) -> Seq<Seq<char>> {
    choose|lines: Seq<Seq<char>>| ascending(lines) && lines.to_set() == links.to_set()
}

/// The text of a cache entry: each line followed by a newline.
pub open spec fn entry_text(lines: Seq<Seq<char>>) -> Seq<char>
    decreases lines.len(),
{
    if lines.len() == 0 {
        Seq::empty()
    } else {
        lines[0] + seq!['\n'] + entry_text(lines.skip(1))
    }
}

/// `line` without the carriage return that ends it, if one does.
pub open spec fn without_return(line: Seq<char>) -> Seq<char> {
    if line.len() > 0 && line.last() == '\r' {
        line.drop_last()
    } else {
        line
    }
}

/// The lines of `text`. A line ends at a newline, or at a carriage return
/// and a newline; what follows the last newline is a line if it is not
/// empty.
pub open spec fn lines_of(text: Seq<char>) -> Seq<Seq<char>>
    decreases text.len(),
{
    let at = first_at(text, '\n') as int;
    if text.len() == 0 {
        Seq::empty()
    } else if at >= text.len() {
        seq![text]
    } else {
        seq![without_return(text.take(at))] + lines_of(text.skip(at + 1))
    }
}

/// Whether `line` comes back as it is from an entry: it holds no newline and
/// does not end in a carriage return.
pub open spec fn plain_line(line: Seq<char>) -> bool {
    &&& !line.contains('\n')
    &&& line.len() > 0 ==> line.last() != '\r'
}

/// Putting `x` where it belongs keeps the lines ascending, and adds `x` to
/// what they hold.
pub proof fn lemma_insert_ascending(lines: Seq<Seq<char>>, at: int, x: Seq<char>)
    requires
        ascending(lines),
        0 <= at <= lines.len(),
        forall|j: int| 0 <= j < at ==> precedes(lines[j], x),
        at < lines.len() ==> precedes(x, lines[at]),
    ensures
        ascending(lines.insert(at, x)),
        lines.insert(at, x).to_set() == lines.to_set().insert(x),
{
    let longer = lines.insert(at, x);
    lines.insert_ensures(at, x);
    assert forall|i: int, j: int| 0 <= i < j < longer.len() implies precedes(
        longer[i],
        longer[j],
    ) by {
        if j > at {
            assert(longer[j] == lines[j - 1]);
            if j - 1 > at {
                lemma_precedes_transitive(x, lines[at], lines[j - 1]);
            }
        }
        if i > at {
            assert(longer[i] == lines[i - 1]);
        }
    }
    assert forall|y: Seq<char>| longer.to_set().contains(y) <==> lines.to_set().insert(
        x,
    ).contains(y) by {
        if longer.contains(y) {
            let k = choose|k: int| 0 <= k < longer.len() && longer[k] == y;
            if k < at {
                assert(lines[k] == y);
            } else if k > at {
                assert(lines[k - 1] == y);
            }
        }
        if lines.contains(y) {
            let k = choose|k: int| 0 <= k < lines.len() && lines[k] == y;
            if k < at {
                assert(longer[k] == y);
            } else {
                assert(longer[k + 1] == y);
            }
        }
        assert(longer[at] == x);
    }
    assert(longer.to_set() =~= lines.to_set().insert(x));
}

/// Ascending lines are determined by what they hold.
pub proof fn lemma_ascending_determined(a: Seq<Seq<char>>, b: Seq<Seq<char>>)
    requires
        ascending(a),
        ascending(b),
        a.to_set() == b.to_set(),
    ensures
        a == b,
    decreases a.len(),
{
    if a.len() == 0 {
        if b.len() > 0 {
            assert(b.contains(b[0]));
            assert(a.to_set().contains(b[0]));
        }
        assert(a =~= b);
    } else {
        assert(a.contains(a.last()));
        assert(b.to_set().contains(a.last()));
        let j = choose|j: int| 0 <= j < b.len() && b[j] == a.last();
        assert(b.contains(b.last()));
        assert(a.to_set().contains(b.last()));
        let i = choose|i: int| 0 <= i < a.len() && a[i] == b.last();
        if j < b.len() - 1 {
            if i < a.len() - 1 {
                lemma_precedes_transitive(a[i], a.last(), a[i]);
            }
            lemma_precedes_irreflexive(a[i]);
        }
        let a0 = a.drop_last();
        let b0 = b.drop_last();
        assert forall|y: Seq<char>| a0.to_set().contains(y) <==> b0.to_set().contains(y) by {
            lemma_precedes_irreflexive(y);
            if a0.contains(y) {
                let k = choose|k: int| 0 <= k < a0.len() && a0[k] == y;
                assert(a[k] == y);
                assert(a.contains(y));
                assert(b.to_set().contains(y));
                let m = choose|m: int| 0 <= m < b.len() && b[m] == y;
                assert(b0[m] == y);
            }
            if b0.contains(y) {
                let k = choose|k: int| 0 <= k < b0.len() && b0[k] == y;
                assert(b[k] == y);
                assert(b.contains(y));
                assert(a.to_set().contains(y));
                let m = choose|m: int| 0 <= m < a.len() && a[m] == y;
                assert(a0[m] == y);
            }
        }
        assert(a0.to_set() =~= b0.to_set());
        lemma_ascending_determined(a0, b0);
        assert(a =~= a0.push(a.last()));
        assert(b =~= b0.push(b.last()));
    }
}

/// How many of the leading `lines` precede `x`.
proof fn lemma_place(lines: Seq<Seq<char>>, x: Seq<char>, from: int) -> (at: int)
    requires
        0 <= from <= lines.len(),
        forall|j: int| 0 <= j < from ==> precedes(lines[j], x),
    ensures
        0 <= at <= lines.len(),
        forall|j: int| 0 <= j < at ==> precedes(lines[j], x),
        at < lines.len() ==> !precedes(lines[at], x),
    decreases lines.len() - from,
{
    if from < lines.len() && precedes(lines[from], x) {
        lemma_place(lines, x, from + 1)
    } else {
        from
    }
}

/// Some ascending lines hold exactly what `links` holds.
proof fn lemma_ascending_exists(links: Seq<Seq<char>>) -> (lines: Seq<Seq<char>>)
    ensures
        ascending(lines),
        lines.to_set() == links.to_set(),
    decreases links.len(),
{
    if links.len() == 0 {
        assert(links.to_set() =~= Seq::<Seq<char>>::empty().to_set());
        Seq::empty()
    } else {
        let x = links.last();
        let shorter = lemma_ascending_exists(links.drop_last());
        assert(links =~= links.drop_last().push(x));
        links.drop_last().lemma_push_to_set_commute(x);
        if shorter.contains(x) {
            assert(shorter.to_set().insert(x) =~= shorter.to_set());
            shorter
        } else {
            let at = lemma_place(shorter, x, 0);
            if at < shorter.len() {
                assert(shorter.contains(shorter[at]));
                lemma_precedes_total(shorter[at], x);
            }
            lemma_insert_ascending(shorter, at, x);
            shorter.insert(at, x)
        }
    }
}

/// The lines of an entry are ascending and hold exactly the links.
pub proof fn lemma_entry_lines(links: Seq<Seq<char>>)
    ensures
        ascending(entry_lines(links)),
        entry_lines(links).to_set() == links.to_set(),
{
    let lines = lemma_ascending_exists(links);
    assert(ascending(lines) && lines.to_set() == links.to_set());
}

/// Ascending lines hold nothing twice.
pub proof fn lemma_ascending_no_duplicates(lines: Seq<Seq<char>>)
    requires
        ascending(lines),
    ensures
        lines.no_duplicates(),
{
    assert forall|i: int, j: int| 0 <= i < lines.len() && 0 <= j < lines.len() && i != j implies lines[i]
        != lines[j] by {
        lemma_precedes_irreflexive(lines[i]);
    }
}

/// Plain lines come back from the text of their entry as they went in.
pub proof fn lemma_lines_of_entry_text(lines: Seq<Seq<char>>)
    requires
        forall|i: int| 0 <= i < lines.len() ==> plain_line(#[trigger] lines[i]),
    ensures
        lines_of(entry_text(lines)) == lines,
    decreases lines.len(),
{
    if lines.len() > 0 {
        let first = lines[0];
        let rest = lines.skip(1);
        let text = entry_text(lines);
        let at = first.len() as int;
        assert(plain_line(first));
        assert forall|k: int| 0 <= k < at implies text[k] != '\n' by {
            assert(text[k] == first[k]);
            assert(first.contains(first[k]));
        }
        assert(text[at] == '\n');
        lemma_first_at(text, '\n', at);
        assert(text.take(at) =~= first);
        assert(text.skip(at + 1) =~= entry_text(rest));
        assert forall|i: int| 0 <= i < rest.len() implies plain_line(#[trigger] rest[i]) by {
            assert(rest[i] == lines[i + 1]);
        }
        lemma_lines_of_entry_text(rest);
        assert(lines =~= seq![first] + rest);
    }
}

/// What is read back from the entry for `links` is what was filed: the
/// links, each once, in ascending order. This holds where the links are
/// plain lines. Of the two links `a` and `a` with a carriage return behind
/// it, the second is read back as `a` too.
pub proof fn lemma_entry_read_back(links: Seq<Seq<char>>)
    requires
        forall|i: int| 0 <= i < links.len() ==> plain_line(#[trigger] links[i]),
    ensures
        lines_of(entry_text(entry_lines(links))) == entry_lines(links),
        ascending(lines_of(entry_text(entry_lines(links)))),
        lines_of(entry_text(entry_lines(links))).no_duplicates(),
        lines_of(entry_text(entry_lines(links))).to_set() == links.to_set(),
{
    let lines = entry_lines(links);
    lemma_entry_lines(links);
    assert forall|i: int| 0 <= i < lines.len() implies plain_line(#[trigger] lines[i]) by {
        assert(lines.contains(lines[i]));
        assert(links.to_set().contains(lines[i]));
        let k = choose|k: int| 0 <= k < links.len() && links[k] == lines[i];
        assert(plain_line(links[k]));
    }
    lemma_lines_of_entry_text(lines);
    lemma_ascending_no_duplicates(lines);
}

/// The views of the character vectors, in order.
pub open spec fn texts(items: Seq<Vec<char>>) -> Seq<Seq<char>> {
    items.map_values(|item: Vec<char>| item@)
}

/// Where `item` belongs among the ascending `sorted`, and whether it stands
/// there already.
fn place_of(sorted: &Vec<Vec<char>>, item: &Vec<char>) -> (place: (usize, bool))
    requires
        ascending(texts(sorted@)),
    ensures
        place.0 <= sorted.len(),
        forall|j: int| 0 <= j < place.0 ==> precedes(texts(sorted@)[j], item@),
        place.1 ==> place.0 < sorted.len() && sorted@[place.0 as int]@ == item@,
        !place.1 ==> !texts(sorted@).contains(item@),
        !place.1 && place.0 < sorted.len() ==> precedes(item@, sorted@[place.0 as int]@),
{
    let mut at: usize = 0;
    while at < sorted.len()
        invariant
            at <= sorted.len(),
            ascending(texts(sorted@)),
            forall|j: int| 0 <= j < at ==> precedes(texts(sorted@)[j], item@),
        decreases sorted.len() - at,
    {
        match order_of(&sorted[at], item) {
            Order::Before => {
                at += 1;
            },
            Order::Same => {
                return (at, true);
            },
            Order::After => {
                proof {
                    lemma_absent(texts(sorted@), item@, at as int);
                }
                return (at, false);
            },
        }
    }
    proof {
        lemma_absent(texts(sorted@), item@, at as int);
    }
    (at, false)
}

/// Ascending lines do not hold what belongs between two of them.
proof fn lemma_absent(lines: Seq<Seq<char>>, x: Seq<char>, at: int)
    requires
        ascending(lines),
        0 <= at <= lines.len(),
        forall|j: int| 0 <= j < at ==> precedes(lines[j], x),
        at < lines.len() ==> precedes(x, lines[at]),
    ensures
        !lines.contains(x),
{
    if lines.contains(x) {
        let k = choose|k: int| 0 <= k < lines.len() && lines[k] == x;
        lemma_precedes_irreflexive(x);
        if k > at {
            lemma_precedes_transitive(x, lines[at], lines[k]);
        }
    }
}

/// The lines of the cache entry for `links`: sorted, with nothing twice.
pub fn sorted_unique(links: &Vec<String>) -> (lines: Vec<String>)
    ensures
        ascending(lines.deep_view()),
        lines.deep_view().to_set() == links.deep_view().to_set(),
        lines.deep_view() == entry_lines(links.deep_view()),
{
    let mut sorted: Vec<Vec<char>> = Vec::new();
    let mut i: usize = 0;
    proof {
        assert(texts(sorted@).to_set() =~= links.deep_view().take(0).to_set());
    }
    while i < links.len()
        invariant
            i <= links.len(),
            ascending(texts(sorted@)),
            texts(sorted@).to_set() == links.deep_view().take(i as int).to_set(),
        decreases links.len() - i,
    {
        let item = chars_of(links[i].as_str());
        let ghost seen = links.deep_view().take(i as int);
        let ghost before = texts(sorted@);
        proof {
            assert(links.deep_view().take(i + 1) =~= seen.push(item@));
            seen.lemma_push_to_set_commute(item@);
        }
        let (at, present) = place_of(&sorted, &item);
        if present {
            proof {
                assert(before[at as int] == item@);
                assert(before.contains(item@));
                assert(before.to_set().insert(item@) =~= before.to_set());
            }
        } else {
            proof {
                lemma_insert_ascending(before, at as int, item@);
            }
            sorted.insert(at, item);
            proof {
                assert(texts(sorted@) =~= before.insert(at as int, item@));
            }
        }
        i += 1;
    }
    let mut lines: Vec<String> = Vec::new();
    let mut k: usize = 0;
    while k < sorted.len()
        invariant
            k <= sorted.len(),
            lines.deep_view() == texts(sorted@).take(k as int),
        decreases sorted.len() - k,
    {
        let line = string_of(&sorted[k]);
        let ghost before = lines.deep_view();
        lines.push(line);
        proof {
            assert(lines.deep_view() =~= before.push(sorted@[k as int]@));
            assert(texts(sorted@).take(k + 1) =~= texts(sorted@).take(k as int).push(
                sorted@[k as int]@,
            ));
        }
        k += 1;
    }
    proof {
        assert(texts(sorted@).take(sorted.len() as int) =~= texts(sorted@));
        assert(links.deep_view().take(links.len() as int) =~= links.deep_view());
        lemma_entry_lines(links.deep_view());
        lemma_ascending_determined(lines.deep_view(), entry_lines(links.deep_view()));
    }
    lines
}

/// The text of a cache entry with these lines.
pub fn entry_text_of(lines: &Vec<String>) -> (text: String)
    ensures
        text@ == entry_text(lines.deep_view()),
{
    let mut text = String::new();
    let mut i: usize = 0;
    proof {
        assert(lines.deep_view().skip(0) =~= lines.deep_view());
        assert(text@ + entry_text(lines.deep_view()) =~= entry_text(lines.deep_view()));
    }
    while i < lines.len()
        invariant
            i <= lines.len(),
            text@ + entry_text(lines.deep_view().skip(i as int)) == entry_text(lines.deep_view()),
        decreases lines.len() - i,
    {
        let ghost before = text@;
        let ghost rest = lines.deep_view().skip(i as int);
        text.append(lines[i].as_str());
        text.push('\n');
        proof {
            assert(rest[0] == lines[i as int]@);
            assert(rest.skip(1) =~= lines.deep_view().skip(i + 1));
            assert(text@ + entry_text(rest.skip(1)) =~= before + (rest[0] + seq!['\n']
                + entry_text(rest.skip(1))));
        }
        i += 1;
    }
    proof {
        assert(text@ + Seq::<char>::empty() =~= text@);
    }
    text
}

/// Splits `text` into its lines.
pub fn split_lines(text: &str) -> (lines: Vec<String>)
    ensures
        lines.deep_view() == lines_of(text@),
{
    let chars = chars_of(text);
    let mut lines: Vec<String> = Vec::new();
    let mut line: Vec<char> = Vec::new();
    let mut start: usize = 0;
    let mut i: usize = 0;
    proof {
        assert(chars@.skip(0) =~= chars@);
        assert(lines.deep_view() + lines_of(chars@) =~= lines_of(chars@));
    }
    while i < chars.len()
        invariant
            start <= i <= chars.len(),
            chars@ == text@,
            line@ == chars@.subrange(start as int, i as int),
            forall|k: int| start <= k < i ==> chars@[k] != '\n',
            lines.deep_view() + lines_of(chars@.skip(start as int)) == lines_of(chars@),
        decreases chars.len() - i,
    {
        let c = chars[i];
        if c == '\n' {
            let ghost rest = chars@.skip(start as int);
            let ghost raw = line@;
            proof {
                assert forall|k: int| 0 <= k < i - start implies rest[k] != '\n' by {
                    assert(rest[k] == chars@[start + k]);
                }
                lemma_first_at(rest, '\n', i - start);
                assert(rest.take(i - start) =~= raw);
                assert(rest.skip(i - start + 1) =~= chars@.skip(i + 1));
            }
            if line.len() > 0 && line[line.len() - 1] == '\r' {
                line.pop();
            }
            proof {
                assert(line@ =~= without_return(raw));
            }
            let ghost before = lines.deep_view();
            let ghost ended = line@;
            lines.push(string_of(&line));
            line = Vec::new();
            start = i + 1;
            proof {
                assert(lines.deep_view() =~= before.push(ended));
                assert(before.push(ended) + lines_of(chars@.skip(i + 1)) =~= before + (seq![ended]
                    + lines_of(chars@.skip(i + 1))));
                assert(line@ =~= chars@.subrange(start as int, i + 1));
            }
        } else {
            line.push(c);
            proof {
                assert(line@ =~= chars@.subrange(start as int, i + 1));
            }
        }
        i += 1;
    }
    let ghost rest = chars@.skip(start as int);
    if line.len() > 0 {
        let ghost before = lines.deep_view();
        proof {
            assert forall|k: int| 0 <= k < rest.len() implies rest[k] != '\n' by {
                assert(rest[k] == chars@[start + k]);
            }
            lemma_first_at(rest, '\n', rest.len() as int);
            assert(line@ =~= rest);
        }
        lines.push(string_of(&line));
        proof {
            assert(lines.deep_view() =~= before.push(rest));
            assert(before.push(rest) =~= before + seq![rest]);
        }
    } else {
        proof {
            assert(rest.len() == 0);
            assert(lines.deep_view() + Seq::<Seq<char>>::empty() =~= lines.deep_view());
        }
    }
    lines
}

} // verus!
