//! What reading gives back of values that are laid out over lines.

use crate::compose;
use crate::export;
use crate::layout;
use crate::notation;
use crate::notation_laws;
use crate::table;
use crate::text;
use vstd::prelude::*;

verus! {

/// Wherever the text stands, and a value can end behind it, it is read as the value.
pub open spec fn reads(w: Seq<char>, n: notation::Node) -> bool {
    forall|s: Seq<char>, at: int| #[trigger]
        text::stands_at(s, w, at) && notation_laws::value_ends(s, at + w.len())
            ==> notation_laws::starts_value(s, at) && notation::value(s, at) == Ok::<
            (notation::Node, int),
            notation::Fault,
        >((n, at + w.len()))
}

/// What is written as a value is read as that value.
pub proof fn lemma_written_reads(n: notation::Node)
    requires
        notation::well_formed(n),
    ensures
        reads(notation::written(n), n),
{
    let w = notation::written(n);
    assert forall|s: Seq<char>, at: int| #[trigger]
        text::stands_at(s, w, at) && notation_laws::value_ends(s, at + w.len()) implies notation_laws::starts_value(
        s,
        at,
    ) && notation::value(s, at) == Ok::<(notation::Node, int), notation::Fault>(
        (n, at + w.len()),
    ) by {
        notation_laws::lemma_read_value(s, at, n);
    }
}

// ---------------------------------------------------------------------------
// Texts in quotes
// ---------------------------------------------------------------------------

proof fn lemma_all_escaped_front(t: Seq<char>)
    requires
        t.len() > 0,
    ensures
        export::all_escaped(t) == export::escaped(t[0]) + export::all_escaped(t.skip(1)),
    decreases t.len(),
{
    if t.len() == 1 {
        assert(t.drop_last() =~= Seq::empty());
        assert(t.skip(1) =~= Seq::empty());
        reveal_with_fuel(export::all_escaped, 2);
        assert(export::all_escaped(t) =~= export::escaped(t[0]));
    } else {
        lemma_all_escaped_front(t.drop_last());
        assert(t.drop_last().skip(1) =~= t.skip(1).drop_last());
        assert(export::all_escaped(t) =~= export::escaped(t[0]) + (export::all_escaped(
            t.skip(1).drop_last(),
        ) + export::escaped(t.last())));
    }
}

proof fn lemma_read_quoted(s: Seq<char>, at: int, t: Seq<char>, before: Seq<char>)
    requires
        text::stands_at(s, export::all_escaped(t).push('"'), at),
    ensures
        notation::quoted(s, at, '"', before) == Ok::<(Seq<char>, int), notation::Fault>(
            (before + t, at + export::all_escaped(t).len() + 1),
        ),
    decreases t.len(),
{
    let all = export::all_escaped(t).push('"');
    let there = s.subrange(at, at + all.len());
    if t.len() == 0 {
        assert(there[0] == s[at]);
        assert(before + t =~= before);
    } else {
        lemma_all_escaped_front(t);
        let c = t[0];
        let e = export::escaped(c);
        let rest = export::all_escaped(t.skip(1)).push('"');
        assert(all =~= e + rest);
        assert(there[0] == s[at] && all[0] == e[0]);
        if e.len() > 1 {
            assert(there[1] == s[at + 1] && all[1] == e[1]);
            assert(notation::escape(s, at + 1) == Ok::<(char, int), notation::Fault>((c, at + 2)));
        }
        assert(all.subrange(e.len() as int, e.len() as int + rest.len()) =~= rest);
        notation_laws::lemma_stands_inside(s, at, all, e.len() as int, rest);
        lemma_read_quoted(s, at + e.len(), t.skip(1), before.push(c));
        assert(before.push(c) + t.skip(1) =~= before + t);
    }
}

/// A text between quotes is read as that text.
pub proof fn lemma_in_quotes_reads(t: Seq<char>)
    ensures
        reads(export::in_quotes(t), notation::Node::Scalar(t)),
{
    let w = export::in_quotes(t);
    let n = notation::Node::Scalar(t);
    assert forall|s: Seq<char>, at: int| #[trigger]
        text::stands_at(s, w, at) && notation_laws::value_ends(s, at + w.len()) implies notation_laws::starts_value(
        s,
        at,
    ) && notation::value(s, at) == Ok::<(notation::Node, int), notation::Fault>(
        (n, at + w.len()),
    ) by {
        let rest = export::all_escaped(t).push('"');
        assert(w.subrange(1, 1 + rest.len() as int) =~= rest);
        notation_laws::lemma_stands_inside(s, at, w, 1, rest);
        assert(s.subrange(at, at + w.len())[0] == s[at]);
        lemma_read_quoted(s, at + 1, t, Seq::empty());
        assert(Seq::<char>::empty() + t =~= t);
        notation_laws::lemma_solid(s, at);
    }
}

// ---------------------------------------------------------------------------
// Unquoted texts
// ---------------------------------------------------------------------------

/// A text of letters, digits, points and signs is read as that text.
pub proof fn lemma_literal_reads(w: Seq<char>)
    requires
        w.len() > 0,
        notation_laws::literal_chars(w),
        notation::is_array_mark(w[0]) ==> w.len() > 1,
    ensures
        reads(w, notation::Node::Scalar(w)),
{
    let n = notation::Node::Scalar(w);
    assert forall|s: Seq<char>, at: int| #[trigger]
        text::stands_at(s, w, at) && notation_laws::value_ends(s, at + w.len()) implies notation_laws::starts_value(
        s,
        at,
    ) && notation::value(s, at) == Ok::<(notation::Node, int), notation::Fault>(
        (n, at + w.len()),
    ) by {
        let end = at + w.len();
        let there = s.subrange(at, end);
        assert(there == w);
        assert forall|i: int| at <= i < end implies !notation::ends_bare(#[trigger] s[i])
            && notation_laws::solid(s[i]) && notation_laws::literal_char(s[i]) by {
            assert(there[i - at] == w[i - at]);
        }
        notation_laws::lemma_bare_run(s, at, end);
        notation_laws::lemma_solid(s, at);
        if notation::is_array_mark(s[at]) {
            assert(there[0] == w[0]);
            notation_laws::lemma_solid(s, at + 1);
            assert(notation_laws::literal_char(s[at + 1]));
        }
    }
}

pub proof fn lemma_decimal_chars(n: nat)
    ensures
        compose::decimal(n).len() > 0,
        forall|i: int|
            0 <= i < compose::decimal(n).len() ==> text::ascii_digit(
                #[trigger] compose::decimal(n)[i],
            ),
    decreases n,
{
    if n >= 10 {
        lemma_decimal_chars(n / 10);
    }
}

/// The digits of a number, with the mark of a long one or without it, are read as they stand.
pub proof fn lemma_decimal_reads(n: nat)
    ensures
        reads(compose::decimal(n), notation::Node::Scalar(compose::decimal(n))),
        reads(
            compose::decimal(n) + "L"@,
            notation::Node::Scalar(compose::decimal(n) + "L"@),
        ),
{
    lemma_decimal_chars(n);
    reveal_strlit("L");
    let d = compose::decimal(n);
    assert(text::ascii_digit(d[0]));
    assert forall|i: int| 0 <= i < d.len() implies notation_laws::literal_char(#[trigger] d[i]) by {
        assert(text::ascii_digit(d[i]));
    }
    lemma_literal_reads(d);
    let long = d + "L"@;
    assert forall|i: int| 0 <= i < long.len() implies notation_laws::literal_char(
        #[trigger] long[i],
    ) by {
        if i < d.len() {
            assert(long[i] == d[i]);
        }
    }
    assert(long[0] == d[0]);
    lemma_literal_reads(long);
}

pub proof fn lemma_signed_reads(n: int)
    ensures
        reads(compose::signed_decimal(n), notation::Node::Scalar(compose::signed_decimal(n))),
{
    if n < 0 {
        let d = compose::decimal((-n) as nat);
        let w = compose::signed_decimal(n);
        lemma_decimal_chars((-n) as nat);
        assert forall|i: int| 0 <= i < w.len() implies notation_laws::literal_char(
            #[trigger] w[i],
        ) by {
            if i > 0 {
                assert(w[i] == d[i - 1]);
                assert(text::ascii_digit(d[i - 1]));
            }
        }
        assert(w[0] == '-');
        lemma_literal_reads(w);
    } else {
        lemma_decimal_reads(n as nat);
    }
}

// ---------------------------------------------------------------------------
// White space between
// ---------------------------------------------------------------------------

/// Over white space the reading goes on at the next character.
proof fn lemma_blank_run(s: Seq<char>, i: int, j: int)
    requires
        0 <= i <= j < s.len(),
        forall|k: int| i <= k < j ==> text::whitespace(#[trigger] s[k]),
        notation_laws::solid(s[j]),
    ensures
        notation::gap(s, i) == Ok::<int, notation::Fault>(j),
        notation::trivia(s, i) == Ok::<int, notation::Fault>(j),
    decreases j - i,
{
    if i < j {
        assert(text::whitespace(s[i]));
        lemma_blank_run(s, i + 1, j);
        assert(notation::gap(s, i) == notation::gap(s, i + 1));
    } else {
        notation_laws::lemma_solid(s, i);
    }
}

// ---------------------------------------------------------------------------
// Lists, item by item
// ---------------------------------------------------------------------------

/// Where the `k`th of several parts is looked for: behind the one before it.
spec fn behind(from: int, ends: Seq<int>, k: int) -> int {
    if k == 0 {
        from
    } else {
        ends[k - 1]
    }
}

/// Values one behind the other, from `starts[k]` to `ends[k]`, up to a closing bracket.
spec fn items_stand(
    s: Seq<char>,
    from: int,
    starts: Seq<int>,
    ends: Seq<int>,
    nodes: Seq<notation::Node>,
    close: int,
) -> bool {
    &&& 0 <= from
    &&& starts.len() == nodes.len()
    &&& ends.len() == nodes.len()
    &&& notation::char_at(s, close, ']')
    &&& forall|k: int|
        0 <= k < nodes.len() ==> {
            &&& 0 <= #[trigger] starts[k] < ends[k] <= s.len()
            &&& !notation::char_at(s, starts[k], ']')
            &&& notation::value(s, starts[k]) == Ok::<(notation::Node, int), notation::Fault>(
                (nodes[k], ends[k]),
            )
        }
    &&& forall|k: int|
        0 <= k < nodes.len() ==> notation::trivia(s, behind(from, ends, k)) == Ok::<
            int,
            notation::Fault,
        >(#[trigger] starts[k])
    &&& notation::trivia(s, behind(from, ends, nodes.len() as int)) == Ok::<int, notation::Fault>(
        close,
    )
    &&& from <= s.len()
}

proof fn lemma_items_stand(
    s: Seq<char>,
    from: int,
    starts: Seq<int>,
    ends: Seq<int>,
    nodes: Seq<notation::Node>,
    close: int,
    k: int,
)
    requires
        items_stand(s, from, starts, ends, nodes, close),
        0 <= k <= nodes.len(),
    ensures
        notation::items(s, behind(from, ends, k), nodes.take(k)) == Ok::<(notation::Node, int), notation::Fault>((notation::Node::List(nodes), close + 1)),
    decreases nodes.len() - k,
{
    if k == nodes.len() {
        assert(nodes.take(k) =~= nodes);
        if k > 0 {
            assert(0 <= starts[k - 1] < ends[k - 1] <= s.len());
        }
    } else {
        assert(0 <= starts[k] < ends[k] <= s.len());
        if k > 0 {
            assert(0 <= starts[k - 1] < ends[k - 1] <= s.len());
        }
        lemma_items_stand(s, from, starts, ends, nodes, close, k + 1);
        assert(nodes.take(k).push(nodes[k]) =~= nodes.take(k + 1));
    }
}

// ---------------------------------------------------------------------------
// Lists of texts in one line
// ---------------------------------------------------------------------------

spec fn scalars(list: Seq<Seq<char>>) -> Seq<notation::Node> {
    Seq::new(list.len(), |i: int| notation::Node::Scalar(list[i]))
}

/// The values that texts are.
pub open spec fn scalar_list(list: Seq<Seq<char>>) -> notation::Node {
    notation::Node::List(Seq::new(list.len(), |i: int| notation::Node::Scalar(list[i])))
}

/// Where the first `k` parts end, joined by a space.
spec fn spaced_end(parts: Seq<Seq<char>>, k: int) -> int {
    compose::joined(parts.take(k), " "@).len() as int
}

spec fn spaced_start(parts: Seq<Seq<char>>, k: int) -> int {
    if k == 0 {
        0
    } else {
        spaced_end(parts, k) + 1
    }
}

proof fn lemma_spaced_place(s: Seq<char>, base: int, parts: Seq<Seq<char>>, k: int)
    requires
        text::stands_at(s, compose::joined(parts, " "@), base),
        0 <= k < parts.len(),
    ensures
        text::stands_at(s, parts[k], base + spaced_start(parts, k)),
        spaced_end(parts, k + 1) == spaced_start(parts, k) + parts[k].len(),
        k > 0 ==> notation::char_at(s, base + spaced_end(parts, k), ' '),
        k + 1 < parts.len() ==> notation::char_at(s, base + spaced_end(parts, k + 1), ' '),
        k + 1 == parts.len() ==> spaced_end(parts, k + 1) == compose::joined(parts, " "@).len(),
        spaced_end(parts, k + 1) <= compose::joined(parts, " "@).len(),
        k == 0 ==> spaced_end(parts, k) == 0,
{
    reveal_strlit(" ");
    let inner = compose::joined(parts, " "@);
    let there = s.subrange(base, base + inner.len());
    let front = compose::joined(parts.take(k), " "@);
    let next = compose::joined(parts.take(k + 1), " "@);
    let from = spaced_start(parts, k);
    notation_laws::lemma_joined_prefix(parts, " "@, k + 1);
    notation_laws::lemma_joined_step(parts, " "@, k);
    if k == 0 {
        assert(front =~= Seq::empty());
    }
    let w = parts[k];
    assert(inner.subrange(from, from + w.len()) =~= w) by {
        assert forall|x: int| 0 <= x < w.len() implies inner[from + x] == w[x] by {
            assert(inner.take(next.len() as int)[from + x] == next[from + x]);
        }
    }
    notation_laws::lemma_stands_inside(s, base, inner, from, w);
    if k > 0 {
        assert(inner.take(next.len() as int)[from - 1] == next[from - 1]);
        assert(there[from - 1] == s[base + from - 1]);
    }
    if k + 1 < parts.len() {
        let after = compose::joined(parts.take(k + 2), " "@);
        notation_laws::lemma_joined_prefix(parts, " "@, k + 2);
        notation_laws::lemma_joined_step(parts, " "@, k + 1);
        assert(inner.take(after.len() as int)[next.len() as int] == after[next.len() as int]);
        assert(there[next.len() as int] == s[base + next.len()]);
    } else {
        assert(parts.take(k + 1) =~= parts);
    }
}

proof fn lemma_read_quoted_list(s: Seq<char>, at: int, list: Seq<Seq<char>>)
    requires
        text::stands_at(s, export::quoted_list(list), at),
    ensures
        notation_laws::starts_value(s, at),
        notation::value(s, at) == Ok::<(notation::Node, int), notation::Fault>(
            (scalar_list(list), at + export::quoted_list(list).len()),
        ),
{
    reveal_strlit("[");
    reveal_strlit("]");
    let w = export::quoted_list(list);
    let parts = export::each_in_quotes(list);
    let inner = compose::joined(parts, " "@);
    let there = s.subrange(at, at + w.len());
    assert(w.subrange(1, 1 + inner.len() as int) =~= inner);
    notation_laws::lemma_stands_inside(s, at, w, 1, inner);
    assert(there[0] == s[at]);
    let close = at + 1 + inner.len();
    assert(there[1 + inner.len() as int] == s[close]);
    assert(notation_laws::solid(s[at]) && notation_laws::solid(s[close]));
    let base = at + 1;
    let nodes = scalars(list);
    let starts = Seq::new(list.len(), |k: int| base + spaced_start(parts, k));
    let ends = Seq::new(list.len(), |k: int| base + spaced_end(parts, k + 1));
    assert forall|k: int| 0 <= k < nodes.len() implies {
        &&& 0 <= #[trigger] starts[k] < ends[k] <= s.len()
        &&& s[starts[k]] == '"'
        &&& ends[k] <= close
        &&& notation::value(s, starts[k]) == Ok::<(notation::Node, int), notation::Fault>(
            (nodes[k], ends[k]),
        )
        &&& notation::trivia(s, behind(base, ends, k)) == Ok::<int, notation::Fault>(starts[k])
    } by {
        lemma_spaced_place(s, base, parts, k);
        lemma_in_quotes_reads(list[k]);
        assert(parts[k] == export::in_quotes(list[k]));
        let p = starts[k];
        assert(s.subrange(p, p + parts[k].len())[0] == s[p]);
        assert(notation_laws::solid(s[p]));
        assert(notation_laws::value_ends(s, p + parts[k].len()));
        if k == 0 {
            notation_laws::lemma_solid(s, p);
        } else {
            assert(ends[k - 1] == base + spaced_end(parts, k));
            notation_laws::lemma_space(s, base + spaced_end(parts, k));
        }
    }
    if nodes.len() == 0 {
        assert(inner =~= Seq::empty());
        notation_laws::lemma_solid(s, close);
    } else {
        let last = nodes.len() - 1;
        lemma_spaced_place(s, base, parts, last);
        assert(ends[last] == close);
        notation_laws::lemma_solid(s, close);
    }
    assert(items_stand(s, base, starts, ends, nodes, close));
    lemma_items_stand(s, base, starts, ends, nodes, close, 0);
    assert(nodes.take(0) =~= Seq::empty());
    notation_laws::lemma_solid(s, at);
    if nodes.len() > 0 {
        assert(starts[0] == base);
        notation_laws::lemma_solid(s, base);
    }
    assert(notation::list_start(s, base) == Ok::<int, notation::Fault>(base));
    assert(scalar_list(list)->List_0 =~= nodes);
}

/// A list of texts in one line is read as that list.
pub proof fn lemma_quoted_list_reads(list: Seq<Seq<char>>)
    ensures
        reads(export::quoted_list(list), scalar_list(list)),
{
    let w = export::quoted_list(list);
    assert forall|s: Seq<char>, at: int| #[trigger]
        text::stands_at(s, w, at) && notation_laws::value_ends(s, at + w.len()) implies notation_laws::starts_value(
        s,
        at,
    ) && notation::value(s, at) == Ok::<(notation::Node, int), notation::Fault>(
        (scalar_list(list), at + w.len()),
    ) by {
        lemma_read_quoted_list(s, at, list);
    }
}

// ---------------------------------------------------------------------------
// Lists over several lines
// ---------------------------------------------------------------------------

/// The first rows are the beginning of all rows.
proof fn lemma_rows_prefix(items: Seq<Seq<char>>, depth: nat, k: int)
    requires
        0 <= k <= items.len(),
    ensures
        ({
            let front = layout::rows_text(items.take(k), depth);
            let all = layout::rows_text(items, depth);
            front.len() <= all.len() && all.take(front.len() as int) == front
        }),
    decreases items.len(),
{
    let front = layout::rows_text(items.take(k), depth);
    let all = layout::rows_text(items, depth);
    if k == items.len() {
        assert(items.take(k) =~= items);
        assert(all.take(all.len() as int) =~= all);
    } else {
        assert(items.drop_last().take(k) =~= items.take(k));
        lemma_rows_prefix(items.drop_last(), depth, k);
        let middle = layout::rows_text(items.drop_last(), depth);
        assert(all =~= middle + layout::row_text(items.last(), depth));
        assert(all.take(front.len() as int) =~= front) by {
            assert(middle.take(front.len() as int) == front);
        }
    }
}

/// Where the `k`th item stands, and the white space round it.
proof fn lemma_row_place(s: Seq<char>, base: int, items: Seq<Seq<char>>, depth: nat, k: int)
    requires
        text::stands_at(s, layout::rows_text(items, depth), base),
        0 <= k < items.len(),
    ensures
        ({
            let from = base + layout::rows_text(items.take(k), depth).len();
            let end = from + depth + items[k].len();
            &&& text::stands_at(s, items[k], from + depth)
            &&& forall|x: int| from <= x < from + depth ==> text::whitespace(#[trigger] s[x])
            &&& notation::char_at(s, end, '\n')
            &&& end + 1 == base + layout::rows_text(items.take(k + 1), depth).len()
            &&& end + 1 <= base + layout::rows_text(items, depth).len()
        }),
{
    reveal_strlit("\n");
    let all = layout::rows_text(items, depth);
    let front = layout::rows_text(items.take(k), depth);
    let next = layout::rows_text(items.take(k + 1), depth);
    assert(items.take(k + 1).drop_last() =~= items.take(k));
    let row = layout::row_text(items[k], depth);
    assert(next =~= front + row);
    lemma_rows_prefix(items, depth, k + 1);
    let f = front.len() as int;
    let r = row.len() as int;
    assert(all.subrange(f, f + r) =~= row) by {
        assert forall|x: int| 0 <= x < r implies all[f + x] == row[x] by {
            assert(all.take(next.len() as int)[f + x] == next[f + x]);
        }
    }
    notation_laws::lemma_stands_inside(s, base, all, f, row);
    let d = depth as int;
    assert(row.subrange(d, d + items[k].len()) =~= items[k]);
    notation_laws::lemma_stands_inside(s, base + f, row, d, items[k]);
    let there = s.subrange(base + f, base + f + r);
    assert forall|x: int| base + f <= x < base + f + d implies text::whitespace(#[trigger] s[x]) by {
        assert(there[x - base - f] == row[x - base - f]);
        assert(row[x - base - f] == '\t');
    }
    assert(there[r - 1] == row[r - 1]);
    assert(s[base + f + r - 1] == '\n');
}

/// Each text is read as the value beside it.
pub open spec fn all_read(texts: Seq<Seq<char>>, nodes: Seq<notation::Node>) -> bool {
    &&& texts.len() == nodes.len()
    &&& forall|i: int| 0 <= i < texts.len() ==> reads(#[trigger] texts[i], nodes[i])
}

spec fn row_at(items: Seq<Seq<char>>, depth: nat, k: int) -> int {
    layout::rows_text(items.take(k), depth).len() as int
}

spec fn row_starts(base: int, items: Seq<Seq<char>>, depth: nat) -> Seq<int> {
    Seq::new(items.len(), |k: int| base + row_at(items, depth, k) + depth)
}

spec fn row_ends(base: int, items: Seq<Seq<char>>, depth: nat) -> Seq<int> {
    Seq::new(items.len(), |k: int| base + row_at(items, depth, k) + depth + items[k].len())
}

/// How the `k`th row is read.
proof fn lemma_row_read(
    s: Seq<char>,
    base: int,
    items: Seq<Seq<char>>,
    nodes: Seq<notation::Node>,
    depth: nat,
    k: int,
)
    requires
        all_read(items, nodes),
        text::stands_at(s, layout::rows_text(items, depth), base),
        0 <= k < items.len(),
    ensures
        ({
            let p = base + row_at(items, depth, k) + depth;
            let end = p + items[k].len();
            &&& p < end < s.len()
            &&& notation_laws::starts_value(s, p)
            &&& notation::value(s, p) == Ok::<(notation::Node, int), notation::Fault>(
                (nodes[k], end),
            )
            &&& text::whitespace(s[end])
            &&& end + 1 == base + row_at(items, depth, k + 1)
            &&& forall|x: int| p - depth <= x < p ==> text::whitespace(#[trigger] s[x])
        }),
{
    lemma_row_place(s, base, items, depth, k);
    let p = base + row_at(items, depth, k) + depth;
    let end = p + items[k].len();
    assert(reads(items[k], nodes[k]));
    assert(notation_laws::value_ends(s, end));
    assert(text::stands_at(s, items[k], p));
    notation::lemma_value(s, p);
}

/// Before each row only white space is skipped.
proof fn lemma_row_found(
    s: Seq<char>,
    base: int,
    items: Seq<Seq<char>>,
    nodes: Seq<notation::Node>,
    depth: nat,
    k: int,
)
    requires
        all_read(items, nodes),
        base >= 1,
        text::whitespace(s[base - 1]),
        text::stands_at(s, layout::rows_text(items, depth), base),
        0 <= k < items.len(),
    ensures
        notation::trivia(s, behind(base - 1, row_ends(base, items, depth), k)) == Ok::<
            int,
            notation::Fault,
        >(row_starts(base, items, depth)[k]),
        notation::gap(s, behind(base - 1, row_ends(base, items, depth), k)) == Ok::<
            int,
            notation::Fault,
        >(row_starts(base, items, depth)[k]),
{
    lemma_row_read(s, base, items, nodes, depth, k);
    if k == 0 {
        assert(items.take(0) =~= Seq::empty());
    } else {
        lemma_row_read(s, base, items, nodes, depth, k - 1);
    }
    lemma_blank_run(
        s,
        behind(base - 1, row_ends(base, items, depth), k),
        row_starts(base, items, depth)[k],
    );
}

/// Behind the last row only white space is skipped.
proof fn lemma_rows_closed(
    s: Seq<char>,
    base: int,
    items: Seq<Seq<char>>,
    nodes: Seq<notation::Node>,
    depth: nat,
    close: int,
)
    requires
        all_read(items, nodes),
        base >= 1,
        text::whitespace(s[base - 1]),
        text::stands_at(s, layout::rows_text(items, depth), base),
        base + layout::rows_text(items, depth).len() <= close < s.len(),
        forall|x: int|
            base + layout::rows_text(items, depth).len() <= x < close ==> text::whitespace(
                #[trigger] s[x],
            ),
        notation_laws::solid(s[close]),
    ensures
        notation::trivia(
            s,
            behind(base - 1, row_ends(base, items, depth), items.len() as int),
        ) == Ok::<int, notation::Fault>(close),
        notation::gap(
            s,
            behind(base - 1, row_ends(base, items, depth), items.len() as int),
        ) == Ok::<int, notation::Fault>(close),
{
    assert(items.take(items.len() as int) =~= items);
    if items.len() > 0 {
        lemma_row_read(s, base, items, nodes, depth, items.len() - 1);
    }
    lemma_blank_run(s, behind(base - 1, row_ends(base, items, depth), items.len() as int), close);
}

/// The rows stand one behind the other.
proof fn lemma_rows_stand(
    s: Seq<char>,
    base: int,
    items: Seq<Seq<char>>,
    nodes: Seq<notation::Node>,
    depth: nat,
    close: int,
)
    requires
        all_read(items, nodes),
        base >= 1,
        text::whitespace(s[base - 1]),
        text::stands_at(s, layout::rows_text(items, depth), base),
        base + layout::rows_text(items, depth).len() <= close < s.len(),
        forall|x: int|
            base + layout::rows_text(items, depth).len() <= x < close ==> text::whitespace(
                #[trigger] s[x],
            ),
        s[close] == ']',
    ensures
        items_stand(
            s,
            base - 1,
            row_starts(base, items, depth),
            row_ends(base, items, depth),
            nodes,
            close,
        ),
{
    let starts = row_starts(base, items, depth);
    let ends = row_ends(base, items, depth);
    assert forall|k: int| 0 <= k < nodes.len() implies {
        &&& 0 <= #[trigger] starts[k] < ends[k] <= s.len()
        &&& !notation::char_at(s, starts[k], ']')
        &&& notation::value(s, starts[k]) == Ok::<(notation::Node, int), notation::Fault>(
            (nodes[k], ends[k]),
        )
    } by {
        lemma_row_read(s, base, items, nodes, depth, k);
    }
    assert forall|k: int| 0 <= k < nodes.len() implies notation::trivia(
        s,
        behind(base - 1, ends, k),
    ) == Ok::<int, notation::Fault>(#[trigger] starts[k]) by {
        lemma_row_found(s, base, items, nodes, depth, k);
    }
    lemma_rows_closed(s, base, items, nodes, depth, close);
}

proof fn lemma_read_rows(
    s: Seq<char>,
    at: int,
    items: Seq<Seq<char>>,
    nodes: Seq<notation::Node>,
    depth: nat,
)
    requires
        all_read(items, nodes),
        text::stands_at(s, layout::rows(items, depth), at),
    ensures
        notation_laws::starts_value(s, at),
        notation::value(s, at) == Ok::<(notation::Node, int), notation::Fault>(
            (notation::Node::List(nodes), at + layout::rows(items, depth).len()),
        ),
{
    reveal_strlit("[\n");
    reveal_strlit("]");
    let w = layout::rows(items, depth);
    let inner = layout::rows_text(items, depth + 1);
    let n = inner.len() as int;
    let d = depth as int;
    let there = s.subrange(at, at + w.len());
    assert(w.subrange(2, 2 + n) =~= inner);
    notation_laws::lemma_stands_inside(s, at, w, 2, inner);
    assert(there[0] == s[at] && there[1] == s[at + 1]);
    let base = at + 2;
    let close = at + 2 + n + d;
    assert forall|x: int| base + n <= x < close implies text::whitespace(#[trigger] s[x]) by {
        assert(there[x - at] == w[x - at]);
        assert(w[x - at] == '\t');
    }
    assert(there[2 + n + d] == w[2 + n + d]);
    assert(s[close] == ']');
    lemma_rows_stand(s, base, items, nodes, depth + 1, close);
    let starts = row_starts(base, items, depth + 1);
    let ends = row_ends(base, items, depth + 1);
    let from = at + 1;
    let first = if nodes.len() == 0 {
        close
    } else {
        starts[0]
    };
    notation_laws::lemma_solid(s, at);
    if nodes.len() > 0 {
        lemma_row_read(s, base, items, nodes, depth + 1, 0);
        lemma_row_found(s, base, items, nodes, depth + 1, 0);
    } else {
        lemma_rows_closed(s, base, items, nodes, depth + 1, close);
    }
    notation_laws::lemma_solid(s, first);
    lemma_items_skip(s, from, first, starts, ends, nodes, close);
    assert(nodes.take(0) =~= Seq::empty());
    assert(notation::list_start(s, from) == Ok::<int, notation::Fault>(first));
}

/// Where the white space before the first item is skipped, the items are the same.
proof fn lemma_items_skip(
    s: Seq<char>,
    from: int,
    first: int,
    starts: Seq<int>,
    ends: Seq<int>,
    nodes: Seq<notation::Node>,
    close: int,
)
    requires
        items_stand(s, from, starts, ends, nodes, close),
        first == (if nodes.len() == 0 {
            close
        } else {
            starts[0]
        }),
        notation::trivia(s, first) == Ok::<int, notation::Fault>(first),
    ensures
        notation::items(s, first, nodes.take(0)) == Ok::<(notation::Node, int), notation::Fault>(
            (notation::Node::List(nodes), close + 1),
        ),
{
    assert(items_stand(s, first, starts, ends, nodes, close));
    lemma_items_stand(s, first, starts, ends, nodes, close, 0);
}

/// A list over several lines is read as that list.
pub proof fn lemma_rows_read(items: Seq<Seq<char>>, nodes: Seq<notation::Node>, depth: nat)
    requires
        all_read(items, nodes),
    ensures
        reads(layout::rows(items, depth), notation::Node::List(nodes)),
{
    let w = layout::rows(items, depth);
    let n = notation::Node::List(nodes);
    assert forall|s: Seq<char>, at: int| #[trigger]
        text::stands_at(s, w, at) && notation_laws::value_ends(s, at + w.len()) implies notation_laws::starts_value(
        s,
        at,
    ) && notation::value(s, at) == Ok::<(notation::Node, int), notation::Fault>(
        (n, at + w.len()),
    ) by {
        lemma_read_rows(s, at, items, nodes, depth);
    }
}

// ---------------------------------------------------------------------------
// Compounds over several lines
// ---------------------------------------------------------------------------

/// A name that is read as it stands.
pub open spec fn is_bare_key(key: Seq<char>) -> bool {
    &&& key.len() > 0
    &&& forall|i: int| 0 <= i < key.len() ==> !notation::ends_key(#[trigger] key[i])
    &&& !notation::is_quote(key[0])
    &&& notation_laws::solid(key[0])
}

/// The fields put together; of two fields of one name the later one stays.
pub open spec fn assembled(fields: Seq<(Seq<char>, notation::Node)>) -> Seq<
    (Seq<char>, notation::Node),
>
    decreases fields.len(),
{
    if fields.len() == 0 {
        Seq::empty()
    } else {
        table::upsert(assembled(fields.drop_last()), fields.last().0, fields.last().1)
    }
}

/// Each line is read as the field beside it.
pub open spec fn lines_read(
    lines: Seq<(Seq<char>, Seq<char>)>,
    fields: Seq<(Seq<char>, notation::Node)>,
) -> bool {
    &&& lines.len() == fields.len()
    &&& forall|i: int|
        0 <= i < lines.len() ==> (#[trigger] lines[i]).0 == fields[i].0 && is_bare_key(lines[i].0)
            && reads(lines[i].1, fields[i].1)
}

/// Fields one behind the other, up to a closing brace.
spec fn fields_stand(
    s: Seq<char>,
    from: int,
    starts: Seq<int>,
    middles: Seq<int>,
    ends: Seq<int>,
    fields: Seq<(Seq<char>, notation::Node)>,
    close: int,
) -> bool {
    &&& 0 <= from <= s.len()
    &&& starts.len() == fields.len()
    &&& middles.len() == fields.len()
    &&& ends.len() == fields.len()
    &&& notation::char_at(s, close, '}')
    &&& forall|k: int|
        0 <= k < fields.len() ==> {
            &&& 0 <= #[trigger] starts[k] < middles[k] < ends[k] <= s.len()
            &&& !notation::char_at(s, starts[k], '}')
            &&& notation::key(s, starts[k]) == Ok::<(Seq<char>, int), notation::Fault>(
                (fields[k].0, middles[k]),
            )
            &&& notation::colon(s, middles[k]) == Ok::<int, notation::Fault>(middles[k] + 1)
            &&& notation::value(s, middles[k] + 1) == Ok::<(notation::Node, int), notation::Fault>(
                (fields[k].1, ends[k]),
            )
            &&& middles[k] + 1 < ends[k]
        }
    &&& forall|k: int|
        0 <= k < fields.len() ==> notation::trivia(s, behind(from, ends, k)) == Ok::<
            int,
            notation::Fault,
        >(#[trigger] starts[k])
    &&& notation::trivia(s, behind(from, ends, fields.len() as int)) == Ok::<int, notation::Fault>(
        close,
    )
}

proof fn lemma_fields_stand(
    s: Seq<char>,
    from: int,
    starts: Seq<int>,
    middles: Seq<int>,
    ends: Seq<int>,
    fields: Seq<(Seq<char>, notation::Node)>,
    close: int,
    k: int,
)
    requires
        fields_stand(s, from, starts, middles, ends, fields, close),
        0 <= k <= fields.len(),
    ensures
        notation::fields(s, behind(from, ends, k), assembled(fields.take(k))) == Ok::<(notation::Node, int), notation::Fault>(
            (notation::Node::Compound(assembled(fields)), close + 1),
        ),
    decreases fields.len() - k,
{
    if k > 0 {
        assert(0 <= starts[k - 1] < middles[k - 1] < ends[k - 1] <= s.len());
    }
    if k == fields.len() {
        assert(fields.take(k) =~= fields);
    } else {
        assert(0 <= starts[k] < middles[k] < ends[k] <= s.len());
        lemma_fields_stand(s, from, starts, middles, ends, fields, close, k + 1);
        assert(fields.take(k + 1).drop_last() =~= fields.take(k));
        assert(fields.take(k + 1).last() == fields[k]);
    }
}

proof fn lemma_lines_prefix(lines: Seq<(Seq<char>, Seq<char>)>, depth: nat, k: int)
    requires
        0 <= k <= lines.len(),
    ensures
        ({
            let front = layout::lines_text(lines.take(k), depth);
            let all = layout::lines_text(lines, depth);
            front.len() <= all.len() && all.take(front.len() as int) == front
        }),
    decreases lines.len(),
{
    let front = layout::lines_text(lines.take(k), depth);
    let all = layout::lines_text(lines, depth);
    if k == lines.len() {
        assert(lines.take(k) =~= lines);
        assert(all.take(all.len() as int) =~= all);
    } else {
        assert(lines.drop_last().take(k) =~= lines.take(k));
        lemma_lines_prefix(lines.drop_last(), depth, k);
        let middle = layout::lines_text(lines.drop_last(), depth);
        assert(all =~= middle + layout::line_text(lines.last(), depth));
        assert(all.take(front.len() as int) =~= front) by {
            assert(middle.take(front.len() as int) == front);
        }
    }
}

/// Where the `k`th line stands, and what stands in it.
proof fn lemma_line_place(
    s: Seq<char>,
    base: int,
    lines: Seq<(Seq<char>, Seq<char>)>,
    depth: nat,
    k: int,
)
    requires
        text::stands_at(s, layout::lines_text(lines, depth), base),
        0 <= k < lines.len(),
    ensures
        ({
            let from = base + layout::lines_text(lines.take(k), depth).len();
            let colon = from + depth + lines[k].0.len();
            let end = colon + 2 + lines[k].1.len();
            &&& text::stands_at(s, lines[k].0, from + depth)
            &&& notation::pair_at(s, colon, ':', ' ')
            &&& text::stands_at(s, lines[k].1, colon + 2)
            &&& forall|x: int| from <= x < from + depth ==> text::whitespace(#[trigger] s[x])
            &&& notation::char_at(s, end, '\n')
            &&& end + 1 == base + layout::lines_text(lines.take(k + 1), depth).len()
            &&& end + 1 <= base + layout::lines_text(lines, depth).len()
        }),
{
    reveal_strlit("\n");
    reveal_strlit(": ");
    let all = layout::lines_text(lines, depth);
    let front = layout::lines_text(lines.take(k), depth);
    let next = layout::lines_text(lines.take(k + 1), depth);
    assert(lines.take(k + 1).drop_last() =~= lines.take(k));
    let line = layout::line_text(lines[k], depth);
    assert(next =~= front + line);
    lemma_lines_prefix(lines, depth, k + 1);
    let f = front.len() as int;
    let r = line.len() as int;
    assert(all.subrange(f, f + r) =~= line) by {
        assert forall|x: int| 0 <= x < r implies all[f + x] == line[x] by {
            assert(all.take(next.len() as int)[f + x] == next[f + x]);
        }
    }
    notation_laws::lemma_stands_inside(s, base, all, f, line);
    let d = depth as int;
    let c = d + lines[k].0.len();
    assert(line.subrange(d, c) =~= lines[k].0);
    notation_laws::lemma_stands_inside(s, base + f, line, d, lines[k].0);
    assert(line.subrange(c + 2, c + 2 + lines[k].1.len()) =~= lines[k].1);
    notation_laws::lemma_stands_inside(s, base + f, line, c + 2, lines[k].1);
    let there = s.subrange(base + f, base + f + r);
    assert forall|x: int| base + f <= x < base + f + d implies text::whitespace(#[trigger] s[x]) by {
        assert(there[x - base - f] == line[x - base - f]);
        assert(line[x - base - f] == '\t');
    }
    assert(there[c] == line[c] && there[c + 1] == line[c + 1] && there[r - 1] == line[r - 1]);
}

/// A name that stands before a colon is read as it stands.
proof fn lemma_read_bare_key(s: Seq<char>, p: int, key: Seq<char>)
    requires
        is_bare_key(key),
        text::stands_at(s, key, p),
        notation::char_at(s, p + key.len(), ':'),
    ensures
        notation::key(s, p) == Ok::<(Seq<char>, int), notation::Fault>((key, p + key.len())),
        notation_laws::solid(s[p]),
        s[p] != '}',
{
    let end = p + key.len();
    let there = s.subrange(p, end);
    assert forall|i: int| p <= i < end implies !notation::ends_key(#[trigger] s[i]) by {
        assert(there[i - p] == key[i - p]);
    }
    assert(there[0] == key[0]);
    notation_laws::lemma_key_run(s, p, end);
}

/// How the `k`th line is read.
proof fn lemma_line_read(
    s: Seq<char>,
    base: int,
    lines: Seq<(Seq<char>, Seq<char>)>,
    fields: Seq<(Seq<char>, notation::Node)>,
    depth: nat,
    k: int,
)
    requires
        lines_read(lines, fields),
        text::stands_at(s, layout::lines_text(lines, depth), base),
        0 <= k < lines.len(),
    ensures
        ({
            let p = base + layout::lines_text(lines.take(k), depth).len() + depth;
            let m = p + lines[k].0.len();
            let end = m + 2 + lines[k].1.len();
            &&& p < m
            &&& m + 1 < end < s.len()
            &&& notation_laws::solid(s[p])
            &&& s[p] != '}'
            &&& notation::key(s, p) == Ok::<(Seq<char>, int), notation::Fault>((fields[k].0, m))
            &&& notation::colon(s, m) == Ok::<int, notation::Fault>(m + 1)
            &&& notation::value(s, m + 1) == Ok::<(notation::Node, int), notation::Fault>(
                (fields[k].1, end),
            )
            &&& text::whitespace(s[end])
            &&& end + 1 == base + layout::lines_text(lines.take(k + 1), depth).len()
            &&& forall|x: int| p - depth <= x < p ==> text::whitespace(#[trigger] s[x])
        }),
{
    lemma_line_place(s, base, lines, depth, k);
    let p = base + layout::lines_text(lines.take(k), depth).len() + depth;
    let m = p + lines[k].0.len();
    let end = m + 2 + lines[k].1.len();
    assert(lines[k].0 == fields[k].0 && is_bare_key(lines[k].0) && reads(lines[k].1, fields[k].1));
    lemma_read_bare_key(s, p, lines[k].0);
    notation_laws::lemma_solid(s, m);
    assert(notation_laws::value_ends(s, end));
    assert(text::stands_at(s, lines[k].1, m + 2));
    assert(notation_laws::starts_value(s, m + 2));
    notation_laws::lemma_space(s, m + 1);
    notation_laws::lemma_same_start(s, m + 1, m + 2);
    notation::lemma_value(s, m + 2);
}

spec fn line_at(lines: Seq<(Seq<char>, Seq<char>)>, depth: nat, k: int) -> int {
    layout::lines_text(lines.take(k), depth).len() as int
}

spec fn line_starts(base: int, lines: Seq<(Seq<char>, Seq<char>)>, depth: nat) -> Seq<int> {
    Seq::new(lines.len(), |k: int| base + line_at(lines, depth, k) + depth)
}

spec fn line_middles(base: int, lines: Seq<(Seq<char>, Seq<char>)>, depth: nat) -> Seq<int> {
    Seq::new(lines.len(), |k: int| base + line_at(lines, depth, k) + depth + lines[k].0.len())
}

spec fn line_ends(base: int, lines: Seq<(Seq<char>, Seq<char>)>, depth: nat) -> Seq<int> {
    Seq::new(
        lines.len(),
        |k: int|
            base + line_at(lines, depth, k) + depth + lines[k].0.len() + 2 + lines[k].1.len(),
    )
}

/// Before each line only white space is skipped.
proof fn lemma_line_found(
    s: Seq<char>,
    base: int,
    lines: Seq<(Seq<char>, Seq<char>)>,
    fields: Seq<(Seq<char>, notation::Node)>,
    depth: nat,
    k: int,
)
    requires
        lines_read(lines, fields),
        base >= 1,
        text::whitespace(s[base - 1]),
        text::stands_at(s, layout::lines_text(lines, depth), base),
        0 <= k < lines.len(),
    ensures
        notation::trivia(s, behind(base - 1, line_ends(base, lines, depth), k)) == Ok::<
            int,
            notation::Fault,
        >(line_starts(base, lines, depth)[k]),
{
    lemma_line_read(s, base, lines, fields, depth, k);
    if k == 0 {
        assert(lines.take(0) =~= Seq::empty());
    } else {
        lemma_line_read(s, base, lines, fields, depth, k - 1);
    }
    lemma_blank_run(
        s,
        behind(base - 1, line_ends(base, lines, depth), k),
        line_starts(base, lines, depth)[k],
    );
}

/// Behind the last line only white space is skipped.
proof fn lemma_lines_closed(
    s: Seq<char>,
    base: int,
    lines: Seq<(Seq<char>, Seq<char>)>,
    fields: Seq<(Seq<char>, notation::Node)>,
    depth: nat,
    close: int,
)
    requires
        lines_read(lines, fields),
        base >= 1,
        text::whitespace(s[base - 1]),
        text::stands_at(s, layout::lines_text(lines, depth), base),
        base + layout::lines_text(lines, depth).len() <= close < s.len(),
        forall|x: int|
            base + layout::lines_text(lines, depth).len() <= x < close ==> text::whitespace(
                #[trigger] s[x],
            ),
        notation_laws::solid(s[close]),
    ensures
        notation::trivia(
            s,
            behind(base - 1, line_ends(base, lines, depth), lines.len() as int),
        ) == Ok::<int, notation::Fault>(close),
{
    assert(lines.take(lines.len() as int) =~= lines);
    if lines.len() > 0 {
        lemma_line_read(s, base, lines, fields, depth, lines.len() - 1);
    }
    lemma_blank_run(s, behind(base - 1, line_ends(base, lines, depth), lines.len() as int), close);
}

/// The lines stand one behind the other.
proof fn lemma_lines_stand(
    s: Seq<char>,
    base: int,
    lines: Seq<(Seq<char>, Seq<char>)>,
    fields: Seq<(Seq<char>, notation::Node)>,
    depth: nat,
    close: int,
)
    requires
        lines_read(lines, fields),
        base >= 1,
        text::whitespace(s[base - 1]),
        text::stands_at(s, layout::lines_text(lines, depth), base),
        base + layout::lines_text(lines, depth).len() <= close < s.len(),
        forall|x: int|
            base + layout::lines_text(lines, depth).len() <= x < close ==> text::whitespace(
                #[trigger] s[x],
            ),
        s[close] == '}',
    ensures
        fields_stand(
            s,
            base - 1,
            line_starts(base, lines, depth),
            line_middles(base, lines, depth),
            line_ends(base, lines, depth),
            fields,
            close,
        ),
{
    let starts = line_starts(base, lines, depth);
    let middles = line_middles(base, lines, depth);
    let ends = line_ends(base, lines, depth);
    assert forall|k: int| 0 <= k < fields.len() implies {
        &&& 0 <= #[trigger] starts[k] < middles[k] < ends[k] <= s.len()
        &&& !notation::char_at(s, starts[k], '}')
        &&& notation::key(s, starts[k]) == Ok::<(Seq<char>, int), notation::Fault>(
            (fields[k].0, middles[k]),
        )
        &&& notation::colon(s, middles[k]) == Ok::<int, notation::Fault>(middles[k] + 1)
        &&& notation::value(s, middles[k] + 1) == Ok::<(notation::Node, int), notation::Fault>(
            (fields[k].1, ends[k]),
        )
        &&& middles[k] + 1 < ends[k]
    } by {
        lemma_line_read(s, base, lines, fields, depth, k);
    }
    assert forall|k: int| 0 <= k < fields.len() implies notation::trivia(
        s,
        behind(base - 1, ends, k),
    ) == Ok::<int, notation::Fault>(#[trigger] starts[k]) by {
        lemma_line_found(s, base, lines, fields, depth, k);
    }
    lemma_lines_closed(s, base, lines, fields, depth, close);
}

proof fn lemma_read_block(
    s: Seq<char>,
    at: int,
    lines: Seq<(Seq<char>, Seq<char>)>,
    fields: Seq<(Seq<char>, notation::Node)>,
    depth: nat,
)
    requires
        lines_read(lines, fields),
        text::stands_at(s, layout::block(lines, depth), at),
    ensures
        notation_laws::starts_value(s, at),
        notation::value(s, at) == Ok::<(notation::Node, int), notation::Fault>(
            (notation::Node::Compound(assembled(fields)), at + layout::block(lines, depth).len()),
        ),
{
    reveal_strlit("{\n");
    reveal_strlit("}");
    let w = layout::block(lines, depth);
    let inner = layout::lines_text(lines, depth + 1);
    let n = inner.len() as int;
    let d = depth as int;
    let there = s.subrange(at, at + w.len());
    assert(w.subrange(2, 2 + n) =~= inner);
    notation_laws::lemma_stands_inside(s, at, w, 2, inner);
    assert(there[0] == s[at] && there[1] == s[at + 1]);
    let base = at + 2;
    let close = at + 2 + n + d;
    assert forall|x: int| base + n <= x < close implies text::whitespace(#[trigger] s[x]) by {
        assert(there[x - at] == w[x - at]);
        assert(w[x - at] == '\t');
    }
    assert(there[2 + n + d] == w[2 + n + d]);
    assert(s[close] == '}');
    lemma_lines_stand(s, base, lines, fields, depth + 1, close);
    lemma_fields_stand(
        s,
        at + 1,
        line_starts(base, lines, depth + 1),
        line_middles(base, lines, depth + 1),
        line_ends(base, lines, depth + 1),
        fields,
        close,
        0,
    );
    assert(fields.take(0) =~= Seq::empty());
    notation_laws::lemma_solid(s, at);
}

/// A compound over several lines is read as its fields put together.
pub proof fn lemma_block_reads(
    lines: Seq<(Seq<char>, Seq<char>)>,
    fields: Seq<(Seq<char>, notation::Node)>,
    depth: nat,
)
    requires
        lines_read(lines, fields),
    ensures
        reads(layout::block(lines, depth), notation::Node::Compound(assembled(fields))),
{
    let w = layout::block(lines, depth);
    let n = notation::Node::Compound(assembled(fields));
    assert forall|s: Seq<char>, at: int| #[trigger]
        text::stands_at(s, w, at) && notation_laws::value_ends(s, at + w.len()) implies notation_laws::starts_value(
        s,
        at,
    ) && notation::value(s, at) == Ok::<(notation::Node, int), notation::Fault>(
        (n, at + w.len()),
    ) by {
        lemma_read_block(s, at, lines, fields, depth);
    }
}

// ---------------------------------------------------------------------------
// Values in one line
// ---------------------------------------------------------------------------

/// An empty list with a space in it is read as an empty list.
pub proof fn lemma_empty_list_reads()
    ensures
        reads("[ ]"@, notation::Node::List(Seq::empty())),
{
    reveal_strlit("[ ]");
    let w = "[ ]"@;
    let n = notation::Node::List(Seq::empty());
    assert forall|s: Seq<char>, at: int| #[trigger]
        text::stands_at(s, w, at) && notation_laws::value_ends(s, at + w.len()) implies notation_laws::starts_value(
        s,
        at,
    ) && notation::value(s, at) == Ok::<(notation::Node, int), notation::Fault>(
        (n, at + w.len()),
    ) by {
        let there = s.subrange(at, at + 3);
        assert(there[0] == s[at] && there[1] == s[at + 1] && there[2] == s[at + 2]);
        notation_laws::lemma_solid(s, at);
        notation_laws::lemma_space(s, at + 1);
        notation_laws::lemma_solid(s, at + 2);
        assert(notation::list_start(s, at + 1) == Ok::<int, notation::Fault>(at + 2));
    }
}

/// The fields of a group.
pub open spec fn group_fields(id: Seq<char>, title: Seq<char>) -> Seq<
    (Seq<char>, notation::Node),
> {
    seq![("id"@, notation::Node::Scalar(id)), ("title"@, notation::Node::Scalar(title))]
}

/// Where the parts of a group stand.
proof fn lemma_group_place(s: Seq<char>, at: int, a: Seq<char>, b: Seq<char>)
    requires
        text::stands_at(s, "{ id: "@ + a + ", title: "@ + b + " }"@, at),
    ensures
        ({
            let first = at + 6 + a.len();
            let second = first + 9 + b.len();
            &&& second + 2 <= s.len()
            &&& s[at] == '{'
            &&& s[at + 1] == ' '
            &&& text::stands_at(s, "id"@, at + 2)
            &&& s[at + 4] == ':'
            &&& s[at + 5] == ' '
            &&& text::stands_at(s, a, at + 6)
            &&& s[first] == ','
            &&& s[first + 1] == ' '
            &&& text::stands_at(s, "title"@, first + 2)
            &&& s[first + 7] == ':'
            &&& s[first + 8] == ' '
            &&& text::stands_at(s, b, first + 9)
            &&& s[second] == ' '
            &&& s[second + 1] == '}'
        }),
{
    reveal_strlit("{ id: ");
    reveal_strlit(", title: ");
    reveal_strlit(" }");
    reveal_strlit("id");
    reveal_strlit("title");
    let w = "{ id: "@ + a + ", title: "@ + b + " }"@;
    let n = a.len() as int;
    let m = b.len() as int;
    let there = s.subrange(at, at + w.len());
    assert forall|k: int| 0 <= k < w.len() implies #[trigger] s[at + k] == w[k] by {
        assert(there[k] == s[at + k]);
    }
    assert(s[at + 0] == w[0] && s[at + 1] == w[1] && s[at + 4] == w[4] && s[at + 5] == w[5]);
    assert(s[at + (6 + n)] == w[6 + n] && s[at + (7 + n)] == w[7 + n]);
    assert(s[at + (13 + n)] == w[13 + n] && s[at + (14 + n)] == w[14 + n]);
    assert(s[at + (15 + n + m)] == w[15 + n + m] && s[at + (16 + n + m)] == w[16 + n + m]);
    assert(w.subrange(2, 4) =~= "id"@);
    assert(w.subrange(6, 6 + n) =~= a);
    assert(w.subrange(8 + n, 13 + n) =~= "title"@);
    assert(w.subrange(15 + n, 15 + n + m) =~= b);
    notation_laws::lemma_stands_inside(s, at, w, 2, "id"@);
    notation_laws::lemma_stands_inside(s, at, w, 6, a);
    notation_laws::lemma_stands_inside(s, at, w, 8 + n, "title"@);
    notation_laws::lemma_stands_inside(s, at, w, 15 + n, b);
}

proof fn lemma_read_group(s: Seq<char>, at: int, id: Seq<char>, title: Seq<char>)
    requires
        text::stands_at(
            s,
            "{ id: "@ + export::in_quotes(id) + ", title: "@ + export::in_quotes(title) + " }"@,
            at,
        ),
    ensures
        notation_laws::starts_value(s, at),
        notation::value(s, at) == Ok::<(notation::Node, int), notation::Fault>(
            (
                notation::Node::Compound(assembled(group_fields(id, title))),
                at + 17 + export::in_quotes(id).len() + export::in_quotes(title).len(),
            ),
        ),
{
    let a = export::in_quotes(id);
    let b = export::in_quotes(title);
    let first = at + 6 + a.len();
    let second = first + 9 + b.len();
    let fields = group_fields(id, title);
    lemma_group_place(s, at, a, b);
    assert(is_bare_key("id"@) && "id"@.len() == 2 && is_bare_key("title"@) && "title"@.len() == 5)
        by {
        reveal_strlit("id");
        reveal_strlit("title");
    }
    lemma_in_quotes_reads(id);
    lemma_in_quotes_reads(title);
    assert(notation_laws::value_ends(s, first) && notation_laws::value_ends(s, second));
    lemma_read_bare_key(s, at + 2, "id"@);
    lemma_read_bare_key(s, first + 2, "title"@);
    assert(notation_laws::starts_value(s, at + 6) && notation_laws::starts_value(s, first + 9));
    notation_laws::lemma_space(s, at + 5);
    notation_laws::lemma_same_start(s, at + 5, at + 6);
    notation_laws::lemma_space(s, first + 8);
    notation_laws::lemma_same_start(s, first + 8, first + 9);
    notation_laws::lemma_space(s, at + 1);
    notation_laws::lemma_comma_space(s, first);
    notation_laws::lemma_space(s, second);
    notation_laws::lemma_solid(s, at + 4);
    notation_laws::lemma_solid(s, first + 7);
    notation_laws::lemma_solid(s, at);
    let starts = seq![at + 2, first + 2];
    let middles = seq![at + 4, first + 7];
    let ends = seq![first, second];
    assert(fields_stand(s, at + 1, starts, middles, ends, fields, second + 1));
    lemma_fields_stand(s, at + 1, starts, middles, ends, fields, second + 1, 0);
    assert(fields.take(0) =~= Seq::empty());
}

/// A group in one line is read as its id and its title.
pub proof fn lemma_group_reads(id: Seq<char>, title: Seq<char>)
    ensures
        reads(
            "{ id: "@ + export::in_quotes(id) + ", title: "@ + export::in_quotes(title) + " }"@,
            notation::Node::Compound(assembled(group_fields(id, title))),
        ),
{
    let w = "{ id: "@ + export::in_quotes(id) + ", title: "@ + export::in_quotes(title) + " }"@;
    assert(w.len() == 17 + export::in_quotes(id).len() + export::in_quotes(title).len()) by {
        reveal_strlit("{ id: ");
        reveal_strlit(", title: ");
        reveal_strlit(" }");
    }
    let n = notation::Node::Compound(assembled(group_fields(id, title)));
    assert forall|s: Seq<char>, at: int| #[trigger]
        text::stands_at(s, w, at) && notation_laws::value_ends(s, at + w.len()) implies notation_laws::starts_value(
        s,
        at,
    ) && notation::value(s, at) == Ok::<(notation::Node, int), notation::Fault>(
        (n, at + w.len()),
    ) by {
        lemma_read_group(s, at, id, title);
    }
}

/// A text that is read as a value, with a line break behind it, is a whole document.
pub proof fn lemma_reads_document(w: Seq<char>, n: notation::Node)
    requires
        reads(w, n),
    ensures
        notation::document(w + "\n"@) == Ok::<notation::Node, notation::Fault>(n),
{
    reveal_strlit("\n");
    let s = w + "\n"@;
    assert(s.subrange(0, w.len() as int) =~= w);
    assert(text::stands_at(s, w, 0));
    assert(notation_laws::value_ends(s, w.len() as int));
    assert(s[w.len() as int] == '\n');
    assert(notation::gap(s, w.len() as int) == notation::gap(s, w.len() as int + 1));
}

} // verus!
