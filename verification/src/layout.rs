//! Values laid out over lines: one field or one item in each.

use crate::compose;
use crate::text;
use vstd::prelude::*;

verus! {

/// Fields: their names and the texts of their values.
pub open spec fn lines_of(lines: Seq<(String, String)>) -> Seq<(Seq<char>, Seq<char>)> {
    Seq::new(lines.len(), |i: int| (lines[i].0@, lines[i].1@))
}

pub open spec fn tabs(depth: nat) -> Seq<char> {
    compose::repeated('\t', depth)
}

/// A field in a line of its own.
pub open spec fn line_text(line: (Seq<char>, Seq<char>), depth: nat) -> Seq<char> {
    tabs(depth) + line.0 + ": "@ + line.1 + "\n"@
}

/// Fields, each in a line of its own.
pub open spec fn lines_text(lines: Seq<(Seq<char>, Seq<char>)>, depth: nat) -> Seq<char>
    decreases lines.len(),
{
    if lines.len() == 0 {
        Seq::empty()
    } else {
        lines_text(lines.drop_last(), depth) + line_text(lines.last(), depth)
    }
}

/// A compound over several lines.
pub open spec fn block(lines: Seq<(Seq<char>, Seq<char>)>, depth: nat) -> Seq<char> {
    "{\n"@ + lines_text(lines, depth + 1) + tabs(depth) + "}"@
}

/// An item in a line of its own.
pub open spec fn row_text(item: Seq<char>, depth: nat) -> Seq<char> {
    tabs(depth) + item + "\n"@
}

/// Items, each in a line of its own.
pub open spec fn rows_text(items: Seq<Seq<char>>, depth: nat) -> Seq<char>
    decreases items.len(),
{
    if items.len() == 0 {
        Seq::empty()
    } else {
        rows_text(items.drop_last(), depth) + row_text(items.last(), depth)
    }
}

/// A list over several lines.
pub open spec fn rows(items: Seq<Seq<char>>, depth: nat) -> Seq<char> {
    "[\n"@ + rows_text(items, depth + 1) + tabs(depth) + "]"@
}

/// A compound over several lines.
pub fn lay_out_block(lines: &Vec<(String, String)>, depth: usize) -> (r: String)
    requires
        depth < usize::MAX,
    ensures
        r@ == block(lines_of(lines@), depth as nat),
{
    let ghost all = lines_of(lines@);
    let inner = compose::repeat('\t', depth + 1);
    let mut r = "{\n".to_owned();
    let mut i: usize = 0;
    assert(all.take(0) =~= Seq::empty());
    assert(r@ =~= "{\n"@ + lines_text(all.take(0), (depth + 1) as nat));
    while i < lines.len()
        invariant
            i <= lines@.len(),
            depth < usize::MAX,
            all == lines_of(lines@),
            inner@ == tabs((depth + 1) as nat),
            r@ == "{\n"@ + lines_text(all.take(i as int), (depth + 1) as nat),
        decreases lines@.len() - i,
    {
        let ghost before = r@;
        assert(all.take(i + 1).drop_last() =~= all.take(i as int));
        r.append(inner.as_str());
        r.append(lines[i].0.as_str());
        r.append(": ");
        r.append(lines[i].1.as_str());
        r.append("\n");
        assert(r@ =~= before + line_text(all[i as int], (depth + 1) as nat));
        assert(r@ =~= "{\n"@ + lines_text(all.take(i + 1), (depth + 1) as nat));
        i += 1;
    }
    assert(all.take(i as int) =~= all);
    r.append(compose::repeat('\t', depth).as_str());
    r.append("}");
    r
}

/// A list over several lines.
pub fn lay_out_rows(items: &Vec<String>, depth: usize) -> (r: String)
    requires
        depth < usize::MAX,
    ensures
        r@ == rows(text::texts(items@), depth as nat),
{
    let ghost all = text::texts(items@);
    let inner = compose::repeat('\t', depth + 1);
    let mut r = "[\n".to_owned();
    let mut i: usize = 0;
    assert(all.take(0) =~= Seq::empty());
    assert(r@ =~= "[\n"@ + rows_text(all.take(0), (depth + 1) as nat));
    while i < items.len()
        invariant
            i <= items@.len(),
            depth < usize::MAX,
            all == text::texts(items@),
            inner@ == tabs((depth + 1) as nat),
            r@ == "[\n"@ + rows_text(all.take(i as int), (depth + 1) as nat),
        decreases items@.len() - i,
    {
        let ghost before = r@;
        assert(all.take(i + 1).drop_last() =~= all.take(i as int));
        r.append(inner.as_str());
        r.append(items[i].as_str());
        r.append("\n");
        assert(r@ =~= before + row_text(all[i as int], (depth + 1) as nat));
        assert(r@ =~= "[\n"@ + rows_text(all.take(i + 1), (depth + 1) as nat));
        i += 1;
    }
    assert(all.take(i as int) =~= all);
    r.append(compose::repeat('\t', depth).as_str());
    r.append("]");
    r
}

} // verus!
