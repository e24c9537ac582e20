//! Building the two-column text that the listing mode prints.
//!
//! The text starts with the header row and adds one row per entry, in
//! order; within a row, name and value are separated by a tab, and rows
//! are separated by newlines. Column alignment is left to the caller.

use vstd::prelude::*;

verus! {

/// The listing text for a sequence of entries: the header row, then one
/// `name<TAB>value` row per entry, rows separated by newlines.
pub open spec fn spec_table_text(rows: Seq<(String, String)>) -> Seq<char>
    decreases rows.len(),
{
    if rows.len() == 0 {
        "VARIABLE NAME\tVARIABLE VALUE"@
    } else {
        spec_table_text(rows.drop_last()) + "\n"@ + rows.last().0@ + "\t"@ + rows.last().1@
    }
}

/// Builds the listing text: the header row first, then one tab-separated
/// row per entry, in the order given, duplicates kept.
pub fn render_table_lines(entries: &Vec<(String, String)>) -> (r: String)
    ensures
        r@ == spec_table_text(entries@),
{
    let mut out = String::new();
    out.append("VARIABLE NAME\tVARIABLE VALUE");
    let n = entries.len();
    let mut i: usize = 0;
    while i < n
        invariant
            n == entries@.len(),
            i <= n,
            out@ == spec_table_text(entries@.take(i as int)),
        decreases n - i,
    {
        out.append("\n");
        out.append(entries[i].0.as_str());
        out.append("\t");
        out.append(entries[i].1.as_str());
        proof {
            assert(entries@.take(i + 1).drop_last() =~= entries@.take(i as int));
            assert(entries@.take(i + 1).last() == entries@[i as int]);
        }
        i = i + 1;
    }
    proof {
        assert(entries@.take(n as int) =~= entries@);
    }
    out
}

} // verus!
