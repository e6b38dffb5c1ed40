//! Layout of the admin CLI's table listings: column widths, the header line,
//! the closing count, and how long names are cut.

use vstd::prelude::*;
use crate::text::{str_eq, pad_right, padded, join_with, truncate_chars, truncated, decimal,
    decimal_string};

verus! {

/// Width of a listing column, by its heading.
pub open spec fn col_width_spec(col: Seq<char>) -> nat {
    if col == "ID"@ {
        6
    } else if col == "Name"@ {
        30
    } else if col == "Customer"@ {
        10
    } else if col == "Budget"@ {
        10
    } else if col == "Start"@ || col == "End"@ {
        12
    } else if col == "Currency"@ {
        10
    } else if col == "Timezone"@ {
        25
    } else if col == "Email"@ {
        28
    } else if col == "Project"@ {
        10
    } else {
        15
    }
}

pub fn col_width(col: &str) -> (r: usize)
    ensures
        r == col_width_spec(col@),
{
    if str_eq(col, "ID") {
        6
    } else if str_eq(col, "Name") {
        30
    } else if str_eq(col, "Customer") {
        10
    } else if str_eq(col, "Budget") {
        10
    } else if str_eq(col, "Start") || str_eq(col, "End") {
        12
    } else if str_eq(col, "Currency") {
        10
    } else if str_eq(col, "Timezone") {
        25
    } else if str_eq(col, "Email") {
        28
    } else if str_eq(col, "Project") {
        10
    } else {
        15
    }
}

/// The headings, each padded to its column's width, separated by spaces.
pub open spec fn header_text(cols: Seq<Seq<char>>) -> Seq<char> {
    join_with(Seq::new(cols.len(), |i: int| padded(cols[i], col_width_spec(cols[i]))), " "@)
}

/// The heading line of a table.
pub fn header_line(cols: &[&str]) -> (r: String)
    ensures
        r@ == header_text(cols@.map_values(|c: &str| c@)),
{
    let ghost cv = cols@.map_values(|c: &str| c@);
    let ghost parts = Seq::new(cv.len(), |i: int| padded(cv[i], col_width_spec(cv[i])));
    let n = cols.len();
    let mut s = String::new();
    let mut i: usize = 0;
    while i < n
        invariant
            n == cols@.len(),
            cv == cols@.map_values(|c: &str| c@),
            parts == Seq::new(cv.len(), |i: int| padded(cv[i], col_width_spec(cv[i]))),
            i <= n,
            s@ == join_with(parts.take(i as int), " "@),
        decreases n - i,
    {
        let w = col_width(cols[i]);
        let p = pad_right(cols[i], w);
        assert(cv[i as int] == cols@[i as int]@);
        if i > 0 {
            s.append(" ");
        }
        s.append(p.as_str());
        assert(parts.take(i + 1).drop_last() =~= parts.take(i as int));
        if i == 0 {
            assert(s@ =~= parts[0]);
        }
        i = i + 1;
    }
    assert(parts.take(n as int) =~= parts);
    s
}

/// `entity` for one, `entity` + "s" otherwise.
pub open spec fn count_label_spec(n: nat, entity: Seq<char>) -> Seq<char> {
    if n == 1 {
        entity
    } else {
        entity + "s"@
    }
}

/// The line closing a listing: the count and the entity, in the plural
/// unless there is exactly one.
pub fn count_line(n: usize, entity: &str) -> (r: String)
    ensures
        r@ == decimal(n as nat) + " "@ + count_label_spec(n as nat, entity@),
{
    let mut s = decimal_string(n as u64);
    s.append(" ");
    s.append(entity);
    if n != 1 {
        s.append("s");
    }
    s
}

/// A name cut to `max` characters for a table cell.
pub fn truncate(s: &str, max: usize) -> (r: String)
    requires
        s@.len() <= max || max >= 1,
    ensures
        r@ == truncated(s@, max as nat),
{
    truncate_chars(s, max)
}

} // verus!
