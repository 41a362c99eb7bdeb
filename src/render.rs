//! Plain-text layout of listed issues: column widths and CSV fields.
use crate::model::texts;
use crate::query::{IssueData, ListResult};
use crate::text::{chars_of, string_of};
use vstd::prelude::*;

verus! {

/// The width of column `c` over a header and rows: its widest value, in
/// characters, and two more for spacing.
pub open spec fn column_width(header: Seq<char>, rows: Seq<Seq<Seq<char>>>, c: int) -> int
    decreases rows.len(),
{
    if rows.len() == 0 {
        header.len() + 2int
    } else {
        let w = column_width(header, rows.drop_last(), c);
        let v: int = if 0 <= c < rows.last().len() {
            rows.last()[c].len() + 2int
        } else {
            2
        };
        if v > w {
            v
        } else {
            w
        }
    }
}

pub open spec fn rows_of(issues: Seq<IssueData>) -> Seq<Seq<Seq<char>>> {
    issues.map_values(|i: IssueData| texts(i.data@))
}

/// The width of each column of a listing.
pub fn calculate_column_widths(result: &ListResult) -> (r: Vec<usize>)
    requires
        forall|c: int| 0 <= c < result.columns@.len() ==> result.columns@[c]@.len() < usize::MAX - 2,
        forall|i: int, c: int|
            0 <= i < result.issues@.len() && 0 <= c < result.issues@[i].data@.len()
                ==> (#[trigger] result.issues@[i].data@[c])@.len() < usize::MAX - 2,
    ensures
        r@.len() == result.columns@.len(),
        forall|c: int|
            0 <= c < r@.len() ==> r@[c] as int == column_width(
                result.columns@[c]@,
                rows_of(result.issues@),
                c,
            ),
{
    let ghost rows = rows_of(result.issues@);
    let mut r: Vec<usize> = Vec::new();
    let mut c: usize = 0;
    while c < result.columns.len()
        invariant
            c <= result.columns@.len(),
            rows == rows_of(result.issues@),
            r@.len() == c,
            forall|k: int| 0 <= k < c ==> r@[k] as int == column_width(result.columns@[k]@, rows, k),
            forall|k: int| 0 <= k < result.columns@.len() ==> result.columns@[k]@.len() < usize::MAX - 2,
            forall|i: int, k: int|
                0 <= i < result.issues@.len() && 0 <= k < result.issues@[i].data@.len()
                    ==> (#[trigger] result.issues@[i].data@[k])@.len() < usize::MAX - 2,
        decreases result.columns@.len() - c,
    {
        let header = result.columns[c].as_str().unicode_len();
        let mut w: usize = header + 2;
        let mut i: usize = 0;
        assert(rows.subrange(0, 0).len() == 0);
        while i < result.issues.len()
            invariant
                c < result.columns@.len(),
                i <= result.issues@.len(),
                rows == rows_of(result.issues@),
                header == result.columns@[c as int]@.len(),
                w as int == column_width(result.columns@[c as int]@, rows.subrange(0, i as int), c as int),
                forall|i2: int, k: int|
                    0 <= i2 < result.issues@.len() && 0 <= k < result.issues@[i2].data@.len()
                        ==> (#[trigger] result.issues@[i2].data@[k])@.len() < usize::MAX - 2,
            decreases result.issues@.len() - i,
        {
            let ghost p = rows.subrange(0, i + 1);
            assert(p.drop_last() =~= rows.subrange(0, i as int));
            assert(p.last() == texts(result.issues@[i as int].data@));
            let data = &result.issues[i].data;
            let v: usize = if c < data.len() {
                data[c].as_str().unicode_len() + 2
            } else {
                2
            };
            if v > w {
                w = v;
            }
            i = i + 1;
        }
        assert(rows.subrange(0, i as int) =~= rows);
        r.push(w);
        c = c + 1;
    }
    r
}

/// A value as a CSV field: quoted, then the separator.
pub open spec fn csv_field(value: Seq<char>, separator: char) -> Seq<char> {
    seq!['"'] + value + seq!['"', separator]
}

pub fn to_csv_field(value: &str, separator: char) -> (r: String)
    ensures
        r@ == csv_field(value@, separator),
{
    let mut v: Vec<char> = Vec::new();
    v.push('"');
    let cs = chars_of(value);
    let mut i: usize = 0;
    while i < cs.len()
        invariant
            i <= cs@.len(),
            v@ == seq!['"'] + cs@.subrange(0, i as int),
        decreases cs@.len() - i,
    {
        v.push(cs[i]);
        i = i + 1;
        assert(v@ =~= seq!['"'] + cs@.subrange(0, i as int));
    }
    v.push('"');
    v.push(separator);
    assert(cs@.subrange(0, i as int) =~= value@);
    assert(v@ =~= csv_field(value@, separator));
    string_of(&v)
}

} // verus!
