//! What leaves the library for a file: a capture as one run of raw bytes, and
//! the values of several channels as rows of text.

use crate::port::block;
use vstd::prelude::*;

verus! {

/// The bytes of a run of raw samples, sample after sample.
pub open spec fn flattened(values: Seq<[u8; 4]>) -> Seq<u8> {
    Seq::new(4 * values.len(), |i: int| values[i / 4][i % 4])
}

/// The raw samples that a run of bytes holds, four bytes each; up to three
/// bytes at the end that make no sample are left out.
pub open spec fn gathered(bytes: Seq<u8>) -> Seq<[u8; 4]> {
    Seq::new((bytes.len() / 4) as nat, |k: int| block(bytes, k))
}

/// Lays raw samples out as one run of bytes, in order.
pub fn flatten(values: &Vec<[u8; 4]>) -> (bytes: Vec<u8>)
    ensures
        bytes@ == flattened(values@),
{
    let mut bytes: Vec<u8> = Vec::new();
    let mut k: usize = 0;
    while k < values.len()
        invariant
            k <= values.len(),
            bytes@ == flattened(values@.subrange(0, k as int)),
        decreases values.len() - k,
    {
        let raw = values[k];
        bytes.push(raw[0]);
        bytes.push(raw[1]);
        bytes.push(raw[2]);
        bytes.push(raw[3]);
        assert(bytes@ =~= flattened(values@.subrange(0, k + 1)));
        k += 1;
    }
    assert(values@.subrange(0, k as int) == values@);
    bytes
}

/// Cuts a run of bytes into raw samples, four bytes each. Bytes at the end
/// that make no whole sample are left out.
pub fn gather(bytes: &Vec<u8>) -> (values: Vec<[u8; 4]>)
    ensures
        values@ == gathered(bytes@),
{
    let count = bytes.len() / 4;
    let mut values: Vec<[u8; 4]> = Vec::new();
    let mut k: usize = 0;
    while k < count
        invariant
            k <= count,
            count == bytes.len() / 4,
            values@ == Seq::new(k as nat, |j: int| block(bytes@, j)),
        decreases count - k,
    {
        let raw = [bytes[4 * k], bytes[4 * k + 1], bytes[4 * k + 2], bytes[4 * k + 3]];
        assert(raw =~= block(bytes@, k as int));
        values.push(raw);
        assert(values@ =~= Seq::new((k + 1) as nat, |j: int| block(bytes@, j)));
        k += 1;
    }
    values
}

/// Raw samples that were laid out as bytes and cut up again are the samples
/// they were.
pub proof fn lemma_flatten_then_gather(values: Seq<[u8; 4]>)
    ensures
        gathered(flattened(values)) == values,
{
    let bytes = flattened(values);
    assert(gathered(bytes).len() == values.len());
    assert forall|k: int| 0 <= k < values.len() implies gathered(bytes)[k] == values[k] by {
        assert(block(bytes, k) =~= values[k]);
    }
    assert(gathered(bytes) =~= values);
}

/// The length of the longest column.
pub open spec fn depth(columns: Seq<Vec<String>>) -> nat
    decreases columns.len(),
{
    if columns.len() == 0 {
        0
    } else {
        let before = depth(columns.drop_last());
        if columns.last().len() > before {
            columns.last().len() as nat
        } else {
            before
        }
    }
}

/// What a column shows at `index`: its value there, or nothing where the
/// column is shorter.
pub open spec fn field(column: Vec<String>, index: int) -> Seq<char> {
    if 0 <= index < column.len() {
        column[index]@
    } else {
        Seq::empty()
    }
}

/// The row of the values at `index`: the field of every column in turn,
/// with a comma between one field and the next.
pub open spec fn row(columns: Seq<Vec<String>>, index: int) -> Seq<char>
    decreases columns.len(),
{
    if columns.len() == 0 {
        Seq::empty()
    } else if columns.len() == 1 {
        field(columns.last(), index)
    } else {
        row(columns.drop_last(), index) + seq![','] + field(columns.last(), index)
    }
}

fn longest(columns: &Vec<Vec<String>>) -> (most: usize)
    ensures
        most == depth(columns@),
{
    let mut most: usize = 0;
    let mut c: usize = 0;
    while c < columns.len()
        invariant
            c <= columns.len(),
            most == depth(columns@.subrange(0, c as int)),
        decreases columns.len() - c,
    {
        assert(columns@.subrange(0, c + 1).drop_last() =~= columns@.subrange(0, c as int));
        if columns[c].len() > most {
            most = columns[c].len();
        }
        c += 1;
    }
    assert(columns@.subrange(0, c as int) == columns@);
    most
}

fn row_at(columns: &Vec<Vec<String>>, index: usize) -> (text: String)
    ensures
        text@ == row(columns@, index as int),
{
    let mut text = String::new();
    let mut c: usize = 0;
    while c < columns.len()
        invariant
            c <= columns.len(),
            text@ == row(columns@.subrange(0, c as int), index as int),
        decreases columns.len() - c,
    {
        assert(columns@.subrange(0, c + 1).drop_last() =~= columns@.subrange(0, c as int));
        if c > 0 {
            proof {
                reveal_strlit(",");
            }
            text.append(",");
        }
        if index < columns[c].len() {
            text.append(columns[c][index].as_str());
        }
        assert(text@ =~= row(columns@.subrange(0, c + 1), index as int));
        c += 1;
    }
    assert(columns@.subrange(0, c as int) == columns@);
    text
}

/// Lines up the values of several channels by index, one row of text for
/// every index that any channel has, the newest first. In a row a comma
/// separates one channel's field from the next; a channel with no value at
/// that index leaves its field empty.
pub fn rows(columns: &Vec<Vec<String>>) -> (lines: Vec<String>)
    ensures
        lines.len() == depth(columns@),
        forall|i: int|
            0 <= i < lines.len() ==> (#[trigger] lines[i])@ == row(
                columns@,
                lines.len() - 1 - i,
            ),
{
    let most = longest(columns);
    let mut lines: Vec<String> = Vec::new();
    let mut i: usize = 0;
    while i < most
        invariant
            i <= most,
            lines.len() == i,
            forall|j: int| 0 <= j < i ==> (#[trigger] lines[j])@ == row(columns@, most - 1 - j),
        decreases most - i,
    {
        lines.push(row_at(columns, most - 1 - i));
        i += 1;
    }
    lines
}

} // verus!
