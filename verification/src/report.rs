//! The text of the output: the name of the file of a range, its header
//! row, and one row per prime, tab-separated, as bytes.
use crate::roots::nats;
use crate::worker::Record;
use vstd::prelude::*;

verus! {

/// The decimal digits of `n` in ASCII, without leading zeros.
pub open spec fn digits(n: nat) -> Seq<u8>
    decreases n,
{
    if n < 10 {
        seq![(48 + n) as u8]
    } else {
        digits(n / 10).push((48 + n % 10) as u8)
    }
}

/// The numbers of `s` in decimal, with a comma and a space between two of
/// them.
pub open spec fn items_text(s: Seq<nat>) -> Seq<u8>
    decreases s.len(),
{
    if s.len() == 0 {
        Seq::empty()
    } else if s.len() == 1 {
        digits(s[0])
    } else {
        items_text(s.drop_last()) + seq![44u8, 32u8] + digits(s.last())
    }
}

/// The numbers of `s` as a list in square brackets: `[2, 3]`.
pub open spec fn list_text(s: Seq<nat>) -> Seq<u8> {
    seq![91u8] + items_text(s) + seq![93u8]
}

/// The row of a prime `p` with its z-primitive roots `zprs`: the prime, a
/// tab, the list, a tab, the length of the list, a line feed.
pub open spec fn row_text(p: nat, zprs: Seq<nat>) -> Seq<u8> {
    digits(p) + seq![9u8] + list_text(zprs) + seq![9u8] + digits(zprs.len()) + seq![10u8]
}

/// The header row: the column names `p`, `zprs` and `n_zprs` with tabs
/// between them and a line feed behind.
pub open spec fn header_text() -> Seq<u8> {
    seq![112u8, 9, 122, 112, 114, 115, 9, 110, 95, 122, 112, 114, 115, 10]
}

/// The name of the file of the range from `start` to `stop`: `zprs_`, the
/// two bounds with an underscore between them, and `.tsv`.
pub open spec fn file_name_text(start: nat, stop: nat) -> Seq<u8> {
    seq![122u8, 112, 114, 115, 95] + digits(start) + seq![95u8] + digits(stop) + seq![
        46u8,
        116,
        115,
        118,
    ]
}

/// Appends the decimal digits of `n` to `out`.
pub fn push_decimal(out: &mut Vec<u8>, n: u64)
    ensures
        final(out)@ == old(out)@ + digits(n as nat),
    decreases n,
{
    if n >= 10 {
        push_decimal(out, n / 10);
    }
    let ghost before = out@;
    let digit: u8 = 48 + (n % 10) as u8;
    out.push(digit);
    proof {
        if n >= 10 {
            assert(out@ =~= old(out)@ + digits((n / 10) as nat).push(digit));
        } else {
            assert(out@ =~= old(out)@ + seq![digit]);
        }
    }
}

/// Appends the numbers of `list` to `out` as a list in square brackets.
pub fn push_list(out: &mut Vec<u8>, list: &Vec<u64>)
    ensures
        final(out)@ == old(out)@ + list_text(nats(list@)),
{
    out.push(91);
    let ghost s = nats(list@);
    let mut i: usize = 0;
    assert(s.take(0) =~= Seq::<nat>::empty());
    assert(out@ =~= old(out)@ + seq![91u8] + items_text(s.take(0)));
    while i < list.len()
        invariant
            i <= list.len(),
            s == nats(list@),
            out@ == old(out)@ + seq![91u8] + items_text(s.take(i as int)),
        decreases list.len() - i,
    {
        let ghost before = out@;
        let ghost sofar = s.take(i as int);
        let ghost next = s.take(i + 1);
        proof {
            assert(next.drop_last() =~= sofar);
            assert(next.last() == list@[i as int] as nat);
        }
        if i > 0 {
            out.push(44);
            out.push(32);
        }
        let ghost mid = out@;
        push_decimal(out, list[i]);
        proof {
            if i > 0 {
                assert(mid =~= before + seq![44u8, 32u8]);
                assert(out@ =~= old(out)@ + seq![91u8] + (items_text(sofar) + seq![44u8, 32u8]
                    + digits(next.last())));
            } else {
                assert(items_text(sofar) =~= Seq::<u8>::empty());
                assert(next[0] == next.last());
                assert(out@ =~= old(out)@ + seq![91u8] + digits(next.last()));
            }
        }
        i += 1;
    }
    assert(s.take(list@.len() as int) =~= s);
    out.push(93);
    assert(out@ =~= old(out)@ + list_text(s));
}

/// The row of a record.
pub fn render_row(rec: &Record) -> (row: Vec<u8>)
    ensures
        row@ == row_text(rec@.0, rec@.1),
{
    let mut row: Vec<u8> = Vec::new();
    push_decimal(&mut row, rec.p);
    row.push(9);
    push_list(&mut row, &rec.zprs);
    row.push(9);
    push_decimal(&mut row, rec.zprs.len() as u64);
    row.push(10);
    assert(row@ =~= row_text(rec@.0, rec@.1));
    row
}

/// The header row.
pub fn header() -> (row: Vec<u8>)
    ensures
        row@ == header_text(),
{
    let mut row: Vec<u8> = Vec::new();
    row.push(112);
    row.push(9);
    row.push(122);
    row.push(112);
    row.push(114);
    row.push(115);
    row.push(9);
    row.push(110);
    row.push(95);
    row.push(122);
    row.push(112);
    row.push(114);
    row.push(115);
    row.push(10);
    assert(row@ =~= header_text());
    row
}

/// The name of the file of the range from `start` to `stop`.
pub fn file_name(start: u64, stop: u64) -> (name: Vec<u8>)
    ensures
        name@ == file_name_text(start as nat, stop as nat),
{
    let mut name: Vec<u8> = Vec::new();
    name.push(122);
    name.push(112);
    name.push(114);
    name.push(115);
    name.push(95);
    push_decimal(&mut name, start);
    name.push(95);
    push_decimal(&mut name, stop);
    name.push(46);
    name.push(116);
    name.push(115);
    name.push(118);
    assert(name@ =~= file_name_text(start as nat, stop as nat));
    name
}

} // verus!
