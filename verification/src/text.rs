//! Plain-text tables of the book, laid out in fixed-width columns.
use vstd::prelude::*;

verus! {

/// The character of the decimal digit `d`.
pub open spec fn digit_char(d: nat) -> char {
    if d == 0 { '0' }
    else if d == 1 { '1' }
    else if d == 2 { '2' }
    else if d == 3 { '3' }
    else if d == 4 { '4' }
    else if d == 5 { '5' }
    else if d == 6 { '6' }
    else if d == 7 { '7' }
    else if d == 8 { '8' }
    else { '9' }
}

/// The decimal digits of `n`, most significant first, without leading zeros.
pub open spec fn decimal(n: nat) -> Seq<char>
    decreases n,
{
    if n < 10 {
        seq![digit_char(n)]
    } else {
        decimal(n / 10).push(digit_char(n % 10))
    }
}

/// `n` spaces.
pub open spec fn spaces(n: nat) -> Seq<char> {
    Seq::new(n, |i: int| ' ')
}

/// `s` right-aligned in a column of width `w`.
pub open spec fn pad_left(s: Seq<char>, w: nat) -> Seq<char> {
    if s.len() < w { spaces((w - s.len()) as nat) + s } else { s }
}

/// `s` left-aligned in a column of width `w`.
pub open spec fn pad_right(s: Seq<char>, w: nat) -> Seq<char> {
    if s.len() < w { s + spaces((w - s.len()) as nat) } else { s }
}

/// The character of the decimal digit `d`.
pub fn digit(d: u64) -> (c: char)
    requires
        d < 10,
    ensures
        c == digit_char(d as nat),
{
    match d {
        0 => '0',
        1 => '1',
        2 => '2',
        3 => '3',
        4 => '4',
        5 => '5',
        6 => '6',
        7 => '7',
        8 => '8',
        _ => '9',
    }
}

/// The decimal digits of `n`.
pub fn decimal_of(n: u64) -> (s: Vec<char>)
    ensures
        s@ == decimal(n as nat),
    decreases n,
{
    if n < 10 {
        let mut s: Vec<char> = Vec::new();
        s.push(digit(n));
        proof {
            assert(s@ =~= seq![digit_char(n as nat)]);
        }
        s
    } else {
        let mut s = decimal_of(n / 10);
        s.push(digit(n % 10));
        s
    }
}

/// Appends `s` to `out`.
pub fn push_all(out: &mut Vec<char>, s: &Vec<char>)
    ensures
        final(out)@ == old(out)@ + s@,
{
    let ghost start = out@;
    let mut i: usize = 0;
    while i < s.len()
        invariant
            i <= s@.len(),
            out@ == start + s@.take(i as int),
        decreases s@.len() - i,
    {
        out.push(s[i]);
        i += 1;
        proof {
            assert(s@.take(i as int) =~= s@.take(i - 1).push(s@[i - 1]));
        }
    }
    proof {
        assert(s@.take(i as int) =~= s@);
    }
}

/// Appends `n` spaces to `out`.
pub fn push_spaces(out: &mut Vec<char>, n: usize)
    ensures
        final(out)@ == old(out)@ + spaces(n as nat),
{
    let ghost start = out@;
    let mut i: usize = 0;
    while i < n
        invariant
            i <= n,
            out@ == start + spaces(i as nat),
        decreases n - i,
    {
        out.push(' ');
        i += 1;
        proof {
            assert(spaces(i as nat) =~= spaces((i - 1) as nat).push(' '));
        }
    }
}

/// Appends `s` to `out`, right-aligned in a column of width `w` when
/// `right` holds and left-aligned otherwise.
pub fn push_padded(out: &mut Vec<char>, s: &Vec<char>, w: usize, right: bool)
    ensures
        final(out)@ == old(out)@ + (if right { pad_left(s@, w as nat) } else { pad_right(s@, w as nat) }),
{
    let ghost start = out@;
    if s.len() < w {
        if right {
            push_spaces(out, w - s.len());
            push_all(out, s);
            proof {
                assert(out@ =~= start + pad_left(s@, w as nat));
            }
        } else {
            push_all(out, s);
            push_spaces(out, w - s.len());
            proof {
                assert(out@ =~= start + pad_right(s@, w as nat));
            }
        }
    } else {
        push_all(out, s);
    }
}

/// The text of `chars` (`String::from_iter`, which collects the characters
/// in order).
#[verifier::external_body]
pub fn text_of(chars: Vec<char>) -> (s: String)
    ensures
        s@ == chars@,
{
    String::from_iter(chars)
}

/// The two cells of one side of a table row: the price right-aligned and the
/// quantity left-aligned, or a dash and a zero where the side has no level.
pub open spec fn cell_text(label: Seq<char>, level: Option<(u64, u64)>) -> Seq<char> {
    let (p, q) = match level {
        Some(l) => (decimal(l.0 as nat), decimal(l.1 as nat)),
        None => (seq!['-'], seq!['0']),
    };
    label + pad_left(p, 8) + seq![' ', '#'] + pad_right(q, 8)
}

/// One row of a table: an ask level beside a bid level.
pub open spec fn row_text(ask: Option<(u64, u64)>, bid: Option<(u64, u64)>) -> Seq<char> {
    cell_text(seq!['a', 's', 'k', ':', ' '], ask) + cell_text(seq![' ', 'b', 'i', 'd', ':', ' '], bid)
}

/// The `i`-th entry of `cells`, if there is one.
pub open spec fn cell(cells: Seq<(u64, u64)>, i: int) -> Option<(u64, u64)> {
    if 0 <= i < cells.len() { Some(cells[i]) } else { None }
}

/// The first `n` rows of a table of `asks` beside `bids`, each ended by a
/// newline.
pub open spec fn table_rows(asks: Seq<(u64, u64)>, bids: Seq<(u64, u64)>, n: nat) -> Seq<char>
    decreases n,
{
    if n == 0 {
        seq![]
    } else {
        table_rows(asks, bids, (n - 1) as nat) + row_text(cell(asks, n - 1), cell(bids, n - 1)) + seq!['\n']
    }
}

/// The number of rows of a table of `asks` beside `bids`.
pub open spec fn row_count(asks: Seq<(u64, u64)>, bids: Seq<(u64, u64)>) -> nat {
    if asks.len() < bids.len() { bids.len() } else { asks.len() }
}

fn push_cell(out: &mut Vec<char>, level: Option<(u64, u64)>)
    ensures
        final(out)@ == old(out)@ + cell_text(seq![], level),
{
    let ghost start = out@;
    let (p, q) = match level {
        Some(l) => (decimal_of(l.0), decimal_of(l.1)),
        None => (vec!['-'], vec!['0']),
    };
    push_padded(out, &p, 8, true);
    out.push(' ');
    out.push('#');
    push_padded(out, &q, 8, false);
    proof {
        let (ps, qs) = match level {
            Some(l) => (decimal(l.0 as nat), decimal(l.1 as nat)),
            None => (seq!['-'], seq!['0']),
        };
        assert(p@ == ps);
        assert(q@ == qs);
        assert(out@ =~= start + cell_text(seq![], level));
    }
}

/// Appends the row of `ask` beside `bid` to `out`.
pub fn push_row(out: &mut Vec<char>, ask: Option<(u64, u64)>, bid: Option<(u64, u64)>)
    ensures
        final(out)@ == old(out)@ + row_text(ask, bid),
{
    let ghost start = out@;
    out.push('a');
    out.push('s');
    out.push('k');
    out.push(':');
    out.push(' ');
    let ghost mid1 = out@;
    push_cell(out, ask);
    out.push(' ');
    out.push('b');
    out.push('i');
    out.push('d');
    out.push(':');
    out.push(' ');
    let ghost mid2 = out@;
    push_cell(out, bid);
    proof {
        assert(cell_text(seq!['a', 's', 'k', ':', ' '], ask) =~= seq!['a', 's', 'k', ':', ' '] + cell_text(seq![], ask));
        assert(cell_text(seq![' ', 'b', 'i', 'd', ':', ' '], bid) =~= seq![' ', 'b', 'i', 'd', ':', ' '] + cell_text(seq![], bid));
        assert(out@ =~= start + row_text(ask, bid));
    }
}

/// The cell of `cells` at `i`, if there is one.
pub fn cell_at(cells: &Vec<(u64, u64)>, i: usize) -> (c: Option<(u64, u64)>)
    ensures
        c == cell(cells@, i as int),
{
    if i < cells.len() { Some(cells[i]) } else { None }
}

/// The rows of a table of `asks` beside `bids`, each ended by a newline.
pub fn table(asks: &Vec<(u64, u64)>, bids: &Vec<(u64, u64)>) -> (out: Vec<char>)
    ensures
        out@ == table_rows(asks@, bids@, row_count(asks@, bids@)),
{
    let n = if asks.len() < bids.len() { bids.len() } else { asks.len() };
    let mut out: Vec<char> = Vec::new();
    let mut i: usize = 0;
    while i < n
        invariant
            i <= n,
            n == row_count(asks@, bids@),
            out@ == table_rows(asks@, bids@, i as nat),
        decreases n - i,
    {
        push_row(&mut out, cell_at(asks, i), cell_at(bids, i));
        out.push('\n');
        i += 1;
    }
    out
}

} // verus!
