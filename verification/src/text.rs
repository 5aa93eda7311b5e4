//! Building the text of labels: column letters and decimal numerals.

use vstd::prelude::*;

verus! {

/// `String::push` appends one character to the end of the string.
pub assume_specification[ String::push ](s: &mut String, c: char)
    ensures
        final(s)@ == old(s)@.push(c),
;

/// The letter that names column `col`: `A` for 0, `B` for 1, and round again
/// after `Z`.
pub open spec fn column_letter(col: u32) -> char {
    ('A' as u8 + (col % 26) as u8) as char
}

/// The label of column `col`: its letter, once for columns 0 to 25, twice for
/// 26 to 51, and so on.
pub open spec fn column_label(col: u32) -> Seq<char> {
    Seq::new((col / 26 + 1) as nat, |i: int| column_letter(col))
}

/// The label of column `col`.
pub fn to_csv_col(col: u32) -> (label: String)
    ensures
        label@ == column_label(col),
        label@.len() == col / 26 + 1,
        forall|i: int| 0 <= i < label@.len() ==> label@[i] == column_letter(col),
{
    let letter: char = ('A' as u8 + ((col % 26) as u8)) as char;
    let n: u32 = col / 26 + 1;
    let mut label = String::new();
    let mut i: u32 = 0;
    while i < n
        invariant
            i <= n,
            n == col / 26 + 1,
            letter == column_letter(col),
            label@ == Seq::new(i as nat, |k: int| column_letter(col)),
        decreases n - i,
    {
        label.push(letter);
        i += 1;
    }
    label
}

/// The character of the decimal digit `d`.
pub open spec fn digit_char(d: nat) -> char {
    ('0' as u8 + d as u8) as char
}

/// The decimal numeral of `n`, without leading zeros.
pub open spec fn numeral(n: nat) -> Seq<char>
    decreases n,
{
    if n < 10 {
        seq![digit_char(n)]
    } else {
        numeral(n / 10).push(digit_char(n % 10))
    }
}

/// Appends the decimal numeral of `n` to `out`.
pub fn push_numeral(out: &mut String, n: u64)
    ensures
        final(out)@ == old(out)@ + numeral(n as nat),
    decreases n,
{
    if n >= 10 {
        push_numeral(out, n / 10);
    }
    let digit: char = ('0' as u8 + (n % 10) as u8) as char;
    out.push(digit);
    proof {
        if n >= 10 {
            assert(old(out)@ + numeral(n as nat) =~= (old(out)@ + numeral((n / 10) as nat)).push(
                digit_char((n % 10) as nat),
            ));
        } else {
            assert(old(out)@ + numeral(n as nat) =~= old(out)@.push(digit_char(n as nat)));
        }
    }
}

} // verus!
