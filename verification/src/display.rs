//! What a front end needs to lay the board out in columns and to turn a key
//! into a direction.

use vstd::prelude::*;
use vstd::arithmetic::power::{lemma_pow_increases, pow};
use crate::dir::Dir;

verus! {

/// The number of decimal digits of `num`; 0 has none.
pub open spec fn digits_of(num: nat) -> nat
    decreases num,
{
    if num == 0 {
        0
    } else {
        1 + digits_of(num / 10)
    }
}

/// The number of digits of `num` is the least exponent `e` for which `num`
/// is below `10^e`.
pub proof fn lemma_digits_of(num: nat)
    ensures
        num < pow(10, digits_of(num)),
        digits_of(num) > 0 ==> pow(10, (digits_of(num) - 1) as nat) <= num,
    decreases num,
{
    reveal(pow);
    if num != 0 {
        lemma_digits_of(num / 10);
    }
}

/// The number of decimal digits of `num`; 0 has none.
pub fn get_digits(num: u32) -> (count: u32)
    ensures
        count == digits_of(num as nat),
        num < pow(10, count as nat),
        count > 0 ==> pow(10, (count - 1) as nat) <= num,
{
    let mut n: u32 = num;
    let mut cnt: u32 = 0;
    proof {
        lemma_digits_of(num as nat);
        let digits = digits_of(num as nat);
        if digits > 10 {
            lemma_pow_increases(10, 10, (digits - 1) as nat);
            reveal_with_fuel(pow, 11);
            assert(pow(10, 10) == 10_000_000_000);
        }
    }
    while n != 0
        invariant
            cnt + digits_of(n as nat) == digits_of(num as nat),
            digits_of(num as nat) <= 10,
        decreases n,
    {
        n = n / 10;
        cnt = cnt + 1;
    }
    cnt
}

/// The width in which a front end prints each cell so that the columns
/// line up: the number of digits of the largest value seen where that is 2,
/// 3 or 4, and no padding otherwise.
pub fn cell_width(max_num: u32) -> (width: usize)
    ensures
        width == if 2 <= digits_of(max_num as nat) <= 4 {
            digits_of(max_num as nat)
        } else {
            0
        },
{
    let digits = get_digits(max_num);
    match digits {
        2 => 2,
        3 => 3,
        4 => 4,
        _ => 0,
    }
}

/// Whether the cell with flat index `index` is the last of its row, on a
/// grid of side length `size`.
pub fn ends_row(index: usize, size: usize) -> (ends: bool)
    requires
        size >= 1,
        index < usize::MAX,
    ensures
        ends == ((index + 1) % (size as int) == 0),
{
    (index + 1) % size == 0
}

/// Whether a front end leaves a blank line between the rows: it does once
/// the largest value seen has three digits.
pub fn rows_spaced(max_num: u32) -> (spaced: bool)
    ensures
        spaced == (digits_of(max_num as nat) >= 3),
{
    proof {
        reveal_with_fuel(digits_of, 4);
    }
    max_num > 99
}

/// What a key stands for.
pub open spec fn key_dir(key: char) -> Option<Dir> {
    if key == 'h' {
        Some(Dir::Left)
    } else if key == 'j' {
        Some(Dir::Down)
    } else if key == 'k' {
        Some(Dir::Up)
    } else if key == 'l' {
        Some(Dir::Right)
    } else {
        None
    }
}

/// The direction that a key stands for: `h` left, `j` down, `k` up, `l`
/// right. Any other key stands for none.
pub fn dir_for_key(key: char) -> (dir: Option<Dir>)
    ensures
        dir == key_dir(key),
{
    match key {
        'h' => Some(Dir::Left),
        'j' => Some(Dir::Down),
        'k' => Some(Dir::Up),
        'l' => Some(Dir::Right),
        _ => None,
    }
}

} // verus!
