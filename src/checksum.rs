//! The modulo-10 checksum that closes each line of a two-line element set.

use vstd::prelude::*;
use vstd::string::*;

verus! {

/// Number of columns that the checksum covers.
pub const CHECKED_COLUMNS: usize = 68;

/// Length of a complete element line, checksum digit included.
pub const LINE_LENGTH: usize = 69;

pub open spec fn is_digit(b: u8) -> bool {
    48 <= b <= 57
}

/// What one character adds to the checksum: its value for a digit, one for a
/// minus sign, nothing for anything else.
pub open spec fn checksum_weight(b: u8) -> nat {
    if is_digit(b) {
        (b - 48) as nat
    } else if b == 45 {
        1
    } else {
        0
    }
}

/// Sum of the weights of all characters of `s`.
pub open spec fn weight_sum(s: Seq<u8>) -> nat
    decreases s.len(),
{
    if s.len() == 0 {
        0
    } else {
        weight_sum(s.drop_last()) + checksum_weight(s.last())
    }
}

/// The checksum of a line: the weight sum of its first 68 columns, modulo 10.
pub open spec fn checksum_of(line: Seq<u8>) -> nat {
    weight_sum(line.subrange(0, CHECKED_COLUMNS as int)) % 10
}

/// A line carries a valid checksum when it is exactly 69 columns long and its
/// last column is the digit of its checksum.
pub open spec fn checksum_valid(line: Seq<u8>) -> bool {
    &&& line.len() == LINE_LENGTH
    &&& is_digit(line[68])
    &&& (line[68] - 48) as nat == checksum_of(line)
}

/// A line whose checksum holds fails validation once its checksum column is
/// changed to any other character: the checksum covers only the columns before.
pub proof fn lemma_altered_checksum_fails(line: Seq<u8>, c: u8)
    requires
        checksum_valid(line),
        c != line[68],
    ensures
        !checksum_valid(line.update(68, c)),
{
    let altered = line.update(68, c);
    assert(altered.subrange(0, CHECKED_COLUMNS as int) == line.subrange(0, CHECKED_COLUMNS as int));
}

proof fn lemma_weight_sum_bound(s: Seq<u8>)
    ensures
        weight_sum(s) <= 9 * s.len(),
    decreases s.len(),
{
    if s.len() > 0 {
        lemma_weight_sum_bound(s.drop_last());
    }
}

fn bytes_checksum_digit(b: &[u8]) -> (r: Option<u8>)
    ensures
        b@.len() < CHECKED_COLUMNS ==> r is None,
        b@.len() >= CHECKED_COLUMNS ==> r == Some(checksum_of(b@) as u8),
{
    if b.len() < CHECKED_COLUMNS {
        return None;
    }
    let mut sum: u32 = 0;
    let mut i: usize = 0;
    while i < CHECKED_COLUMNS
        invariant
            b@.len() >= CHECKED_COLUMNS,
            i <= CHECKED_COLUMNS,
            sum == weight_sum(b@.subrange(0, i as int)),
        decreases CHECKED_COLUMNS - i,
    {
        proof {
            lemma_weight_sum_bound(b@.subrange(0, i as int));
            assert(b@.subrange(0, i as int + 1).drop_last() == b@.subrange(0, i as int));
        }
        let c = b[i];
        if 48 <= c && c <= 57 {
            sum = sum + (c - 48) as u32;
        } else if c == 45 {
            sum = sum + 1;
        }
        i = i + 1;
    }
    Some((sum % 10) as u8)
}

/// Tells whether a line given as bytes carries a valid checksum.
pub(crate) fn bytes_checksum_valid(b: &[u8]) -> (r: bool)
    ensures
        r == checksum_valid(b@),
{
    if b.len() != LINE_LENGTH {
        return false;
    }
    let last = b[68];
    if last < 48 || last > 57 {
        return false;
    }
    match bytes_checksum_digit(b) {
        Some(d) => d == last - 48,
        None => false,
    }
}

/// Computes the checksum digit of a line; `None` when the line is shorter than
/// the 68 columns that the checksum covers.
pub fn checksum_digit(line: &str) -> (r: Option<u8>)
    ensures
        line.spec_bytes().len() < CHECKED_COLUMNS ==> r is None,
        line.spec_bytes().len() >= CHECKED_COLUMNS ==> r == Some(checksum_of(line.spec_bytes()) as u8),
{
    bytes_checksum_digit(line.as_bytes())
}

/// Validates a line: true exactly when it is 69 columns long and its last
/// column holds the digit of its checksum.
pub fn tle_checksum(line: &str) -> (r: bool)
    ensures
        r == checksum_valid(line.spec_bytes()),
{
    bytes_checksum_valid(line.as_bytes())
}

} // verus!
