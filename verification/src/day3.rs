//! Rucksack reorganization: each line is a string of item letters. An item is
//! encoded as one bit of a `u64` mask, indexed by its priority minus one
//! (`a..=z` are priorities 1 to 26, `A..=Z` are 27 to 52). The first half
//! scores the one item shared by the two halves of each line; the second half
//! scores the one badge item shared by each group of three lines.

use vstd::prelude::*;

use crate::util::{lines_bytes, Half, ParseError, Parser, MAX_LINES};
use vstd::arithmetic::power2::{lemma2_to64, lemma2_to64_rest, lemma_pow2_unfold, pow2};
use vstd::std_specs::bits::{axiom_u64_trailing_zeros, u64_trailing_zeros};
use vstd::string::StringSliceAdditionalSpecFns;

verus! {

/// An item letter: a lower- or upper-case ASCII letter.
pub open spec fn valid_item(b: u8) -> bool {
    (97 <= b <= 122) || (65 <= b <= 90)
}

/// The bit position an item letter occupies in a mask: its priority minus one.
pub open spec fn item_index(b: u8) -> u64 {
    if 97 <= b <= 122 {
        (b - 97) as u64
    } else {
        (b - 65 + 26) as u64
    }
}

/// The one-bit mask of a valid item letter; invalid bytes contribute nothing.
pub open spec fn item_bit(b: u8) -> u64 {
    if valid_item(b) {
        1u64 << item_index(b)
    } else {
        0u64
    }
}

pub open spec fn all_valid_items(s: Seq<u8>) -> bool {
    forall|i: int| 0 <= i < s.len() ==> valid_item(#[trigger] s[i])
}

/// The mask of every item letter present in `s`.
pub open spec fn item_mask(s: Seq<u8>) -> u64
    decreases s.len(),
{
    if s.len() == 0 {
        0u64
    } else {
        item_mask(s.drop_last()) | item_bit(s.last())
    }
}

/// What [`encode`] returns on a line with byte view `s`.
pub open spec fn encode_spec(s: Seq<u8>) -> Result<u64, ParseError> {
    if all_valid_items(s) {
        Ok(item_mask(s))
    } else {
        Err(ParseError::UnexpectedCharacter)
    }
}

/// The number of set bits of `x`.
pub open spec fn ones(x: u64) -> nat
    decreases x,
{
    if x == 0 {
        0
    } else {
        ((x % 2) + ones(x / 2)) as nat
    }
}

fn encode_bytes(items: &[u8]) -> (r: Result<u64, ParseError>)
    ensures
        r == encode_spec(items@),
{
    let n = items.len();
    let mut mask: u64 = 0;
    let mut i: usize = 0;
    while i < n
        invariant
            n == items@.len(),
            i <= n,
            all_valid_items(items@.take(i as int)),
            mask == item_mask(items@.take(i as int)),
        decreases n - i,
    {
        let b = items[i];
        let shift: u64;
        if 97 <= b && b <= 122 {
            shift = (b - 97) as u64;
        } else if 65 <= b && b <= 90 {
            shift = ((b - 65) + 26) as u64;
        } else {
            proof {
                assert(!valid_item(items@[i as int]));
            }
            return Err(ParseError::UnexpectedCharacter);
        }
        proof {
            assert(shift == item_index(items@[i as int]));
            assert(items@.take(i + 1).drop_last() =~= items@.take(i as int));
            assert(items@.take(i + 1).last() == items@[i as int]);
            assert(forall|k: int|
                0 <= k < i + 1 ==> valid_item(#[trigger] items@.take(i + 1)[k]));
        }
        mask = mask | (1u64 << shift);
        i = i + 1;
    }
    proof {
        assert(items@.take(n as int) =~= items@);
    }
    Ok(mask)
}

/// Transform a sequence of items into a bit mask encoding present items at
/// the bit position given by their priority.
pub fn encode(items: &str) -> (r: Result<u64, ParseError>)
    ensures
        r == encode_spec(items.spec_bytes()),
{
    encode_bytes(items.as_bytes())
}

/// The number of set bits of `x`, counted bit by bit.
pub fn count_set_bits(x: u64) -> (r: u32)
    ensures
        r == ones(x),
{
    let mut acc: u32 = 0;
    let mut y: u64 = x;
    let mut i: u32 = 0;
    proof {
        lemma2_to64();
        lemma2_to64_rest();
    }
    while i < 64
        invariant
            i <= 64,
            acc <= i,
            acc + ones(y) == ones(x),
            y < pow2((64 - i) as nat),
        decreases 64 - i,
    {
        proof {
            lemma_pow2_unfold((64 - i) as nat);
        }
        acc = acc + (y % 2) as u32;
        y = y / 2;
        i = i + 1;
    }
    acc
}

/// The priority of the single item encoded by a one-bit mask: the bit's
/// position plus one.
pub fn index_to_priority(index: u64) -> (r: u32)
    ensures
        r == u64_trailing_zeros(index) + 1,
{
    proof {
        axiom_u64_trailing_zeros(index);
    }
    index.trailing_zeros() + 1
}

/// What [`find_duplicated_item`] returns on a line with byte view `s`.
pub open spec fn duplicate_priority_spec(s: Seq<u8>) -> Result<u32, ParseError> {
    if s.len() % 2 != 0 {
        Err(ParseError::OddLineLength)
    } else if !all_valid_items(s) {
        Err(ParseError::UnexpectedCharacter)
    } else {
        let dup = item_mask(s.take((s.len() / 2) as int)) & item_mask(s.skip((s.len() / 2) as int));
        if ones(dup) != 1 {
            Err(ParseError::NoSingleDuplicate)
        } else {
            Ok((u64_trailing_zeros(dup) + 1) as u32)
        }
    }
}

/// The priority of the one item that the two halves of the line share.
pub fn find_duplicated_item(line: &str) -> (r: Result<u32, ParseError>)
    ensures
        r == duplicate_priority_spec(line.spec_bytes()),
{
    let bytes = line.as_bytes();
    let n = bytes.len();
    if n % 2 != 0 {
        return Err(ParseError::OddLineLength);
    }
    let midpoint = n / 2;
    let lhs = match encode_bytes(&bytes[0..midpoint]) {
        Ok(m) => m,
        Err(e) => {
            proof {
                let s = line.spec_bytes();
                let sub = s.subrange(0, midpoint as int);
                let k = choose|k: int| 0 <= k < sub.len() && !valid_item(sub[k]);
                assert(s[k] == sub[k]);
                assert(!all_valid_items(s));
            }
            return Err(e);
        },
    };
    let rhs = match encode_bytes(&bytes[midpoint..n]) {
        Ok(m) => m,
        Err(e) => {
            proof {
                let s = line.spec_bytes();
                let sub = s.subrange(midpoint as int, n as int);
                let k = choose|k: int| 0 <= k < sub.len() && !valid_item(sub[k]);
                assert(s[midpoint + k] == sub[k]);
                assert(!all_valid_items(s));
            }
            return Err(e);
        },
    };
    proof {
        let s = line.spec_bytes();
        assert forall|k: int| 0 <= k < s.len() implies valid_item(#[trigger] s[k]) by {
            if k < midpoint {
                assert(s.subrange(0, midpoint as int)[k] == s[k]);
            } else {
                assert(s.subrange(midpoint as int, n as int)[k - midpoint] == s[k]);
            }
        }
        assert(s.take((s.len() / 2) as int) =~= s.subrange(0, midpoint as int));
        assert(s.skip((s.len() / 2) as int) =~= s.subrange(midpoint as int, n as int));
    }
    let dup_index = lhs & rhs;
    if count_set_bits(dup_index) != 1 {
        return Err(ParseError::NoSingleDuplicate);
    }
    Ok(index_to_priority(dup_index))
}

/// What the first half computes over the byte views of the input lines: the
/// sum of every line's duplicate priority, or the first line's error.
pub open spec fn first_half_spec(ls: Seq<Seq<u8>>) -> Result<int, ParseError>
    decreases ls.len(),
{
    if ls.len() == 0 {
        Ok(0)
    } else {
        match duplicate_priority_spec(ls[0]) {
            Err(e) => Err(e),
            Ok(p) => match first_half_spec(ls.drop_first()) {
                Err(e) => Err(e),
                Ok(t) => Ok(p + t),
            },
        }
    }
}

proof fn lemma_first_half_bound(ls: Seq<Seq<u8>>)
    ensures
        first_half_spec(ls) matches Ok(t) ==> 0 <= t <= 65 * ls.len(),
    decreases ls.len(),
{
    if ls.len() > 0 {
        lemma_first_half_bound(ls.drop_first());
        if duplicate_priority_spec(ls[0]) matches Ok(p) {
            let s = ls[0];
            let dup = item_mask(s.take((s.len() / 2) as int)) & item_mask(
                s.skip((s.len() / 2) as int),
            );
            axiom_u64_trailing_zeros(dup);
        }
    }
}

/// Sum of the duplicate priorities of all lines.
pub fn solve_first_half(lines: &Vec<String>) -> (r: Result<u32, ParseError>)
    requires
        lines@.len() <= MAX_LINES,
    ensures
        match first_half_spec(lines_bytes(lines@)) {
            Ok(t) => r == Ok::<u32, ParseError>(t as u32),
            Err(e) => r == Err::<u32, ParseError>(e),
        },
{
    let ghost lb = lines_bytes(lines@);
    proof {
        assert(lb.skip(0) =~= lb);
    }
    let mut total: u32 = 0;
    let mut i: usize = 0;
    while i < lines.len()
        invariant
            lb == lines_bytes(lines@),
            lb.len() == lines@.len(),
            lines@.len() <= MAX_LINES,
            i <= lines@.len(),
            total <= 65 * i,
            match first_half_spec(lb.skip(i as int)) {
                Ok(t) => first_half_spec(lb) == Ok::<int, ParseError>(total + t),
                Err(e) => first_half_spec(lb) == Err::<int, ParseError>(e),
            },
        decreases lines@.len() - i,
    {
        let line = &lines[i];
        proof {
            assert(lb.skip(i as int)[0] == lb[i as int]);
            assert(lb.skip(i as int).drop_first() =~= lb.skip(i + 1));
        }
        let p = match find_duplicated_item(line.as_str()) {
            Ok(p) => p,
            Err(e) => {
                return Err(e);
            },
        };
        proof {
            lemma_first_half_bound(lb.skip(i + 1));
            axiom_u64_trailing_zeros(
                item_mask(lb[i as int].take((lb[i as int].len() / 2) as int)) & item_mask(
                    lb[i as int].skip((lb[i as int].len() / 2) as int),
                ),
            );
        }
        total = total + p;
        i = i + 1;
    }
    proof {
        assert(lb.skip(lines@.len() as int) =~= Seq::<Seq<u8>>::empty());
    }
    Ok(total)
}

/// What [`next_line`] returns: the encoding of line `i`, or an error if the
/// input has no line `i`.
pub open spec fn next_line_spec(ls: Seq<Seq<u8>>, i: int) -> Result<u64, ParseError> {
    if i >= ls.len() {
        Err(ParseError::IncompleteGroup)
    } else {
        encode_spec(ls[i])
    }
}

/// The item mask of line `i`, where a missing line means the last group of
/// three is incomplete.
pub fn next_line(lines: &Vec<String>, i: usize) -> (r: Result<u64, ParseError>)
    ensures
        r == next_line_spec(lines_bytes(lines@), i as int),
{
    if i >= lines.len() {
        return Err(ParseError::IncompleteGroup);
    }
    encode(lines[i].as_str())
}

/// What the second half computes over the byte views of the input lines: the
/// sum over each group of three lines of the priority of the group's one
/// shared badge item, or the first error.
pub open spec fn second_half_spec(ls: Seq<Seq<u8>>) -> Result<int, ParseError>
    decreases ls.len(),
{
    if ls.len() == 0 {
        Ok(0)
    } else {
        match encode_spec(ls[0]) {
            Err(e) => Err(e),
            Ok(m0) => if ls.len() < 2 {
                Err(ParseError::IncompleteGroup)
            } else {
                match encode_spec(ls[1]) {
                    Err(e) => Err(e),
                    Ok(m1) => if ls.len() < 3 {
                        Err(ParseError::IncompleteGroup)
                    } else {
                        match encode_spec(ls[2]) {
                            Err(e) => Err(e),
                            Ok(m2) => {
                                let badge = m0 & m1 & m2;
                                if ones(badge) != 1 {
                                    Err(ParseError::BadgeNotFound)
                                } else {
                                    match second_half_spec(ls.skip(3)) {
                                        Err(e) => Err(e),
                                        Ok(t) => Ok(t + u64_trailing_zeros(badge) + 1),
                                    }
                                }
                            },
                        }
                    },
                }
            },
        }
    }
}

proof fn lemma_second_half_bound(ls: Seq<Seq<u8>>)
    ensures
        second_half_spec(ls) matches Ok(t) ==> 0 <= t <= 65 * ls.len(),
    decreases ls.len(),
{
    if ls.len() >= 3 {
        lemma_second_half_bound(ls.skip(3));
        match (encode_spec(ls[0]), encode_spec(ls[1]), encode_spec(ls[2])) {
            (Ok(m0), Ok(m1), Ok(m2)) => {
                axiom_u64_trailing_zeros(m0 & m1 & m2);
            },
            _ => {},
        }
    }
}

/// Sum of the badge priorities of all groups of three lines.
pub fn solve_second_half(lines: &Vec<String>) -> (r: Result<u32, ParseError>)
    requires
        lines@.len() <= MAX_LINES,
    ensures
        match second_half_spec(lines_bytes(lines@)) {
            Ok(t) => r == Ok::<u32, ParseError>(t as u32),
            Err(e) => r == Err::<u32, ParseError>(e),
        },
{
    let ghost lb = lines_bytes(lines@);
    proof {
        assert(lb.skip(0) =~= lb);
    }
    let mut total: u32 = 0;
    let mut i: usize = 0;
    while i < lines.len()
        invariant
            lb == lines_bytes(lines@),
            lb.len() == lines@.len(),
            lines@.len() <= MAX_LINES,
            i <= lines@.len(),
            total <= 65 * i,
            match second_half_spec(lb.skip(i as int)) {
                Ok(t) => second_half_spec(lb) == Ok::<int, ParseError>(total + t),
                Err(e) => second_half_spec(lb) == Err::<int, ParseError>(e),
            },
        decreases lines@.len() - i,
    {
        proof {
            assert(lb.skip(i as int)[0] == lb[i as int]);
            if i + 1 < lb.len() {
                assert(lb.skip(i as int)[1] == lb[i + 1]);
            }
            if i + 2 < lb.len() {
                assert(lb.skip(i as int)[2] == lb[i + 2]);
            }
        }
        let mut badge_index = match encode(lines[i].as_str()) {
            Ok(m) => m,
            Err(e) => {
                return Err(e);
            },
        };
        badge_index = badge_index & (match next_line(lines, i + 1) {
            Ok(m) => m,
            Err(e) => {
                return Err(e);
            },
        });
        badge_index = badge_index & (match next_line(lines, i + 2) {
            Ok(m) => m,
            Err(e) => {
                return Err(e);
            },
        });
        if count_set_bits(badge_index) != 1 {
            return Err(ParseError::BadgeNotFound);
        }
        proof {
            assert(lb.skip(i as int).skip(3) =~= lb.skip(i + 3));
            lemma_second_half_bound(lb.skip(i + 3));
            axiom_u64_trailing_zeros(badge_index);
        }
        total = total + index_to_priority(badge_index);
        i = i + 3;
    }
    proof {
        assert(lb.skip(lines@.len() as int) =~= Seq::<Seq<u8>>::empty());
    }
    Ok(total)
}

/// The rucksack solver behind the shared driver interface.
pub struct DayThreeParser;

impl Parser for DayThreeParser {
    fn parse(&mut self, half: Half, lines: &Vec<String>) -> (r: Result<u32, ParseError>)
        ensures
            ({
                let spec_r = match half {
                    Half::First => first_half_spec(lines_bytes(lines@)),
                    Half::Second => second_half_spec(lines_bytes(lines@)),
                };
                match spec_r {
                    Ok(t) => r == Ok::<u32, ParseError>(t as u32),
                    Err(e) => r == Err::<u32, ParseError>(e),
                }
            }),
    {
        match half {
            Half::First => solve_first_half(lines),
            Half::Second => solve_second_half(lines),
        }
    }
}

} // verus!
