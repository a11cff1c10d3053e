//! Calorie counting: the input is a list of decimal numbers, one per line,
//! with blank lines separating the packs carried by different elves. The
//! solver reports the combined calories of the three fullest packs. A pack
//! with no calories ends the scan, as does the end of the input.

use vstd::prelude::*;

use crate::util::{lines_bytes, ParseError, MAX_LINES};
use vstd::string::StringSliceAdditionalSpecFns;

verus! {

pub open spec fn is_digit(b: u8) -> bool {
    48 <= b <= 57
}

/// The digit part of a decimal literal: an optional leading plus sign is
/// dropped.
pub open spec fn digits_of(s: Seq<u8>) -> Seq<u8> {
    if s.len() > 0 && s[0] == 43 {
        s.drop_first()
    } else {
        s
    }
}

pub open spec fn all_digits(s: Seq<u8>) -> bool {
    forall|i: int| 0 <= i < s.len() ==> is_digit(#[trigger] s[i])
}

/// The value of a string of decimal digits.
pub open spec fn dec_value(s: Seq<u8>) -> int
    decreases s.len(),
{
    if s.len() == 0 {
        0
    } else {
        dec_value(s.drop_last()) * 10 + (s.last() - 48)
    }
}

/// Whether a line is a decimal `u32` literal: an optional plus sign, then at
/// least one digit, with the value within range.
pub open spec fn parses_as_u32(s: Seq<u8>) -> bool {
    let d = digits_of(s);
    d.len() > 0 && all_digits(d) && dec_value(d) <= u32::MAX
}

/// The number of calories on one line; a line that is no `u32` literal
/// counts nothing.
pub open spec fn line_value(s: Seq<u8>) -> int {
    if parses_as_u32(s) {
        dec_value(digits_of(s))
    } else {
        0
    }
}

proof fn lemma_dec_value_nonneg(s: Seq<u8>)
    requires
        all_digits(s),
    ensures
        dec_value(s) >= 0,
    decreases s.len(),
{
    if s.len() > 0 {
        assert(forall|i: int| 0 <= i < s.len() - 1 ==> s.drop_last()[i] == s[i]);
        lemma_dec_value_nonneg(s.drop_last());
    }
}

proof fn lemma_line_value_nonneg(s: Seq<u8>)
    ensures
        line_value(s) >= 0,
{
    if parses_as_u32(s) {
        lemma_dec_value_nonneg(digits_of(s));
    }
}

/// With every byte a digit, a longer prefix never has a smaller value.
proof fn lemma_dec_value_prefix(s: Seq<u8>, j: int)
    requires
        all_digits(s),
        0 <= j <= s.len(),
    ensures
        dec_value(s.take(j)) <= dec_value(s),
    decreases s.len() - j,
{
    if j < s.len() {
        assert(forall|i: int| 0 <= i < j ==> s.take(j)[i] == s[i]);
        lemma_dec_value_nonneg(s.take(j));
        assert(s.take(j + 1).drop_last() =~= s.take(j));
        assert(s.take(j + 1).last() == s[j]);
        lemma_dec_value_prefix(s, j + 1);
    } else {
        assert(s.take(j) =~= s);
    }
}

/// Parse a calorie line: an optional leading plus sign, then decimal digits.
fn parse_u32_bytes(bytes: &[u8]) -> (r: Result<u32, ParseError>)
    ensures
        parses_as_u32(bytes@) ==> r == Ok::<u32, ParseError>(
            dec_value(digits_of(bytes@)) as u32,
        ),
        !parses_as_u32(bytes@) ==> r == Err::<u32, ParseError>(ParseError::InvalidNumber),
{
    let n = bytes.len();
    let start: usize = if n > 0 && bytes[0] == 43 {
        1
    } else {
        0
    };
    let ghost d = digits_of(bytes@);
    proof {
        assert(d =~= bytes@.skip(start as int));
    }
    if start == n {
        return Err(ParseError::InvalidNumber);
    }
    let mut acc: u64 = 0;
    let mut i: usize = start;
    while i < n
        invariant
            start <= i <= n,
            n == bytes@.len(),
            d == digits_of(bytes@),
            d =~= bytes@.skip(start as int),
            all_digits(d.take(i - start)),
            acc == dec_value(d.take(i - start)),
            acc <= u32::MAX,
        decreases n - i,
    {
        let b = bytes[i];
        if !(48 <= b && b <= 57) {
            proof {
                assert(d[i - start] == bytes@[i as int]);
                assert(!is_digit(d[i - start]));
            }
            return Err(ParseError::InvalidNumber);
        }
        proof {
            assert(d.take(i - start + 1).drop_last() =~= d.take(i - start));
            assert(d.take(i - start + 1).last() == d[i - start]);
            assert(forall|k: int|
                0 <= k < i - start + 1 ==> is_digit(#[trigger] d.take(i - start + 1)[k]));
        }
        let v = acc * 10 + (b - 48) as u64;
        if v > u32::MAX as u64 {
            proof {
                if all_digits(d) {
                    lemma_dec_value_prefix(d, i - start + 1);
                }
            }
            return Err(ParseError::InvalidNumber);
        }
        acc = v;
        i = i + 1;
    }
    proof {
        assert(d.take(n - start) =~= d);
    }
    Ok(acc as u32)
}

/// Index of the first blank line: where the first pack ends.
pub open spec fn first_break(ls: Seq<Seq<u8>>) -> nat
    decreases ls.len(),
{
    if ls.len() == 0 {
        0
    } else if ls[0].len() == 0 {
        0
    } else {
        (1 + first_break(ls.drop_first())) as nat
    }
}

/// Every line of the first pack is a `u32` literal.
pub open spec fn pack_ok(ls: Seq<Seq<u8>>, n: int) -> bool {
    forall|k: int| 0 <= k < n ==> parses_as_u32(#[trigger] ls[k])
}

/// Total calories of the first `n` lines.
pub open spec fn pack_sum(ls: Seq<Seq<u8>>, n: int) -> int
    decreases n,
{
    if n <= 0 {
        0
    } else {
        pack_sum(ls, n - 1) + line_value(ls[n - 1])
    }
}

/// What [`packs`] returns over the byte views of the input lines: the total
/// of each pack in order, stopping at the first pack with no calories, or an
/// error if a line of a scanned pack is no `u32` literal.
pub open spec fn packs_spec(ls: Seq<Seq<u8>>) -> Result<Seq<u32>, ParseError>
    decreases ls.len(),
{
    let n = first_break(ls) as int;
    if !pack_ok(ls, n) {
        Err(ParseError::InvalidNumber)
    } else {
        let t = pack_sum(ls, n);
        if t == 0 {
            Ok(Seq::empty())
        } else if n >= ls.len() {
            Ok(seq![t as u32])
        } else {
            match packs_spec(ls.skip(n + 1)) {
                Err(e) => Err(e),
                Ok(rest) => Ok(seq![t as u32] + rest),
            }
        }
    }
}

/// Every pack total the scan reaches stays within `u32`.
pub open spec fn packs_fit(ls: Seq<Seq<u8>>) -> bool
    decreases ls.len(),
{
    let n = first_break(ls) as int;
    pack_sum(ls, n) <= u32::MAX && (if pack_ok(ls, n) && pack_sum(ls, n) != 0 && n < ls.len() {
        packs_fit(ls.skip(n + 1))
    } else {
        true
    })
}

proof fn lemma_pack_sum_mono(ls: Seq<Seq<u8>>, j: int, n: int)
    requires
        0 <= j <= n,
    ensures
        pack_sum(ls, j) <= pack_sum(ls, n),
    decreases n,
{
    if j < n {
        lemma_pack_sum_mono(ls, j, n - 1);
        lemma_line_value_nonneg(ls[n - 1]);
    }
}

proof fn lemma_first_break_at(ls: Seq<Seq<u8>>, m: int)
    requires
        0 <= m <= ls.len(),
        forall|k: int| 0 <= k < m ==> (#[trigger] ls[k]).len() > 0,
        m == ls.len() || ls[m].len() == 0,
    ensures
        first_break(ls) == m,
    decreases m,
{
    if m > 0 {
        assert(forall|k: int| 0 <= k < m - 1 ==> ls.drop_first()[k] == ls[k + 1]);
        lemma_first_break_at(ls.drop_first(), m - 1);
    }
}

proof fn lemma_first_break_ge(ls: Seq<Seq<u8>>, m: int)
    requires
        0 <= m <= ls.len(),
        forall|k: int| 0 <= k < m ==> (#[trigger] ls[k]).len() > 0,
    ensures
        first_break(ls) >= m,
    decreases m,
{
    if m > 0 {
        assert(forall|k: int| 0 <= k < m - 1 ==> ls.drop_first()[k] == ls[k + 1]);
        lemma_first_break_ge(ls.drop_first(), m - 1);
    }
}

/// The total calories of each elf's pack, in input order: blank lines
/// separate packs, and a pack with no calories ends the scan.
#[verifier::rlimit(60)]
pub fn packs(lines: &Vec<String>) -> (r: Result<Vec<u32>, ParseError>)
    requires
        packs_fit(lines_bytes(lines@)),
    ensures
        ({
            let ps = packs_spec(lines_bytes(lines@));
            match r {
                Ok(v) => ps == Ok::<Seq<u32>, ParseError>(v@),
                Err(e) => ps == Err::<Seq<u32>, ParseError>(e),
            }
        }),
{
    let ghost lb = lines_bytes(lines@);
    proof {
        assert(lb.skip(0) =~= lb);
    }
    let n = lines.len();
    let mut out: Vec<u32> = Vec::new();
    let mut i: usize = 0;
    loop
        invariant
            lb == lines_bytes(lines@),
            lb.len() == lines@.len(),
            n == lines@.len(),
            i <= n,
            packs_fit(lb.skip(i as int)),
            match packs_spec(lb.skip(i as int)) {
                Ok(s) => packs_spec(lb) == Ok::<Seq<u32>, ParseError>(out@ + s),
                Err(e) => packs_spec(lb) == Err::<Seq<u32>, ParseError>(e),
            },
        decreases n + 1 - i,
    {
        let ghost tail = lb.skip(i as int);
        let mut total: u32 = 0;
        let mut j: usize = i;
        while j < n && lines[j].as_str().as_bytes().len() != 0
            invariant
                lb == lines_bytes(lines@),
                lb.len() == lines@.len(),
                n == lines@.len(),
                tail == lb.skip(i as int),
                packs_fit(tail),
                match packs_spec(tail) {
                    Ok(s) => packs_spec(lb) == Ok::<Seq<u32>, ParseError>(out@ + s),
                    Err(e) => packs_spec(lb) == Err::<Seq<u32>, ParseError>(e),
                },
                i <= j <= n,
                forall|k: int|
                    i <= k < j ==> (#[trigger] lb[k]).len() > 0 && parses_as_u32(lb[k]),
                total == pack_sum(tail, j - i),
            decreases n - j,
        {
            proof {
                assert(tail[j - i] == lb[j as int]);
                assert forall|k: int| 0 <= k < j - i + 1 implies (#[trigger] tail[k]).len()
                    > 0 by {
                    assert(tail[k] == lb[i + k]);
                }
            }
            let v = match parse_u32_bytes(lines[j].as_str().as_bytes()) {
                Ok(v) => v,
                Err(e) => {
                    proof {
                        lemma_first_break_ge(tail, j - i + 1);
                        assert(!parses_as_u32(tail[j - i]));
                        assert(!pack_ok(tail, first_break(tail) as int));
                        assert(packs_spec(tail) == Err::<Seq<u32>, ParseError>(
                            ParseError::InvalidNumber,
                        ));
                        assert(e == ParseError::InvalidNumber);
                    }
                    return Err(e);
                },
            };
            proof {
                lemma_first_break_ge(tail, j - i + 1);
                lemma_pack_sum_mono(tail, j - i + 1, first_break(tail) as int);
                lemma_dec_value_nonneg(digits_of(lb[j as int]));
            }
            total = total + v;
            j = j + 1;
        }
        proof {
            assert forall|k: int| 0 <= k < j - i implies (#[trigger] tail[k]).len() > 0 by {
                assert(tail[k] == lb[i + k]);
            }
            lemma_first_break_at(tail, j - i);
            assert forall|k: int| 0 <= k < j - i implies parses_as_u32(#[trigger] tail[k]) by {
                assert(tail[k] == lb[i + k]);
            }
            assert(pack_ok(tail, first_break(tail) as int));
        }
        if total == 0 {
            proof {
                assert(packs_spec(tail) == Ok::<Seq<u32>, ParseError>(Seq::empty()));
                assert(out@ + Seq::<u32>::empty() =~= out@);
            }
            return Ok(out);
        }
        let ghost out_before = out@;
        out.push(total);
        if j >= n {
            proof {
                assert(packs_spec(tail) == Ok::<Seq<u32>, ParseError>(seq![total]));
                assert(lb.skip(n as int) =~= Seq::<Seq<u8>>::empty());
                assert(packs_spec(lb.skip(n as int)) == Ok::<Seq<u32>, ParseError>(Seq::empty()));
                assert(packs_fit(lb.skip(n as int)));
                assert(out@ =~= out_before + seq![total]);
                assert(out@ + Seq::<u32>::empty() =~= out@);
            }
            i = n;
        } else {
            proof {
                assert(tail.skip(j - i + 1) =~= lb.skip(j + 1));
                assert(out@ =~= out_before + seq![total]);
                match packs_spec(lb.skip(j + 1)) {
                    Ok(s) => {
                        assert(packs_spec(tail) == Ok::<Seq<u32>, ParseError>(seq![total] + s));
                        assert(out_before + (seq![total] + s) =~= out@ + s);
                    },
                    Err(_) => {},
                }
            }
            i = j + 1;
        }
    }
}

/// Descending order on pack totals.
pub open spec fn descending() -> spec_fn(u32, u32) -> bool {
    |x: u32, y: u32| x >= y
}

/// The pack totals ordered from largest to smallest.
pub open spec fn sorted_desc(s: Seq<u32>) -> Seq<u32> {
    s.sort_by(descending())
}

proof fn lemma_descending_total()
    ensures
        vstd::relations::total_ordering(descending()),
{
    assert(vstd::relations::reflexive(descending()));
    assert(vstd::relations::antisymmetric(descending()));
    assert(vstd::relations::transitive(descending()));
    assert(vstd::relations::strongly_connected(descending()));
}

fn sort_descending(v: &mut Vec<u32>)
    ensures
        final(v)@ == sorted_desc(old(v)@),
{
    broadcast use vstd::seq_lib::group_to_multiset_ensures;

    let mut ordered: Vec<u32> = Vec::new();
    let mut i: usize = 0;
    while i < v.len()
        invariant
            i <= v@.len(),
            vstd::relations::sorted_by(ordered@, descending()),
            ordered@.to_multiset() == v@.take(i as int).to_multiset(),
        decreases v@.len() - i,
    {
        let x = v[i];
        let mut k: usize = 0;
        while k < ordered.len() && ordered[k] >= x
            invariant
                k <= ordered@.len(),
                forall|m: int| 0 <= m < k ==> ordered@[m] >= x,
            decreases ordered@.len() - k,
        {
            k = k + 1;
        }
        proof {
            assert forall|m: int| k <= m < ordered@.len() implies ordered@[m] < x by {
                if m > k {
                    assert(descending()(ordered@[k as int], ordered@[m]));
                }
            }
        }
        let ghost before = ordered@;
        ordered.insert(k, x);
        proof {
            assert forall|a: int, b: int|
                0 <= a < b < ordered@.len() implies descending()(
                ordered@[a],
                ordered@[b],
            ) by {
                if a < k {
                    assert(ordered@[a] == before[a]);
                } else if a == k {
                    assert(ordered@[a] == x);
                } else {
                    assert(ordered@[a] == before[a - 1]);
                }
                if b < k {
                    assert(ordered@[b] == before[b]);
                } else if b == k {
                    assert(ordered@[b] == x);
                } else {
                    assert(ordered@[b] == before[b - 1]);
                }
            }
            assert(ordered@ == before.insert(k as int, x));
            vstd::seq_lib::to_multiset_insert(before, k as int, x);
            assert(v@.take(i + 1) =~= v@.take(i as int).push(x));
            vstd::seq_lib::to_multiset_build(v@.take(i as int), x);
        }
        i = i + 1;
    }
    proof {
        assert(v@.take(v@.len() as int) =~= v@);
        lemma_descending_total();
        v@.lemma_sort_by_ensures(descending());
        vstd::seq_lib::lemma_sorted_unique(ordered@, v@.sort_by(descending()), descending());
    }
    *v = ordered;
}

/// The combined calories of a sequence of pack totals.
pub open spec fn seq_sum(s: Seq<u32>) -> int
    decreases s.len(),
{
    if s.len() == 0 {
        0
    } else {
        s[0] + seq_sum(s.drop_first())
    }
}

proof fn lemma_seq_sum_nonneg(s: Seq<u32>)
    ensures
        seq_sum(s) >= 0,
    decreases s.len(),
{
    if s.len() > 0 {
        lemma_seq_sum_nonneg(s.drop_first());
    }
}

/// The calories of the three fullest packs, or of all packs if there are
/// fewer than three.
pub open spec fn top3_sum(s: Seq<u32>) -> int {
    let d = sorted_desc(s);
    seq_sum(d.take(if d.len() < 3 { d.len() as int } else { 3 }))
}

/// The top-three total stays within `u32`.
pub open spec fn top3_fit(ls: Seq<Seq<u8>>) -> bool {
    match packs_spec(ls) {
        Ok(s) => top3_sum(s) <= u32::MAX,
        Err(_) => true,
    }
}

/// The total calories in the three fullest packs, in case there are fewer
/// than three packs the total over all of them.
pub fn parse_top_3_packs(lines: &Vec<String>) -> (r: Result<u32, ParseError>)
    requires
        packs_fit(lines_bytes(lines@)),
        top3_fit(lines_bytes(lines@)),
    ensures
        match packs_spec(lines_bytes(lines@)) {
            Ok(s) => r == Ok::<u32, ParseError>(top3_sum(s) as u32),
            Err(e) => r == Err::<u32, ParseError>(e),
        },
{
    let mut calories = match packs(lines) {
        Ok(v) => v,
        Err(e) => {
            return Err(e);
        },
    };
    let ghost packs_seq = calories@;
    sort_descending(&mut calories);
    let ghost d = sorted_desc(packs_seq);
    let count = if calories.len() < 3 {
        calories.len()
    } else {
        3
    };
    let mut total: u32 = 0;
    let mut idx: usize = 0;
    proof {
        assert(d.subrange(0, count as int) =~= d.take(count as int));
        lemma_seq_sum_nonneg(d.take(count as int));
    }
    while idx < count
        invariant
            calories@ == d,
            count == if d.len() < 3 {
                d.len() as int
            } else {
                3
            },
            idx <= count <= calories@.len(),
            total + seq_sum(d.subrange(idx as int, count as int)) == seq_sum(
                d.take(count as int),
            ),
            seq_sum(d.take(count as int)) <= u32::MAX,
            total <= seq_sum(d.take(count as int)),
        decreases count - idx,
    {
        proof {
            assert(d.subrange(idx as int, count as int)[0] == d[idx as int]);
            assert(d.subrange(idx as int, count as int).drop_first() =~= d.subrange(
                idx + 1,
                count as int,
            ));
            lemma_seq_sum_nonneg(d.subrange(idx + 1, count as int));
        }
        total = total + calories[idx];
        idx = idx + 1;
    }
    proof {
        assert(d.subrange(count as int, count as int) =~= Seq::<u32>::empty());
    }
    Ok(total)
}

fn packs_fit_check(lines: &Vec<String>) -> (r: bool)
    requires
        lines@.len() <= MAX_LINES,
    ensures
        r == packs_fit(lines_bytes(lines@)),
{
    let ghost lb = lines_bytes(lines@);
    proof {
        assert(lb.skip(0) =~= lb);
    }
    let n = lines.len();
    let mut i: usize = 0;
    loop
        invariant
            lb == lines_bytes(lines@),
            lb.len() == lines@.len(),
            n == lines@.len(),
            n <= MAX_LINES,
            i <= n,
            packs_fit(lb) == packs_fit(lb.skip(i as int)),
        decreases n + 1 - i,
    {
        let ghost tail = lb.skip(i as int);
        let mut total: u64 = 0;
        let mut ok = true;
        let mut j: usize = i;
        while j < n && lines[j].as_str().as_bytes().len() != 0
            invariant
                lb == lines_bytes(lines@),
                lb.len() == lines@.len(),
                n == lines@.len(),
                n <= MAX_LINES,
                tail == lb.skip(i as int),
                packs_fit(lb) == packs_fit(tail),
                i <= j <= n,
                forall|k: int| i <= k < j ==> (#[trigger] lb[k]).len() > 0,
                ok == pack_ok(tail, j - i),
                total == pack_sum(tail, j - i),
                total <= u32::MAX as u64 * (j - i),
            decreases n - j,
        {
            proof {
                assert(tail[j - i] == lb[j as int]);
            }
            let v: u64 = match parse_u32_bytes(lines[j].as_str().as_bytes()) {
                Ok(vv) => vv as u64,
                Err(_) => {
                    ok = false;
                    0
                },
            };
            proof {
                lemma_line_value_nonneg(tail[j - i]);
                if parses_as_u32(tail[j - i]) {
                    lemma_dec_value_nonneg(digits_of(tail[j - i]));
                }
                assert(v as int == line_value(tail[j - i]));
                assert(pack_ok(tail, j - i + 1) == (pack_ok(tail, j - i) && parses_as_u32(
                    tail[j - i],
                ))) by {
                    if pack_ok(tail, j - i) && parses_as_u32(tail[j - i]) {
                        assert forall|k: int|
                            0 <= k < j - i + 1 implies parses_as_u32(#[trigger] tail[k]) by {
                            if k < j - i {
                                assert(parses_as_u32(tail[k]));
                            }
                        }
                    }
                }
            }
            total = total + v;
            j = j + 1;
        }
        proof {
            assert forall|k: int| 0 <= k < j - i implies (#[trigger] tail[k]).len() > 0 by {
                assert(tail[k] == lb[i + k]);
            }
            lemma_first_break_at(tail, j - i);
        }
        if total > u32::MAX as u64 {
            proof {
                assert(!packs_fit(tail));
            }
            return false;
        }
        if !ok {
            proof {
                assert(packs_fit(tail));
            }
            return true;
        }
        if total == 0 {
            proof {
                assert(packs_fit(tail));
            }
            return true;
        }
        if j >= n {
            proof {
                assert(packs_fit(tail));
            }
            return true;
        }
        proof {
            assert(tail.skip(j - i + 1) =~= lb.skip(j + 1));
            assert(packs_fit(tail) == packs_fit(lb.skip(j + 1)));
        }
        i = j + 1;
    }
}

/// Whether [`parse_top_3_packs`] accepts this input: every pack total and
/// the top-three total stay within `u32`.
pub fn pack_sums_fit(lines: &Vec<String>) -> (r: bool)
    requires
        lines@.len() <= MAX_LINES,
    ensures
        r == (packs_fit(lines_bytes(lines@)) && top3_fit(lines_bytes(lines@))),
{
    if !packs_fit_check(lines) {
        return false;
    }
    let mut calories = match packs(lines) {
        Ok(v) => v,
        Err(_) => {
            return true;
        },
    };
    let ghost packs_seq = calories@;
    sort_descending(&mut calories);
    let ghost d = sorted_desc(packs_seq);
    let count = if calories.len() < 3 {
        calories.len()
    } else {
        3
    };
    let mut total: u64 = 0;
    let mut idx: usize = 0;
    proof {
        assert(d.subrange(0, count as int) =~= d.take(count as int));
    }
    while idx < count
        invariant
            calories@ == d,
            count == if d.len() < 3 {
                d.len() as int
            } else {
                3
            },
            idx <= count <= calories@.len(),
            total + seq_sum(d.subrange(idx as int, count as int)) == seq_sum(
                d.take(count as int),
            ),
            total <= u32::MAX as u64 * idx,
        decreases count - idx,
    {
        proof {
            assert(d.subrange(idx as int, count as int)[0] == d[idx as int]);
            assert(d.subrange(idx as int, count as int).drop_first() =~= d.subrange(
                idx + 1,
                count as int,
            ));
        }
        total = total + calories[idx] as u64;
        idx = idx + 1;
    }
    proof {
        assert(d.subrange(count as int, count as int) =~= Seq::<u32>::empty());
    }
    total <= u32::MAX as u64
}

} // verus!
