//! Rock-paper-scissors strategy guide: each line names the opponent's move
//! (`A`, `B` or `C`) and a cipher letter (`X`, `Y` or `Z`). Depending on the
//! half being solved, the cipher names the player's own move or the desired
//! outcome. A round scores the player's shape plus a bonus for the outcome;
//! the solver sums the scores of all rounds.

use core::cmp::Ordering;
use vstd::prelude::*;

use crate::util::{lines_bytes, Half, ParseError, Parser, MAX_LINES};
use vstd::string::StringSliceAdditionalSpecFns;

verus! {

/// One shape thrown in a round.
#[derive(Debug, PartialEq, Eq, Structural, Clone, Copy)]
pub enum Move {
    Rock,
    Scissors,
    Paper,
}

/// The score a shape is worth on its own.
pub open spec fn move_score(m: Move) -> u32 {
    match m {
        Move::Rock => 1,
        Move::Paper => 2,
        Move::Scissors => 3,
    }
}

impl Move {
    /// The score this shape is worth on its own.
    pub fn score(&self) -> (r: u32)
        ensures
            r == move_score(*self),
    {
        match self {
            Move::Rock => 1,
            Move::Paper => 2,
            Move::Scissors => 3,
        }
    }
}

/// How two shapes compare: the winning shape is the greater one, so rock
/// beats scissors, scissors beat paper, and paper beats rock.
pub open spec fn duel(a: Move, b: Move) -> Ordering {
    match (a, b) {
        (Move::Rock, Move::Rock) => Ordering::Equal,
        (Move::Rock, Move::Scissors) => Ordering::Greater,
        (Move::Rock, Move::Paper) => Ordering::Less,
        (Move::Scissors, Move::Rock) => Ordering::Less,
        (Move::Scissors, Move::Scissors) => Ordering::Equal,
        (Move::Scissors, Move::Paper) => Ordering::Greater,
        (Move::Paper, Move::Rock) => Ordering::Greater,
        (Move::Paper, Move::Scissors) => Ordering::Less,
        (Move::Paper, Move::Paper) => Ordering::Equal,
    }
}

impl PartialOrd for Move {
    fn partial_cmp(&self, other: &Self) -> (r: Option<Ordering>) {
        let res = match (self, other) {
            (Move::Rock, Move::Rock) => Ordering::Equal,
            (Move::Rock, Move::Scissors) => Ordering::Greater,
            (Move::Rock, Move::Paper) => Ordering::Less,
            (Move::Scissors, Move::Rock) => Ordering::Less,
            (Move::Scissors, Move::Scissors) => Ordering::Equal,
            (Move::Scissors, Move::Paper) => Ordering::Greater,
            (Move::Paper, Move::Rock) => Ordering::Greater,
            (Move::Paper, Move::Scissors) => Ordering::Less,
            (Move::Paper, Move::Paper) => Ordering::Equal,
        };
        Some(res)
    }
}

impl vstd::std_specs::cmp::PartialOrdSpecImpl for Move {
    open spec fn obeys_partial_cmp_spec() -> bool {
        true
    }

    open spec fn partial_cmp_spec(&self, other: &Self) -> Option<Ordering> {
        Some(duel(*self, *other))
    }
}

/// The second field of a round, before decryption.
#[derive(Debug)]
pub enum CipherMove {
    X,
    Y,
    Z,
}

/// One round of the game: the opponent's shape and the player's own.
#[derive(Debug, PartialEq, Eq, Structural)]
pub struct Round {
    pub elf: Move,
    pub me: Move,
}

/// The bonus a round's outcome is worth: nothing for a loss, three for a
/// draw, six for a win.
pub open spec fn outcome_bonus(me: Move, elf: Move) -> u32 {
    match duel(me, elf) {
        Ordering::Less => 0,
        Ordering::Equal => 3,
        Ordering::Greater => 6,
    }
}

/// The full score of a round: the player's shape plus the outcome bonus.
pub open spec fn round_score(r: Round) -> u32 {
    (move_score(r.me) + outcome_bonus(r.me, r.elf)) as u32
}

impl Round {
    /// The full score of this round.
    pub fn score(&self) -> (r: u32)
        ensures
            r == round_score(*self),
    {
        let bonus: u32 = match self.me.partial_cmp(&self.elf) {
            Some(Ordering::Less) => 0,
            Some(Ordering::Equal) => 3,
            Some(Ordering::Greater) => 6,
            None => 0,
        };
        self.me.score() + bonus
    }
}

/// What the cipher letter stands for: in the first half it is the player's
/// own shape; in the second half it is the outcome to arrange, and the
/// player's shape follows from the opponent's.
pub open spec fn decrypt_spec(half: Half, elf_move: Move, cipher: CipherMove) -> Move {
    match half {
        Half::First => match cipher {
            CipherMove::X => Move::Rock,
            CipherMove::Y => Move::Paper,
            CipherMove::Z => Move::Scissors,
        },
        Half::Second => match cipher {
            CipherMove::X => match elf_move {
                Move::Rock => Move::Scissors,
                Move::Scissors => Move::Paper,
                Move::Paper => Move::Rock,
            },
            CipherMove::Y => elf_move,
            CipherMove::Z => match elf_move {
                Move::Rock => Move::Paper,
                Move::Scissors => Move::Rock,
                Move::Paper => Move::Scissors,
            },
        },
    }
}

/// The player's shape for a round, given the half being solved, the
/// opponent's shape and the cipher letter.
pub fn decrypt_move(half: Half, elf_move: Move, cipher: CipherMove) -> (r: Move)
    ensures
        r == decrypt_spec(half, elf_move, cipher),
{
    match half {
        Half::First => match cipher {
            CipherMove::X => Move::Rock,
            CipherMove::Y => Move::Paper,
            CipherMove::Z => Move::Scissors,
        },
        Half::Second => match cipher {
            CipherMove::X => match elf_move {
                Move::Rock => Move::Scissors,
                Move::Scissors => Move::Paper,
                Move::Paper => Move::Rock,
            },
            CipherMove::Y => elf_move,
            CipherMove::Z => match elf_move {
                Move::Rock => Move::Paper,
                Move::Scissors => Move::Rock,
                Move::Paper => Move::Scissors,
            },
        },
    }
}

/// Index of the first occurrence of `b` at or after `from`, or the length of
/// `s` if there is none.
pub open spec fn find_byte(s: Seq<u8>, b: u8, from: int) -> int
    decreases s.len() - from,
{
    if from >= s.len() {
        s.len() as int
    } else if s[from] == b {
        from
    } else {
        find_byte(s, b, from + 1)
    }
}

fn find_space(bytes: &[u8], from: usize) -> (r: usize)
    requires
        from <= bytes@.len(),
    ensures
        r == find_byte(bytes@, 32, from as int),
        from <= r <= bytes@.len(),
{
    let n = bytes.len();
    let mut k = from;
    while k < n
        invariant
            from <= k <= n,
            n == bytes@.len(),
            find_byte(bytes@, 32, from as int) == find_byte(bytes@, 32, k as int),
        decreases n - k,
    {
        if bytes[k] == 32 {
            return k;
        }
        k = k + 1;
    }
    k
}

/// What [`parse_round`] returns on a line with byte view `s`: the line must
/// be exactly two space-separated fields, `A`/`B`/`C` then `X`/`Y`/`Z`.
pub open spec fn parse_round_spec(s: Seq<u8>, half: Half) -> Result<Round, ParseError> {
    let i = find_byte(s, 32, 0);
    if !(i == 1 && (s[0] == 65 || s[0] == 66 || s[0] == 67)) {
        Err(ParseError::UnknownOpponentMove)
    } else {
        let elf = if s[0] == 65 {
            Move::Rock
        } else if s[0] == 66 {
            Move::Paper
        } else {
            Move::Scissors
        };
        if i >= s.len() {
            Err(ParseError::MissingCipherMove)
        } else {
            let j = find_byte(s, 32, i + 1);
            if !(j == i + 2 && (s[i + 1] == 88 || s[i + 1] == 89 || s[i + 1] == 90)) {
                Err(ParseError::UnknownCipherMove)
            } else {
                let cipher = if s[i + 1] == 88 {
                    CipherMove::X
                } else if s[i + 1] == 89 {
                    CipherMove::Y
                } else {
                    CipherMove::Z
                };
                if j < s.len() {
                    Err(ParseError::SpuriousField)
                } else {
                    Ok(Round { elf, me: decrypt_spec(half, elf, cipher) })
                }
            }
        }
    }
}

/// Parse one line of the strategy guide into a round, decrypting the cipher
/// letter according to the half being solved.
pub fn parse_round(line: &str, half: Half) -> (r: Result<Round, ParseError>)
    ensures
        r == parse_round_spec(line.spec_bytes(), half),
{
    let bytes = line.as_bytes();
    let n = bytes.len();
    let i = find_space(bytes, 0);
    let elf_move: Move;
    if i == 1 && (bytes[0] == 65 || bytes[0] == 66 || bytes[0] == 67) {
        elf_move = if bytes[0] == 65 {
            Move::Rock
        } else if bytes[0] == 66 {
            Move::Paper
        } else {
            Move::Scissors
        };
    } else {
        return Err(ParseError::UnknownOpponentMove);
    }
    if i >= n {
        return Err(ParseError::MissingCipherMove);
    }
    let j = find_space(bytes, i + 1);
    let cipher: CipherMove;
    if j == i + 2 && (bytes[i + 1] == 88 || bytes[i + 1] == 89 || bytes[i + 1] == 90) {
        cipher = if bytes[i + 1] == 88 {
            CipherMove::X
        } else if bytes[i + 1] == 89 {
            CipherMove::Y
        } else {
            CipherMove::Z
        };
    } else {
        return Err(ParseError::UnknownCipherMove);
    }
    if j < n {
        return Err(ParseError::SpuriousField);
    }
    Ok(Round { elf: elf_move, me: decrypt_move(half, elf_move, cipher) })
}

/// What the strategy-guide solver computes over the byte views of the input
/// lines: the sum of every line's round score, or the first line's error.
pub open spec fn total_score_spec(ls: Seq<Seq<u8>>, half: Half) -> Result<int, ParseError>
    decreases ls.len(),
{
    if ls.len() == 0 {
        Ok(0)
    } else {
        match parse_round_spec(ls[0], half) {
            Err(e) => Err(e),
            Ok(round) => match total_score_spec(ls.drop_first(), half) {
                Err(e) => Err(e),
                Ok(t) => Ok(round_score(round) + t),
            },
        }
    }
}

proof fn lemma_total_score_bound(ls: Seq<Seq<u8>>, half: Half)
    ensures
        total_score_spec(ls, half) matches Ok(t) ==> 0 <= t <= 9 * ls.len(),
    decreases ls.len(),
{
    if ls.len() > 0 {
        lemma_total_score_bound(ls.drop_first(), half);
    }
}

/// The strategy-guide solver behind the shared driver interface.
pub struct DayTwoParser;

impl Parser for DayTwoParser {
    fn parse(&mut self, half: Half, lines: &Vec<String>) -> (r: Result<u32, ParseError>)
        ensures
            match total_score_spec(lines_bytes(lines@), half) {
                Ok(t) => r == Ok::<u32, ParseError>(t as u32),
                Err(e) => r == Err::<u32, ParseError>(e),
            },
    {
        let ghost lb = lines_bytes(lines@);
        proof {
            assert(lb.skip(0) =~= lb);
        }
        let mut total_score: u32 = 0;
        let mut i: usize = 0;
        while i < lines.len()
            invariant
                lb == lines_bytes(lines@),
                lb.len() == lines@.len(),
                lines@.len() <= MAX_LINES,
                i <= lines@.len(),
                total_score <= 9 * i,
                match total_score_spec(lb.skip(i as int), half) {
                    Ok(t) => total_score_spec(lb, half) == Ok::<int, ParseError>(total_score + t),
                    Err(e) => total_score_spec(lb, half) == Err::<int, ParseError>(e),
                },
            decreases lines@.len() - i,
        {
            proof {
                assert(lb.skip(i as int)[0] == lb[i as int]);
                assert(lb.skip(i as int).drop_first() =~= lb.skip(i + 1));
            }
            let round = match parse_round(lines[i].as_str(), half) {
                Ok(ro) => ro,
                Err(e) => {
                    return Err(e);
                },
            };
            proof {
                lemma_total_score_bound(lb.skip(i + 1), half);
            }
            total_score = total_score + round.score();
            i = i + 1;
        }
        proof {
            assert(lb.skip(lines@.len() as int) =~= Seq::<Seq<u8>>::empty());
        }
        Ok(total_score)
    }
}

} // verus!
