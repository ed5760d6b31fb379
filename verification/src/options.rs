//! The commands the program runs, stripped to plain values.
//!
//! Argument handling itself stays outside the library; what stands here is
//! the data each command carries and the two parsers that turn text into a
//! grid or a difficulty.

use vstd::prelude::*;

use vstd::string::StringSliceAdditionalSpecFns;

use crate::error::Error;
use crate::game::{Difficulty, Game};

verus! {

/// Generate new puzzles.
pub struct Generate {
    pub template: Game,
    pub max_difficulty: Difficulty,
    pub count: u16,
}

/// Solve a given puzzle.
pub struct Solve {
    pub puzzle: Game,
}

/// Play sudoku.
pub struct Play {
    pub puzzle: Game,
    pub difficulty: Difficulty,
}

/// The command selected on the command line.
pub enum Options {
    Generate(Generate),
    Solve(Solve),
    Play(Play),
}

impl Generate {
    /// The grid the generated puzzles start from.
    pub fn template(&self) -> (g: Game)
        ensures
            g == self.template,
    {
        self.template
    }

    /// The hardest difficulty to prune for.
    pub fn max_difficulty(&self) -> (d: Difficulty)
        ensures
            d == self.max_difficulty,
    {
        self.max_difficulty
    }

    /// How many puzzles to generate; 0 asks for an endless stream.
    pub fn count(&self) -> (c: u16)
        ensures
            c == self.count,
    {
        self.count
    }
}

impl Solve {
    /// The puzzle to be solved.
    pub fn puzzle(&self) -> (g: Game)
        ensures
            g == self.puzzle,
    {
        self.puzzle
    }
}

/// The digits drawn from a byte sequence: each byte `b'0'` to `b'9'` gives
/// its value, everything else (separators) is passed over.  In UTF-8 text
/// no byte of a multi-byte character is an ASCII digit, so this is exactly
/// the digit characters of the text.
pub open spec fn digit_bytes(s: Seq<u8>) -> Seq<u8>
    decreases s.len(),
{
    if s.len() == 0 {
        Seq::empty()
    } else {
        let rest = digit_bytes(s.drop_last());
        if 48 <= s.last() <= 57 {
            rest.push((s.last() - 48) as u8)
        } else {
            rest
        }
    }
}

/// Read a grid from text holding 81 digits, row-major, `0` meaning empty,
/// with any separators between them.  Fails with `InvalidLength` when the
/// text holds any other number of digits.
pub fn to_game(value: &str) -> (r: Result<Game, Error>)
    ensures
        digit_bytes(value.spec_bytes()).len() == 81 ==> r is Ok
            && (r->Ok_0)@ == digit_bytes(value.spec_bytes()) && (r->Ok_0).wf(),
        digit_bytes(value.spec_bytes()).len() != 81 ==> r == Err::<Game, Error>(
            Error::InvalidLength,
        ),
{
    let bytes = value.as_bytes();
    let n = bytes.len();
    let mut digits: Vec<u8> = Vec::new();
    for i in 0..n
        invariant
            n == bytes@.len(),
            bytes@ == value.spec_bytes(),
            digits@ == digit_bytes(bytes@.subrange(0, i as int)),
            forall|p: int| 0 <= p < digits@.len() ==> digits@[p] <= 9,
    {
        let b = bytes[i];
        proof {
            assert(bytes@.subrange(0, i + 1).drop_last() =~= bytes@.subrange(0, i as int));
            assert(bytes@.subrange(0, i + 1).last() == bytes@[i as int]);
        }
        if 48 <= b && b <= 57 {
            digits.push(b - 48);
        }
    }
    proof {
        assert(bytes@.subrange(0, n as int) =~= bytes@);
    }
    if digits.len() != 81 {
        return Err(Error::InvalidLength);
    }
    match crate::codec::decode(&digits) {
        Ok(game) => Ok(game),
        Err(_) => Err(Error::InvalidLength),
    }
}

/// The ASCII upper-case image of a byte.
pub open spec fn upper_byte(b: u8) -> u8 {
    if 97 <= b <= 122 {
        (b - 32) as u8
    } else {
        b
    }
}

/// `s` spells `t` up to ASCII case, where `t` is already upper-case.
pub open spec fn spells(s: Seq<u8>, t: Seq<u8>) -> bool {
    s.len() == t.len() && forall|k: int| 0 <= k < s.len() ==> upper_byte(#[trigger] s[k]) == t[k]
}

/// The difficulty a piece of text names, if any: `easy`/`e`, `medium`/`m`,
/// or `hard`/`h`, in any ASCII case.
pub open spec fn spec_difficulty(s: Seq<u8>) -> Option<Difficulty> {
    if spells(s, seq![69u8, 65u8, 83u8, 89u8]) || spells(s, seq![69u8]) {
        Some(Difficulty::Easy)
    } else if spells(s, seq![77u8, 69u8, 68u8, 73u8, 85u8, 77u8]) || spells(s, seq![77u8]) {
        Some(Difficulty::Medium)
    } else if spells(s, seq![72u8, 65u8, 82u8, 68u8]) || spells(s, seq![72u8]) {
        Some(Difficulty::Hard)
    } else {
        None
    }
}

/// The ASCII upper-case image of a byte.
fn upper(b: u8) -> (r: u8)
    ensures
        r == upper_byte(b),
{
    if 97 <= b && b <= 122 {
        b - 32
    } else {
        b
    }
}

/// Does `s` spell `t` up to ASCII case?  `t` is upper-case already.
fn spells_upper(s: &[u8], t: &[u8]) -> (r: bool)
    ensures
        r == spells(s@, t@),
{
    if s.len() != t.len() {
        return false;
    }
    let n = s.len();
    for k in 0..n
        invariant
            n == s@.len() == t@.len(),
            forall|p: int| 0 <= p < k ==> upper_byte(#[trigger] s@[p]) == t@[p],
    {
        if upper(s[k]) != t[k] {
            return false;
        }
    }
    true
}

/// Read a difficulty from text: `easy`/`e`, `medium`/`m`, or `hard`/`h`,
/// in any ASCII case.  Anything else is rejected.
pub fn to_difficulty(value: &str) -> (r: Result<Difficulty, Error>)
    ensures
        spec_difficulty(value.spec_bytes()) is Some ==> r is Ok
            && r->Ok_0 == spec_difficulty(value.spec_bytes())->0,
        spec_difficulty(value.spec_bytes()) is None ==> r == Err::<Difficulty, Error>(
            Error::InvalidToken,
        ),
{
    let bytes = value.as_bytes();
    let easy: [u8; 4] = [69, 65, 83, 89];
    let medium: [u8; 6] = [77, 69, 68, 73, 85, 77];
    let hard: [u8; 4] = [72, 65, 82, 68];
    let e: [u8; 1] = [69];
    let m: [u8; 1] = [77];
    let h: [u8; 1] = [72];
    proof {
        assert(easy@ =~= seq![69u8, 65u8, 83u8, 89u8]);
        assert(medium@ =~= seq![77u8, 69u8, 68u8, 73u8, 85u8, 77u8]);
        assert(hard@ =~= seq![72u8, 65u8, 82u8, 68u8]);
        assert(e@ =~= seq![69u8]);
        assert(m@ =~= seq![77u8]);
        assert(h@ =~= seq![72u8]);
    }
    if spells_upper(bytes, easy.as_slice()) || spells_upper(bytes, e.as_slice()) {
        Ok(Difficulty::Easy)
    } else if spells_upper(bytes, medium.as_slice()) || spells_upper(bytes, m.as_slice()) {
        Ok(Difficulty::Medium)
    } else if spells_upper(bytes, hard.as_slice()) || spells_upper(bytes, h.as_slice()) {
        Ok(Difficulty::Hard)
    } else {
        Err(Error::InvalidToken)
    }
}

} // verus!
