//! The flat 81-value board encoding of the boundary.
//!
//! A grid travels as 81 raw cell values in row-major order, `0` meaning
//! empty.  Decoding validates length and value range; encoding a grid and
//! decoding the result is proved to give the grid back.

use vstd::prelude::*;

use crate::error::Error;
use crate::game::Game;
use crate::model::grid_wf;

verus! {

/// What decoding a flat value sequence yields: the grid itself, or the
/// error naming the first rule it breaks.
pub open spec fn spec_decode(values: Seq<u8>) -> Result<Seq<u8>, Error> {
    if values.len() != 81 {
        Err(Error::InvalidLength)
    } else if exists|i: int| 0 <= i < 81 && values[i] > 9 {
        Err(Error::InvalidToken)
    } else {
        Ok(values)
    }
}

/// The view of a decoding result, grid replaced by its cell values.
pub open spec fn decode_view(r: Result<Game, Error>) -> Result<Seq<u8>, Error> {
    match r {
        Ok(g) => Ok(g@),
        Err(e) => Err(e),
    }
}

/// Read a grid from 81 raw cell values, row-major.  Fails with
/// `InvalidLength` when the count is off and with `InvalidToken` when a
/// value is no digit.
pub fn decode(values: &Vec<u8>) -> (r: Result<Game, Error>)
    ensures
        decode_view(r) == spec_decode(values@),
        r is Ok ==> (r->Ok_0).wf(),
{
    if values.len() != 81 {
        return Err(Error::InvalidLength);
    }
    let mut cells: [u8; 81] = [0; 81];
    for i in 0..81usize
        invariant
            values@.len() == 81,
            forall|p: int| 0 <= p < i ==> values@[p] <= 9,
            forall|p: int| 0 <= p < i ==> cells@[p] == values@[p],
    {
        let v = values[i];
        if v > 9 {
            return Err(Error::InvalidToken);
        }
        cells[i] = v;
    }
    let game = Game::from_array(cells);
    proof {
        assert(game@ =~= values@);
    }
    Ok(game)
}

/// Write the grid out as its 81 raw cell values, row-major.
pub fn encode(game: &Game) -> (r: Vec<u8>)
    ensures
        r@ == game@,
{
    let cells = game.to_array();
    let mut r: Vec<u8> = Vec::new();
    for i in 0..81usize
        invariant
            cells@ == game@,
            r@.len() == i,
            forall|p: int| 0 <= p < i ==> r@[p] == cells@[p],
    {
        r.push(cells[i]);
    }
    proof {
        assert(r@ =~= game@);
    }
    r
}

/// The encoding round trip: decoding the values of any well-formed grid
/// yields exactly that grid, and in particular `decode` returns `Ok` on
/// everything `encode` produces.
pub proof fn lemma_round_trip(g: Seq<u8>)
    requires
        grid_wf(g),
    ensures
        spec_decode(g) == Ok::<Seq<u8>, Error>(g),
{
}

} // verus!
