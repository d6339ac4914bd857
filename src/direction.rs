//! Direction of travel of a route variant, and the feed's direction tokens.

use crate::text::same_text;
use vstd::prelude::*;

verus! {

/// Direction of travel along a route.
#[derive(Clone, Copy, Debug, PartialEq, Eq, Structural)]
pub enum Direction {
    Inbound,
    Outbound,
}

impl Direction {
    /// The direction's name as queries and the route-stop feed spell it.
    pub fn name(self) -> (r: &'static str)
        ensures
            r@ == match self {
                Direction::Inbound => seq!['i', 'n', 'b', 'o', 'u', 'n', 'd'],
                Direction::Outbound => seq!['o', 'u', 't', 'b', 'o', 'u', 'n', 'd'],
            },
    {
        proof {
            reveal_strlit("inbound");
            reveal_strlit("outbound");
        }
        match self {
            Direction::Inbound => {
                assert("inbound"@ =~= seq!['i', 'n', 'b', 'o', 'u', 'n', 'd']);
                "inbound"
            },
            Direction::Outbound => {
                assert("outbound"@ =~= seq!['o', 'u', 't', 'b', 'o', 'u', 'n', 'd']);
                "outbound"
            },
        }
    }
}

/// The direction a feed token names: `"O"` outbound, `"I"` inbound, any other
/// token none.
pub open spec fn token_direction(token: Seq<char>) -> Option<Direction> {
    if token == seq!['O'] {
        Some(Direction::Outbound)
    } else if token == seq!['I'] {
        Some(Direction::Inbound)
    } else {
        None
    }
}

/// Whether a record carrying `token` belongs to a query for direction `d`.
pub open spec fn token_matches(token: Seq<char>, d: Direction) -> bool {
    token_direction(token) == Some(d)
}

/// Maps a feed direction token to a direction; a token other than `"O"` and
/// `"I"` names no direction.
pub fn direction_of_token(token: &str) -> (r: Option<Direction>)
    ensures
        r == token_direction(token@),
{
    proof {
        reveal_strlit("O");
        reveal_strlit("I");
        assert("O"@ =~= seq!['O']);
        assert("I"@ =~= seq!['I']);
    }
    if same_text(token, "O") {
        Some(Direction::Outbound)
    } else if same_text(token, "I") {
        Some(Direction::Inbound)
    } else {
        None
    }
}

/// Only `"O"` and `"I"` name a direction, and a record with any other token
/// matches neither an inbound nor an outbound query.
pub proof fn lemma_token_mapping(token: Seq<char>)
    ensures
        token == seq!['O'] <==> token_direction(token) == Some(Direction::Outbound),
        token == seq!['I'] <==> token_direction(token) == Some(Direction::Inbound),
        token != seq!['O'] && token != seq!['I'] ==> {
            &&& !token_matches(token, Direction::Inbound)
            &&& !token_matches(token, Direction::Outbound)
        },
{
    assert(seq!['O'][0] != seq!['I'][0]);
}

} // verus!
