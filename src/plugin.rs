//! Sizing a map from the number of players.
use vstd::prelude::*;

verus! {

/// Settings of the map for a game: whether it is drawn.
pub struct MapPlugin {
    pub draw: bool,
}

/// The player count, rounded up to an even number.
pub open spec fn even_players(player_count: int) -> int {
    if player_count % 2 == 1 {
        player_count + 1
    } else {
        player_count
    }
}

/// `d` is the largest divisor of `p` whose square does not exceed `p`.
pub open spec fn is_split_divisor(p: int, d: int) -> bool {
    &&& 1 <= d
    &&& d * d <= p
    &&& p % d == 0
    &&& forall|i: int| d < i && #[trigger] (i * i) <= p ==> p % i != 0
}

/// The grid for `p` players with `player_space` cells a side for each, split
/// by the divisor `d`: `(p / d * player_space, d * player_space)`.
pub open spec fn map_size(p: int, d: int, player_space: int) -> (int, int) {
    ((p / d) * player_space, d * player_space)
}

impl MapPlugin {
    /// Width and height of a map for `player_count` players (rounded up to an
    /// even count `p`), each given `player_space` cells a side: the players are
    /// laid out in `p / d` columns and `d` rows, with `d` the largest divisor of
    /// `p` not above its square root.
    pub fn calculate_map_size(player_count: usize, player_space: usize) -> (r: (usize, usize))
        requires
            1 <= player_count < usize::MAX,
            even_players(player_count as int) * player_space <= usize::MAX,
        ensures
            exists|d: int|
                is_split_divisor(even_players(player_count as int), d) && (r.0 as int, r.1 as int) == #[trigger] map_size(
                    even_players(player_count as int),
                    d,
                    player_space as int,
                ),
    {
        let ghost count = player_count as int;
        let player_count = if player_count % 2 == 1 {
            player_count + 1
        } else {
            player_count
        };
        let ghost p = player_count as int;
        let mut divisor: usize = 1;
        let mut i: usize = 1;
        while i <= player_count / i
            invariant
                p == player_count,
                1 <= p,
                1 <= divisor < i + 1,
                1 <= i <= p + 1,
                divisor * divisor <= p,
                p % (divisor as int) == 0,
                forall|j: int| divisor < j < i ==> #[trigger] (p % j) != 0,
            decreases p + 1 - i,
        {
            proof {
                vstd::arithmetic::div_mod::lemma_fundamental_div_mod(p, i as int);
                assert(i * i <= p) by (nonlinear_arith)
                    requires
                        i <= p / (i as int),
                        p == i * (p / (i as int)) + p % (i as int),
                        0 <= p % (i as int),
                        1 <= i,
                ;
                assert(i < usize::MAX) by (nonlinear_arith)
                    requires
                        i * i <= p,
                        p <= usize::MAX,
                        1 <= i,
                ;
            }
            if player_count % i == 0 {
                divisor = i;
            }
            i += 1;
        }
        proof {
            vstd::arithmetic::div_mod::lemma_fundamental_div_mod(p, i as int);
            assert(p < i * i) by (nonlinear_arith)
                requires
                    i > p / (i as int),
                    p == i * (p / (i as int)) + p % (i as int),
                    p % (i as int) < i,
                    1 <= i,
            ;
            assert forall|j: int| divisor < j && #[trigger] (j * j) <= p implies p % j != 0 by {
                if j >= i {
                    assert(j * j >= i * i) by (nonlinear_arith)
                        requires
                            j >= i,
                            i >= 1,
                    ;
                }
            }
            assert(is_split_divisor(p, divisor as int));
            assert(p == even_players(count));
            vstd::arithmetic::div_mod::lemma_div_pos_is_pos(p, divisor as int);
            assert(p / (divisor as int) <= p) by {
                vstd::arithmetic::div_mod::lemma_div_is_ordered_by_denominator(p, 1, divisor as int);
            }
            assert(divisor <= p) by (nonlinear_arith)
                requires
                    divisor * divisor <= p,
                    1 <= divisor,
            ;
            let q = p / (divisor as int);
            let s = player_space as int;
            assert(q * s <= p * s && divisor * s <= p * s) by (nonlinear_arith)
                requires
                    q <= p,
                    divisor <= p,
                    0 <= s,
                    0 <= q,
            ;
        }
        let width = player_count / divisor * player_space;
        let height = divisor * player_space;
        proof {
            assert((width as int, height as int) == map_size(even_players(count), divisor as int, player_space as int));
        }
        (width, height)
    }
}

} // verus!
