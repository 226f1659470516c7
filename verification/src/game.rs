//! Heads-up no-limit hold'em game state with a configurable betting grid.
use vstd::prelude::*;
use std::sync::Arc;
use crate::card::{Card, Hand};
use crate::text::{append_int, int_text};

verus! {

// ---------------------------------------------------------------------------
// Types
// ---------------------------------------------------------------------------

pub type Player = u8;

/// Out of position: small blind preflop, first to act postflop.
pub const OOP: Player = 0;

/// In position: big blind preflop, last to act postflop.
pub const IP: Player = 1;

#[derive(Debug, Clone, Copy, PartialEq, Eq, Structural, Hash)]
pub enum Street {
    Preflop,
    Flop,
    Turn,
    River,
}

impl Street {
    pub open spec fn spec_next(self) -> Option<Street> {
        match self {
            Street::Preflop => Some(Street::Flop),
            Street::Flop => Some(Street::Turn),
            Street::Turn => Some(Street::River),
            Street::River => None,
        }
    }

    pub open spec fn spec_index(self) -> usize {
        match self {
            Street::Preflop => 0,
            Street::Flop => 1,
            Street::Turn => 2,
            Street::River => 3,
        }
    }

    /// The street that follows, if any.
    pub fn next(self) -> (r: Option<Street>)
        ensures
            r == self.spec_next(),
    {
        match self {
            Street::Preflop => Some(Street::Flop),
            Street::Flop => Some(Street::Turn),
            Street::Turn => Some(Street::River),
            Street::River => None,
        }
    }

    /// Position of the street: preflop 0, flop 1, turn 2, river 3.
    pub fn index(self) -> (i: usize)
        ensures
            i == self.spec_index(),
            i < 4,
    {
        match self {
            Street::Preflop => 0,
            Street::Flop => 1,
            Street::Turn => 2,
            Street::River => 3,
        }
    }
}

/// The streets follow one another in index order, and only the river has no successor.
pub proof fn law_street_order(s: Street)
    ensures
        s.spec_next() is None <==> s == Street::River,
        s.spec_next() matches Some(t) ==> t.spec_index() == s.spec_index() + 1,
{
}

#[derive(Debug, Clone, Copy, PartialEq, Eq, Structural, Hash)]
pub enum BetSize {
    /// Fraction `numerator / denominator` of the pot.
    Frac(i32, i32),
    /// Fixed number of big blinds (preflop opens).
    Bb(i32),
}

#[derive(Debug, Clone, Copy, PartialEq, Eq, Structural, Hash)]
pub enum Action {
    Fold,
    Check,
    Call,
    Bet(BetSize),
    AllIn,
}

impl Action {
    /// Bets, raises and all-ins are aggressive.
    pub fn is_aggressive(&self) -> (b: bool)
        ensures
            b == (*self is Bet || *self is AllIn),
    {
        match self {
            Action::Bet(_) | Action::AllIn => true,
            _ => false,
        }
    }

    /// Text of the action: "fold", "check", "call", "bet 3x", "bet 75%", "bet 1/3",
    /// "bet 2bb" or "allin".
    pub open spec fn spec_text(self) -> Seq<char> {
        match self {
            Action::Fold => "fold"@,
            Action::Check => "check"@,
            Action::Call => "call"@,
            Action::Bet(BetSize::Frac(n, d)) => if d == 1 {
                "bet "@ + int_text(n as int) + "x"@
            } else if d == 100 {
                "bet "@ + int_text(n as int) + "%"@
            } else {
                "bet "@ + int_text(n as int) + "/"@ + int_text(d as int)
            },
            Action::Bet(BetSize::Bb(bb)) => "bet "@ + int_text(bb as int) + "bb"@,
            Action::AllIn => "allin"@,
        }
    }

    /// Human-readable text of the action (see `spec_text`).
    pub fn to_string(&self) -> (s: String)
        ensures
            s@ == self.spec_text(),
    {
        match self {
            Action::Fold => String::from_str("fold"),
            Action::Check => String::from_str("check"),
            Action::Call => String::from_str("call"),
            Action::Bet(BetSize::Frac(n, d)) => {
                let mut s = String::from_str("bet ");
                append_int(&mut s, *n);
                if *d == 1 {
                    s.append("x");
                } else if *d == 100 {
                    s.append("%");
                } else {
                    s.append("/");
                    append_int(&mut s, *d);
                }
                s
            },
            Action::Bet(BetSize::Bb(bb)) => {
                let mut s = String::from_str("bet ");
                append_int(&mut s, *bb);
                s.append("bb");
                s
            },
            Action::AllIn => String::from_str("allin"),
        }
    }
}

#[derive(Debug, Clone, Copy, PartialEq, Eq, Structural)]
pub enum TerminalType {
    /// The player who folded.
    Fold(Player),
    Showdown,
}

#[derive(Debug, Clone, Copy, PartialEq, Eq, Structural)]
pub enum NodeType {
    Terminal(TerminalType),
    /// Deal the next street.
    Chance(Street),
    Decision(Player),
}

// ---------------------------------------------------------------------------
// Bet amounts
// ---------------------------------------------------------------------------

/// `num / d` rounded to the nearest integer, a tie going to the even neighbour
/// (banker's rounding).
pub open spec fn round_half_even(num: int, d: int) -> int {
    let a = if d > 0 { num } else { -num };
    let b = if d > 0 { d } else { -d };
    let q = a / b;
    let r = a % b;
    if 2 * r < b {
        q
    } else if 2 * r > b {
        q + 1
    } else if q % 2 == 0 {
        q
    } else {
        q + 1
    }
}

/// Floor division and remainder of `a` by a positive `b`.
fn floor_div_rem(a: i64, b: i64) -> (qr: (i64, i64))
    requires
        b > 0,
        a > i64::MIN,
    ensures
        qr.0 == a as int / b as int,
        qr.1 == a as int % b as int,
{
    let ub = b as u64;
    if a >= 0 {
        let ua = a as u64;
        let q = ua / ub;
        let r = ua % ub;
        proof {
            assert(q <= ua) by (nonlinear_arith)
                requires
                    q == ua / ub,
                    ub >= 1,
            ;
        }
        (q as i64, r as i64)
    } else {
        let ua = (-a) as u64;
        let q0 = ua / ub;
        let r0 = ua % ub;
        proof {
            assert(q0 <= ua) by (nonlinear_arith)
                requires
                    q0 == ua / ub,
                    ub >= 1,
            ;
            vstd::arithmetic::div_mod::lemma_fundamental_div_mod(ua as int, ub as int);
        }
        if r0 == 0 {
            let q = -(q0 as i64);
            proof {
                assert(a == q * b + 0) by (nonlinear_arith)
                    requires
                        ua == -a,
                        ua == ub * q0 + 0,
                        q == -q0,
                        b == ub,
                ;
                vstd::arithmetic::div_mod::lemma_fundamental_div_mod_converse(
                    a as int,
                    b as int,
                    q as int,
                    0,
                );
            }
            (q, 0)
        } else {
            let q = -(q0 as i64) - 1;
            let r = b - (r0 as i64);
            proof {
                assert(a == q * b + r) by (nonlinear_arith)
                    requires
                        ua == -a,
                        ua == ub * q0 + r0,
                        q == -q0 - 1,
                        r == b - r0,
                        b == ub,
                ;
                vstd::arithmetic::div_mod::lemma_fundamental_div_mod_converse(
                    a as int,
                    b as int,
                    q as int,
                    r as int,
                );
            }
            (q, r)
        }
    }
}

/// `num / d` with banker's rounding, computed exactly.
fn div_round_half_even(num: i64, d: i64) -> (r: i64)
    requires
        d != 0,
        -0x4000_0000_0000_0000 <= num <= 0x4000_0000_0000_0000,
        -0x8000_0000 <= d <= 0x8000_0000,
    ensures
        r == round_half_even(num as int, d as int),
{
    let a = if d > 0 {
        num
    } else {
        -num
    };
    let b = if d > 0 {
        d
    } else {
        -d
    };
    let (q, rem) = floor_div_rem(a, b);
    proof {
        vstd::arithmetic::div_mod::lemma_fundamental_div_mod(a as int, b as int);
        assert(-0x4000_0000_0000_0000 <= q <= 0x4000_0000_0000_0000) by (nonlinear_arith)
            requires
                a == b * q + rem,
                0 <= rem < b,
                b >= 1,
                -0x4000_0000_0000_0000 <= a <= 0x4000_0000_0000_0000,
        ;
    }
    if 2 * rem < b {
        q
    } else if 2 * rem > b {
        q + 1
    } else {
        let (_, parity) = floor_div_rem(q, 2);
        if parity == 0 {
            q
        } else {
            q + 1
        }
    }
}

/// Chips of a bet of `size` into `pot`: a fraction of the pot rounds to the nearest chip,
/// a tie going to the even amount (banker's rounding); a big-blind size is taken as is.
pub open spec fn spec_bet_amount(size: BetSize, pot: int) -> i32 {
    match size {
        BetSize::Frac(n, d) => round_half_even(pot * n, d as int) as i32,
        BetSize::Bb(bb) => bb,
    }
}

/// A size that can be computed: a fraction's denominator is not zero.
pub open spec fn size_ok(size: BetSize) -> bool {
    match size {
        BetSize::Frac(_, d) => d != 0,
        BetSize::Bb(_) => true,
    }
}

/// Compute the bet amount in chips from a `BetSize` and the current pot.
fn compute_bet_amount(size: BetSize, pot: i32) -> (r: i32)
    requires
        size_ok(size),
    ensures
        r == spec_bet_amount(size, pot as int),
{
    match size {
        BetSize::Frac(n, d) => {
            let p64 = pot as i64;
            let n64 = n as i64;
            proof {
                assert(-0x4000_0000_0000_0000 <= p64 * n64 <= 0x4000_0000_0000_0000)
                    by (nonlinear_arith)
                    requires
                        -0x8000_0000 <= p64 <= 0x8000_0000,
                        -0x8000_0000 <= n64 <= 0x8000_0000,
                ;
            }
            let num = p64 * n64;
            #[verifier::truncate]
            (div_round_half_even(num, d as i64) as i32)
        },
        BetSize::Bb(bb) => bb,
    }
}

// ---------------------------------------------------------------------------
// BetConfig: configurable bet sizes
// ---------------------------------------------------------------------------

/// A non-negative ratio `num / den`. With `den == 0` a positive `num` stands for an
/// unbounded value and `0 / 0` for no value at all: every comparison with it fails.
#[derive(Debug, Clone, Copy, PartialEq, Eq, Structural)]
pub struct Ratio {
    pub num: u64,
    pub den: u64,
}

impl Ratio {
    /// The ratio is zero (an unbounded or missing value is not).
    pub open spec fn spec_is_zero(self) -> bool {
        self.num == 0 && self.den > 0
    }

    /// The ratio is above zero (an unbounded value is).
    pub open spec fn spec_is_positive(self) -> bool {
        self.num > 0
    }

    /// `x >= y * (num / den)`. An unbounded ratio times a negative `y` is below every
    /// `x`, times zero it has no value, times a positive `y` it is above every `x`.
    pub open spec fn spec_reaches(self, y: int, x: int) -> bool {
        if self.den > 0 {
            x * self.den >= y * self.num
        } else {
            self.num > 0 && y < 0
        }
    }

    /// `x <= y * (num / den)`. An unbounded ratio times a positive `y` is above every
    /// `x`, times zero it has no value, times a negative `y` it is below every `x`.
    pub open spec fn spec_covers(self, y: int, x: int) -> bool {
        if self.den > 0 {
            x * self.den <= y * self.num
        } else {
            self.num > 0 && y > 0
        }
    }

    /// Whether the ratio is zero.
    pub fn is_zero(&self) -> (b: bool)
        ensures
            b == self.spec_is_zero(),
    {
        self.num == 0 && self.den > 0
    }

    /// Whether `x >= y * self`, computed exactly.
    pub fn reaches(&self, y: i64, x: i64) -> (b: bool)
        requires
            -0x4000_0000_0000_0000 <= x <= 0x4000_0000_0000_0000,
            -0x4000_0000_0000_0000 <= y <= 0x4000_0000_0000_0000,
        ensures
            b == self.spec_reaches(y as int, x as int),
    {
        if self.den == 0 {
            return self.num > 0 && y < 0;
        }
        let (l, r) = scaled_pair(x, self.den, y, self.num);
        l >= r
    }

    /// Whether `x <= y * self`, computed exactly.
    pub fn covers(&self, y: i64, x: i64) -> (b: bool)
        requires
            -0x4000_0000_0000_0000 <= x <= 0x4000_0000_0000_0000,
            -0x4000_0000_0000_0000 <= y <= 0x4000_0000_0000_0000,
        ensures
            b == self.spec_covers(y as int, x as int),
    {
        if self.den == 0 {
            return self.num > 0 && y > 0;
        }
        let (l, r) = scaled_pair(x, self.den, y, self.num);
        l <= r
    }
}

/// The products `x * a` and `y * b`, exactly.
fn scaled_pair(x: i64, a: u64, y: i64, b: u64) -> (r: (i128, i128))
    requires
        -0x4000_0000_0000_0000 <= x <= 0x4000_0000_0000_0000,
        -0x4000_0000_0000_0000 <= y <= 0x4000_0000_0000_0000,
    ensures
        r.0 == x * a,
        r.1 == y * b,
{
    let x128 = x as i128;
    let y128 = y as i128;
    let a128 = a as i128;
    let b128 = b as i128;
    proof {
        assert(-0x4000_0000_0000_0000_0000_0000_0000_0000 <= x128 * a128
            <= 0x4000_0000_0000_0000_0000_0000_0000_0000) by (nonlinear_arith)
            requires
                -0x4000_0000_0000_0000 <= x128 <= 0x4000_0000_0000_0000,
                0 <= a128 <= 0x1_0000_0000_0000_0000,
        ;
        assert(-0x4000_0000_0000_0000_0000_0000_0000_0000 <= y128 * b128
            <= 0x4000_0000_0000_0000_0000_0000_0000_0000) by (nonlinear_arith)
            requires
                -0x4000_0000_0000_0000 <= y128 <= 0x4000_0000_0000_0000,
                0 <= b128 <= 0x1_0000_0000_0000_0000,
        ;
    }
    (x128 * a128, y128 * b128)
}

/// Configurable bet sizes for the game tree. For each street, sizes at each depth
/// (0 = first bet, 1 = raise, 2+ = reraise); the last depth applies to deeper raises.
#[derive(Debug)]
pub struct BetConfig {
    /// `sizes[street_idx][depth]`: street_idx 0 = preflop, 1 = flop, 2 = turn, 3 = river.
    pub sizes: [Vec<Vec<BetSize>>; 4],
    pub max_raises: u8,
    /// All-in threshold: a bet or raise that uses at least this fraction of the player's
    /// remaining stack collapses to all-in. Zero disables.
    pub allin_threshold: Ratio,
    /// All-in pot ratio: the all-in action is offered only when the remaining stack is at
    /// most this multiple of the current pot (unless some sized bet needs it). Zero = always.
    pub allin_pot_ratio: Ratio,
    /// Donk bets off: OOP may only check when first to act on the flop.
    pub no_donk: bool,
    /// With only two bets left before the cap, use the geometric size to all-in.
    pub geometric_2bets: bool,
    /// Per-player overrides: `player_sizes[player][street]` replaces `sizes` for that player.
    pub player_sizes: [Option<[Vec<Vec<BetSize>>; 4]>; 2],
}

/// The sizes at each depth, as sequences.
pub open spec fn depth_view(d: Vec<Vec<BetSize>>) -> Seq<Seq<BetSize>> {
    d@.map_values(|v: Vec<BetSize>| v@)
}

/// The sizes for `depth`: the deepest list covers all deeper raises; none when empty.
pub open spec fn pick_depth(depths: Seq<Seq<BetSize>>, depth: u8) -> Option<Seq<BetSize>> {
    if depths.len() == 0 {
        None
    } else if depth < depths.len() {
        Some(depths[depth as int])
    } else {
        Some(depths[depths.len() - 1])
    }
}

impl BetConfig {
    /// Bet sizes of `player` at `street` and `depth`: the player's override for the street
    /// when it has one with at least one depth, otherwise the shared sizes.
    pub open spec fn spec_bet_sizes(self, street: Street, depth: u8, player: Player) -> Seq<BetSize> {
        let idx = street.spec_index() as int;
        let shared = match pick_depth(self.shared_depths(idx), depth) {
            Some(s) => s,
            None => Seq::empty(),
        };
        if player < 2 {
            match self.player_depths(player as int, idx) {
                Some(depths) => match pick_depth(depths, depth) {
                    Some(s) => s,
                    None => shared,
                },
                None => shared,
            }
        } else {
            shared
        }
    }

    /// The shared sizes of street `idx`, by depth.
    pub open spec fn shared_depths(self, idx: int) -> Seq<Seq<BetSize>> {
        depth_view(self.sizes[idx])
    }

    /// `player`'s override sizes of street `idx`, by depth, when the player has overrides.
    pub open spec fn player_depths(self, player: int, idx: int) -> Option<Seq<Seq<BetSize>>> {
        match self.player_sizes[player] {
            Some(streets) => Some(depth_view(streets[idx])),
            None => None,
        }
    }

    /// The two configurations hold the same grid and settings.
    pub open spec fn same_grid(self, other: BetConfig) -> bool {
        &&& forall|i: int| 0 <= i < 4 ==> #[trigger] self.shared_depths(i) == other.shared_depths(i)
        &&& forall|p: int, i: int|
            0 <= p < 2 && 0 <= i < 4 ==> #[trigger] self.player_depths(p, i) == other.player_depths(p, i)
        &&& self.max_raises == other.max_raises
        &&& self.allin_threshold == other.allin_threshold
        &&& self.allin_pot_ratio == other.allin_pot_ratio
        &&& self.no_donk == other.no_donk
        &&& self.geometric_2bets == other.geometric_2bets
    }

    /// Get bet sizes for a given street, depth, and player.
    pub fn bet_sizes(&self, street: Street, depth: u8, player: Player) -> (r: &[BetSize])
        ensures
            r@ == self.spec_bet_sizes(street, depth, player),
    {
        let idx = street.index();
        let player_idx = player as usize;
        if player_idx < 2 {
            if let Some(player_streets) = &self.player_sizes[player_idx] {
                let depths = &player_streets[idx];
                if depths.len() > 0 {
                    let d = if (depth as usize) < depths.len() {
                        depth as usize
                    } else {
                        depths.len() - 1
                    };
                    return depths[d].as_slice();
                }
            }
        }
        let depths = &self.sizes[idx];
        if depths.len() > 0 {
            let d = if (depth as usize) < depths.len() {
                depth as usize
            } else {
                depths.len() - 1
            };
            depths[d].as_slice()
        } else {
            empty_sizes()
        }
    }
}

fn empty_sizes() -> (r: &'static [BetSize])
    ensures
        r@ == Seq::<BetSize>::empty(),
{
    let v: &[BetSize; 0] = &[];
    v.as_slice()
}

// ---------------------------------------------------------------------------
// Default sizes
// ---------------------------------------------------------------------------

/// Raises allowed per street when no configuration is given.
pub const DEFAULT_MAX_RAISES: u8 = 3;

/// The default sizes of street `idx` at each depth (flop 33% is 33/100, not 1/3).
pub open spec fn default_sizes(idx: int) -> Seq<Seq<BetSize>> {
    if idx == 0 {
        seq![
            seq![BetSize::Bb(2), BetSize::Bb(3), BetSize::Bb(4), BetSize::Bb(8)],
            seq![BetSize::Frac(1, 1), BetSize::Frac(3, 2), BetSize::Frac(2, 1)],
            seq![BetSize::Frac(1, 1), BetSize::Frac(2, 1)],
        ]
    } else if idx == 1 {
        seq![
            seq![BetSize::Frac(33, 100), BetSize::Frac(1, 2), BetSize::Frac(1, 1), BetSize::Frac(2, 1)],
            seq![BetSize::Frac(67, 100), BetSize::Frac(1, 1), BetSize::Frac(3, 2)],
            seq![BetSize::Frac(1, 1), BetSize::Frac(3, 2)],
        ]
    } else if idx == 2 {
        seq![
            seq![BetSize::Frac(33, 100), BetSize::Frac(67, 100), BetSize::Frac(1, 1), BetSize::Frac(2, 1)],
            seq![BetSize::Frac(1, 1), BetSize::Frac(3, 2)],
        ]
    } else {
        seq![
            seq![BetSize::Frac(33, 100), BetSize::Frac(1, 2), BetSize::Frac(1, 1), BetSize::Frac(2, 1)],
            seq![BetSize::Frac(67, 100), BetSize::Frac(1, 1), BetSize::Frac(2, 1)],
            seq![BetSize::Frac(1, 1)],
        ]
    }
}

/// Appends the sizes of one more depth.
pub fn push_depth(depths: &mut Vec<Vec<BetSize>>, sizes: Vec<BetSize>)
    ensures
        depth_view(*final(depths)) == depth_view(*old(depths)).push(sizes@),
{
    depths.push(sizes);
    assert(depth_view(*depths) =~= depth_view(*old(depths)).push(sizes@));
}

/// The default sizes of one street, by depth.
fn default_street_sizes(idx: usize) -> (r: Vec<Vec<BetSize>>)
    requires
        idx < 4,
    ensures
        depth_view(r) == default_sizes(idx as int),
{
    let mut r: Vec<Vec<BetSize>> = Vec::new();
    if idx == 0 {
        let v = vec![BetSize::Bb(2), BetSize::Bb(3), BetSize::Bb(4), BetSize::Bb(8)];
        assert(v@ =~= seq![BetSize::Bb(2), BetSize::Bb(3), BetSize::Bb(4), BetSize::Bb(8)]);
        push_depth(&mut r, v);
        let v = vec![BetSize::Frac(1, 1), BetSize::Frac(3, 2), BetSize::Frac(2, 1)];
        assert(v@ =~= seq![BetSize::Frac(1, 1), BetSize::Frac(3, 2), BetSize::Frac(2, 1)]);
        push_depth(&mut r, v);
        let v = vec![BetSize::Frac(1, 1), BetSize::Frac(2, 1)];
        assert(v@ =~= seq![BetSize::Frac(1, 1), BetSize::Frac(2, 1)]);
        push_depth(&mut r, v);
    } else if idx == 1 {
        let v = vec![BetSize::Frac(33, 100), BetSize::Frac(1, 2), BetSize::Frac(1, 1), BetSize::Frac(2, 1)];
        assert(v@ =~= seq![BetSize::Frac(33, 100), BetSize::Frac(1, 2), BetSize::Frac(1, 1), BetSize::Frac(2, 1)]);
        push_depth(&mut r, v);
        let v = vec![BetSize::Frac(67, 100), BetSize::Frac(1, 1), BetSize::Frac(3, 2)];
        assert(v@ =~= seq![BetSize::Frac(67, 100), BetSize::Frac(1, 1), BetSize::Frac(3, 2)]);
        push_depth(&mut r, v);
        let v = vec![BetSize::Frac(1, 1), BetSize::Frac(3, 2)];
        assert(v@ =~= seq![BetSize::Frac(1, 1), BetSize::Frac(3, 2)]);
        push_depth(&mut r, v);
    } else if idx == 2 {
        let v = vec![BetSize::Frac(33, 100), BetSize::Frac(67, 100), BetSize::Frac(1, 1), BetSize::Frac(2, 1)];
        assert(v@ =~= seq![BetSize::Frac(33, 100), BetSize::Frac(67, 100), BetSize::Frac(1, 1), BetSize::Frac(2, 1)]);
        push_depth(&mut r, v);
        let v = vec![BetSize::Frac(1, 1), BetSize::Frac(3, 2)];
        assert(v@ =~= seq![BetSize::Frac(1, 1), BetSize::Frac(3, 2)]);
        push_depth(&mut r, v);
    } else {
        let v = vec![BetSize::Frac(33, 100), BetSize::Frac(1, 2), BetSize::Frac(1, 1), BetSize::Frac(2, 1)];
        assert(v@ =~= seq![BetSize::Frac(33, 100), BetSize::Frac(1, 2), BetSize::Frac(1, 1), BetSize::Frac(2, 1)]);
        push_depth(&mut r, v);
        let v = vec![BetSize::Frac(67, 100), BetSize::Frac(1, 1), BetSize::Frac(2, 1)];
        assert(v@ =~= seq![BetSize::Frac(67, 100), BetSize::Frac(1, 1), BetSize::Frac(2, 1)]);
        push_depth(&mut r, v);
        let v = vec![BetSize::Frac(1, 1)];
        assert(v@ =~= seq![BetSize::Frac(1, 1)]);
        push_depth(&mut r, v);
    }
    assert(depth_view(r) =~= default_sizes(idx as int));
    r
}

impl Default for BetConfig {
    /// The default betting grid: three raises per street, no all-in collapse, donk bets on,
    /// no geometric sizing, no per-player overrides.
    fn default() -> (c: Self)
        ensures
            forall|i: int| 0 <= i < 4 ==> depth_view(#[trigger] c.sizes[i]) == default_sizes(i),
            c.max_raises == DEFAULT_MAX_RAISES,
            c.allin_threshold.num == 0,
            c.allin_pot_ratio.num == 0,
            !c.no_donk,
            !c.geometric_2bets,
            c.player_sizes[0] is None,
            c.player_sizes[1] is None,
    {
        BetConfig {
            sizes: [
                default_street_sizes(0),
                default_street_sizes(1),
                default_street_sizes(2),
                default_street_sizes(3),
            ],
            max_raises: DEFAULT_MAX_RAISES,
            allin_threshold: Ratio { num: 0, den: 1 },
            allin_pot_ratio: Ratio { num: 0, den: 1 },
            no_donk: false,
            geometric_2bets: false,
            player_sizes: [None, None],
        }
    }
}

/// The default sizes for a street and depth; they are the same for both players.
pub open spec fn spec_default_bet_sizes(street: Street, depth: u8) -> Seq<BetSize> {
    match pick_depth(default_sizes(street.spec_index() as int), depth) {
        Some(s) => s,
        None => Seq::empty(),
    }
}

/// Available bet sizes for the current situation under the default configuration.
fn default_bet_sizes(street: Street, depth: u8) -> (r: Vec<BetSize>)
    ensures
        r@ == spec_default_bet_sizes(street, depth),
{
    let mut depths = default_street_sizes(street.index());
    let n = depths.len();
    let d = if (depth as usize) < n {
        depth as usize
    } else {
        n - 1
    };
    assert(depths@[d as int]@ == depth_view(depths)[d as int]);
    depths.swap_remove(d)
}

// ---------------------------------------------------------------------------
// GameState
// ---------------------------------------------------------------------------

/// Whether `x` fits an `i32`.
pub open spec fn fits_i32(x: int) -> bool {
    i32::MIN <= x <= i32::MAX
}

#[derive(Debug)]
pub struct GameState {
    pub street: Street,
    /// Total pot, excluding the current street's bets.
    pub pot: i32,
    /// Remaining stack behind.
    pub stacks: [i32; 2],
    /// Current street bets.
    pub bets: [i32; 2],
    pub board: Hand,
    pub holes: [Hand; 2],
    pub to_act: Player,
    /// Raises this street.
    pub n_raises: u8,
    /// Both players have acted and the action is closed.
    pub closed: bool,
    pub is_allin: [bool; 2],
    pub actions_this_street: u8,
    pub last_aggressor: Option<Player>,
    /// Who folded, at a fold terminal.
    pub folded: Option<Player>,
    /// Starting stacks, for `invested`.
    pub initial_stacks: [i32; 2],
    /// `None` means the default betting grid.
    pub bet_config: Option<Arc<BetConfig>>,
}

/// `Arc::clone`: another handle to the same configuration. std documents that the clone
/// points to the same allocation, so the value seen through it is the same.
#[verifier::external_body]
fn share_config(c: &Arc<BetConfig>) -> (r: Arc<BetConfig>)
    ensures
        r == *c,
{
    Arc::clone(c)
}

/// The same value in a fresh variable (every field is copied or shares the configuration).
fn copy_config(c: &Option<Arc<BetConfig>>) -> (r: Option<Arc<BetConfig>>)
    ensures
        r == *c,
{
    match c {
        Some(a) => Some(share_config(a)),
        None => None,
    }
}

impl Clone for GameState {
    fn clone(&self) -> (r: Self)
        ensures
            r == *self,
    {
        GameState {
            street: self.street,
            pot: self.pot,
            stacks: self.stacks,
            bets: self.bets,
            board: self.board,
            holes: self.holes,
            to_act: self.to_act,
            n_raises: self.n_raises,
            closed: self.closed,
            is_allin: self.is_allin,
            actions_this_street: self.actions_this_street,
            last_aggressor: self.last_aggressor,
            folded: self.folded,
            initial_stacks: self.initial_stacks,
            bet_config: copy_config(&self.bet_config),
        }
    }
}

/// The array with entry `i` replaced by `v`.
pub open spec fn set_i32(a: [i32; 2], i: int, v: i32) -> [i32; 2] {
    if i == 0 {
        [v, a[1]]
    } else {
        [a[0], v]
    }
}

pub open spec fn set_bool(a: [bool; 2], i: int, v: bool) -> [bool; 2] {
    if i == 0 {
        [v, a[1]]
    } else {
        [a[0], v]
    }
}

pub open spec fn set_hand(a: [Hand; 2], i: int, v: Hand) -> [Hand; 2] {
    if i == 0 {
        [v, a[1]]
    } else {
        [a[0], v]
    }
}

/// All chips in play: the pot, both bets and both stacks.
pub open spec fn total_chips(s: GameState) -> int {
    s.pot + s.bets[0] + s.bets[1] + s.stacks[0] + s.stacks[1]
}

impl GameState {
    /// Raises allowed per street under this state's configuration.
    pub open spec fn max_raises_of(self) -> u8 {
        match self.bet_config {
            Some(c) => c.max_raises,
            None => DEFAULT_MAX_RAISES,
        }
    }

    /// The all-in threshold of the configuration (zero by default).
    pub open spec fn threshold_of(self) -> Ratio {
        match self.bet_config {
            Some(c) => c.allin_threshold,
            None => Ratio { num: 0, den: 1 },
        }
    }

    /// The all-in pot ratio of the configuration (zero by default).
    pub open spec fn pot_ratio_of(self) -> Ratio {
        match self.bet_config {
            Some(c) => c.allin_pot_ratio,
            None => Ratio { num: 0, den: 1 },
        }
    }

    pub open spec fn geometric_of(self) -> bool {
        match self.bet_config {
            Some(c) => c.geometric_2bets,
            None => false,
        }
    }

    pub open spec fn no_donk_of(self) -> bool {
        match self.bet_config {
            Some(c) => c.no_donk,
            None => false,
        }
    }

    /// Sizes for the acting player at `depth` on this street.
    pub open spec fn sizes_of(self, depth: u8) -> Seq<BetSize> {
        match self.bet_config {
            Some(c) => c.spec_bet_sizes(self.street, depth, self.to_act),
            None => spec_default_bet_sizes(self.street, depth),
        }
    }

    /// Start of a hand with `stack` big blinds each: SB (OOP) posts 1, BB (IP) posts 2,
    /// and SB acts first. The big blind counts as the first raise.
    pub fn new_hand(stack: i32) -> (g: Self)
        requires
            stack >= i32::MIN + 2,
        ensures
            g.street == Street::Preflop,
            g.pot == 0,
            g.stacks == [(stack - 1) as i32, (stack - 2) as i32],
            g.bets == [1i32, 2i32],
            forall|c: int| !g.board.has(c),
            forall|c: int| !g.holes[0].has(c) && !g.holes[1].has(c),
            g.to_act == OOP,
            g.n_raises == 1,
            !g.closed,
            g.is_allin == [false, false],
            g.actions_this_street == 0,
            g.last_aggressor is None,
            g.folded is None,
            g.initial_stacks == [stack, stack],
            g.bet_config is None,
    {
        GameState {
            street: Street::Preflop,
            pot: 0,
            stacks: [stack - 1, stack - 2],
            bets: [1, 2],
            board: Hand::new(),
            holes: [Hand::new(), Hand::new()],
            to_act: OOP,
            n_raises: 1,
            closed: false,
            is_allin: [false, false],
            actions_this_street: 0,
            last_aggressor: None,
            folded: None,
            initial_stacks: [stack, stack],
            bet_config: None,
        }
    }

    /// A postflop state for subgame solving: no bets yet, OOP to act, default grid.
    pub fn new_postflop(street: Street, pot: i32, stacks: [i32; 2], board: Hand) -> (g: Self)
        ensures
            g.street == street,
            g.pot == pot,
            g.stacks == stacks,
            g.bets == [0i32, 0i32],
            g.board == board,
            forall|c: int| !g.holes[0].has(c) && !g.holes[1].has(c),
            g.to_act == OOP,
            g.n_raises == 0,
            !g.closed,
            g.is_allin == [false, false],
            g.actions_this_street == 0,
            g.last_aggressor is None,
            g.folded is None,
            g.initial_stacks == stacks,
            g.bet_config is None,
    {
        GameState {
            street,
            pot,
            stacks,
            bets: [0, 0],
            board,
            holes: [Hand::new(), Hand::new()],
            to_act: OOP,
            n_raises: 0,
            closed: false,
            is_allin: [false, false],
            actions_this_street: 0,
            last_aggressor: None,
            folded: None,
            initial_stacks: stacks,
            bet_config: None,
        }
    }

    /// A postflop state with a custom betting grid.
    pub fn new_postflop_with_bets(
        street: Street,
        pot: i32,
        stacks: [i32; 2],
        board: Hand,
        bet_config: Arc<BetConfig>,
    ) -> (g: Self)
        ensures
            g.street == street,
            g.pot == pot,
            g.stacks == stacks,
            g.bets == [0i32, 0i32],
            g.board == board,
            forall|c: int| !g.holes[0].has(c) && !g.holes[1].has(c),
            g.to_act == OOP,
            g.n_raises == 0,
            !g.closed,
            g.is_allin == [false, false],
            g.actions_this_street == 0,
            g.last_aggressor is None,
            g.folded is None,
            g.initial_stacks == stacks,
            g.bet_config == Some(bet_config),
    {
        let mut state = Self::new_postflop(street, pot, stacks, board);
        state.bet_config = Some(bet_config);
        state
    }

    /// What kind of node this state is: a fold ends the hand; when the action is closed
    /// (or both players are all in) the next street is dealt, or after the river there is
    /// a showdown; otherwise the player to act decides.
    pub open spec fn spec_node_type(self) -> NodeType {
        match self.folded {
            Some(folder) => NodeType::Terminal(TerminalType::Fold(folder)),
            None => if (self.is_allin[0] && self.is_allin[1]) || self.closed {
                match self.street.spec_next() {
                    Some(next) => NodeType::Chance(next),
                    None => NodeType::Terminal(TerminalType::Showdown),
                }
            } else {
                NodeType::Decision(self.to_act)
            },
        }
    }

    /// Classify the current node.
    pub fn node_type(&self) -> (t: NodeType)
        ensures
            t == self.spec_node_type(),
    {
        if let Some(folder) = self.folded {
            return NodeType::Terminal(TerminalType::Fold(folder));
        }
        // Both all in: run out the board.
        if self.is_allin[0] && self.is_allin[1] {
            if self.street == Street::River {
                return NodeType::Terminal(TerminalType::Showdown);
            }
            return NodeType::Chance(self.street.next().unwrap());
        }
        // One all in and the other called: run out the board.
        if (self.is_allin[0] || self.is_allin[1]) && self.closed {
            if self.street == Street::River {
                return NodeType::Terminal(TerminalType::Showdown);
            }
            return NodeType::Chance(self.street.next().unwrap());
        }
        // Both acted and the bets are level.
        if self.closed {
            if self.street == Street::River {
                return NodeType::Terminal(TerminalType::Showdown);
            }
            return NodeType::Chance(self.street.next().unwrap());
        }
        NodeType::Decision(self.to_act)
    }

    /// Chips `player` has put in since the game or subgame started.
    pub open spec fn spec_invested(self, player: Player) -> int {
        self.initial_stacks[player as int] - self.stacks[player as int]
    }

    /// How much a player has invested since the game or subgame started.
    pub fn invested(&self, player: Player) -> (r: i32)
        requires
            player < 2,
            fits_i32(self.spec_invested(player)),
        ensures
            r == self.spec_invested(player),
    {
        let p = player as usize;
        self.initial_stacks[p] - self.stacks[p]
    }

    /// The state with `p`'s hole cards set.
    pub fn set_holes(&self, p: Player, hole: Hand) -> (s: GameState)
        requires
            p < 2,
        ensures
            s == (GameState { holes: set_hand(self.holes, p as int, hole), ..*self }),
    {
        let mut s = self.clone();
        s.holes[p as usize] = hole;
        assert(s.holes =~= set_hand(self.holes, p as int, hole));
        s
    }
}

/// The hand with `cards` added in order.
pub open spec fn add_cards(h: Hand, cards: Seq<u8>) -> Hand
    decreases cards.len(),
{
    if cards.len() == 0 {
        h
    } else {
        add_cards(h, cards.drop_last()).spec_add(cards.last())
    }
}

pub open spec fn min_int(a: int, b: int) -> int {
    if a <= b {
        a
    } else {
        b
    }
}

impl GameState {
    /// Pot plus both current bets.
    pub open spec fn current_pot(self) -> int {
        self.pot + self.bets[0] + self.bets[1]
    }

    /// What the player to act must add to match the opponent.
    pub open spec fn to_call(self) -> int {
        self.bets[1 - self.to_act] - self.bets[self.to_act as int]
    }

    /// Chips a bet of `size` costs the player to act: facing a bet it is a raise of `size`
    /// of the pot after calling, on top of the opponent's bet; otherwise `size` of the pot.
    pub open spec fn bet_chips(self, size: BetSize) -> int {
        let p = self.to_act as int;
        let opp_bet = self.bets[1 - p] as int;
        if self.to_call() > 0 {
            opp_bet + spec_bet_amount(size, self.current_pot() + self.to_call()) - self.bets[p]
        } else {
            spec_bet_amount(size, self.current_pot()) as int
        }
    }

    /// The inputs on which `apply` computes within `i32`/`u8` and the player to act is a
    /// player; on all others the arithmetic of the action would overflow.
    pub open spec fn apply_ok(self, action: Action) -> bool {
        let p = self.to_act as int;
        let opp_bet = self.bets[1 - p] as int;
        let my_bet = self.bets[p] as int;
        let my_stack = self.stacks[p] as int;
        &&& self.to_act < 2
        &&& match action {
            Action::Fold => true,
            Action::Check => self.actions_this_street < 255,
            Action::Call => {
                let actual = min_int(self.to_call(), my_stack);
                &&& fits_i32(self.to_call())
                &&& fits_i32(my_stack - actual)
                &&& fits_i32(my_bet + actual)
                &&& self.actions_this_street < 255
            },
            Action::Bet(size) => {
                let pac = self.current_pot() + self.to_call();
                let raise = spec_bet_amount(size, pac) as int;
                let actual = min_int(self.bet_chips(size), my_stack);
                &&& size_ok(size)
                &&& fits_i32(self.pot + self.bets[0])
                &&& fits_i32(self.current_pot())
                &&& fits_i32(self.to_call())
                &&& (self.to_call() > 0 ==> fits_i32(pac) && fits_i32(opp_bet + raise) && fits_i32(
                    opp_bet + raise - my_bet,
                ))
                &&& fits_i32(my_stack - actual)
                &&& fits_i32(my_bet + actual)
                &&& self.actions_this_street < 255
                &&& self.n_raises < 255
            },
            Action::AllIn => {
                &&& fits_i32(my_bet + my_stack)
                &&& fits_i32(self.to_call())
                &&& self.actions_this_street < 255
                &&& (my_stack > self.to_call() ==> self.n_raises < 255)
            },
        }
    }

    /// The state after the player to act takes `action`.
    pub open spec fn spec_apply(self, action: Action) -> GameState {
        let p = self.to_act as int;
        let opp = 1 - p;
        let acted = (self.actions_this_street + 1) as u8;
        match action {
            Action::Fold => GameState { folded: Some(self.to_act), ..self },
            Action::Check => if acted >= 2 || (self.street == Street::Preflop && p == IP
                && self.bets[0] == self.bets[1]) {
                GameState { actions_this_street: acted, closed: true, ..self }
            } else {
                GameState { actions_this_street: acted, to_act: opp as u8, ..self }
            },
            Action::Call => {
                let actual = min_int(self.to_call(), self.stacks[p] as int);
                let stack = (self.stacks[p] - actual) as i32;
                GameState {
                    stacks: set_i32(self.stacks, p, stack),
                    bets: set_i32(self.bets, p, (self.bets[p] + actual) as i32),
                    actions_this_street: acted,
                    is_allin: if stack == 0 {
                        set_bool(self.is_allin, p, true)
                    } else {
                        self.is_allin
                    },
                    closed: true,
                    ..self
                }
            },
            Action::Bet(size) => {
                let actual = min_int(self.bet_chips(size), self.stacks[p] as int);
                let stack = (self.stacks[p] - actual) as i32;
                GameState {
                    stacks: set_i32(self.stacks, p, stack),
                    bets: set_i32(self.bets, p, (self.bets[p] + actual) as i32),
                    actions_this_street: acted,
                    n_raises: (self.n_raises + 1) as u8,
                    last_aggressor: Some(self.to_act),
                    is_allin: if stack == 0 {
                        set_bool(self.is_allin, p, true)
                    } else {
                        self.is_allin
                    },
                    to_act: opp as u8,
                    ..self
                }
            },
            Action::AllIn => {
                let amount = self.stacks[p] as int;
                let raises = amount > self.to_call();
                GameState {
                    bets: set_i32(self.bets, p, (self.bets[p] + amount) as i32),
                    stacks: set_i32(self.stacks, p, 0),
                    is_allin: set_bool(self.is_allin, p, true),
                    actions_this_street: acted,
                    closed: if raises {
                        self.closed
                    } else {
                        true
                    },
                    n_raises: if raises {
                        (self.n_raises + 1) as u8
                    } else {
                        self.n_raises
                    },
                    last_aggressor: if raises {
                        Some(self.to_act)
                    } else {
                        self.last_aggressor
                    },
                    to_act: if raises {
                        opp as u8
                    } else {
                        self.to_act
                    },
                    ..self
                }
            },
        }
    }

    /// Apply an action, returning the new state.
    pub fn apply(&self, action: Action) -> (s: GameState)
        requires
            self.apply_ok(action),
        ensures
            s == self.spec_apply(action),
    {
        let mut s = self.clone();
        let p = s.to_act as usize;
        let opp = 1 - p;
        match action {
            Action::Fold => {
                s.folded = Some(p as Player);
                return s;
            },
            Action::Check => {
                s.actions_this_street += 1;
                // The second check closes the street; so does the big blind's preflop
                // check when the bets are level.
                if s.actions_this_street >= 2 || (s.street == Street::Preflop && p == IP as usize
                    && s.bets[0] == s.bets[1]) {
                    s.closed = true;
                } else {
                    s.to_act = opp as Player;
                }
            },
            Action::Call => {
                let to_call = s.bets[opp] - s.bets[p];
                let actual_call = if to_call < s.stacks[p] {
                    to_call
                } else {
                    s.stacks[p]
                };
                s.stacks[p] = s.stacks[p] - actual_call;
                s.bets[p] = s.bets[p] + actual_call;
                s.actions_this_street += 1;
                if s.stacks[p] == 0 {
                    s.is_allin[p] = true;
                }
                s.closed = true;
            },
            Action::Bet(size) => {
                let current_pot = s.pot + s.bets[0] + s.bets[1];
                let opp_bet = s.bets[opp];
                let my_bet = s.bets[p];
                let to_call = opp_bet - my_bet;
                let amount = if to_call > 0 {
                    // A raise.
                    let pot_after_call = current_pot + to_call;
                    let raise_amount = compute_bet_amount(size, pot_after_call);
                    let total_bet = opp_bet + raise_amount;
                    total_bet - my_bet
                } else {
                    compute_bet_amount(size, current_pot)
                };
                let actual = if amount < s.stacks[p] {
                    amount
                } else {
                    s.stacks[p]
                };
                s.stacks[p] = s.stacks[p] - actual;
                s.bets[p] = s.bets[p] + actual;
                s.actions_this_street += 1;
                s.n_raises += 1;
                s.last_aggressor = Some(p as Player);
                if s.stacks[p] == 0 {
                    s.is_allin[p] = true;
                }
                s.to_act = opp as Player;
            },
            Action::AllIn => {
                let allin_amount = s.stacks[p];
                s.bets[p] = s.bets[p] + allin_amount;
                s.stacks[p] = 0;
                s.is_allin[p] = true;
                s.actions_this_street += 1;
                let to_call = s.bets[opp] - (s.bets[p] - allin_amount);
                if allin_amount <= to_call {
                    // The all-in is a call (or less).
                    s.closed = true;
                } else {
                    s.n_raises += 1;
                    s.last_aggressor = Some(p as Player);
                    s.to_act = opp as Player;
                }
            },
        }
        assert(s.stacks =~= self.spec_apply(action).stacks);
        assert(s.bets =~= self.spec_apply(action).bets);
        assert(s.is_allin =~= self.spec_apply(action).is_allin);
        s
    }

    /// The state after dealing the next street: bets go to the pot, OOP acts first, and
    /// with a player all in the action is closed at once.
    pub open spec fn spec_deal_street(self, cards: Seq<u8>) -> GameState {
        GameState {
            pot: (self.pot + (self.bets[0] + self.bets[1])) as i32,
            bets: [0, 0],
            street: self.street.spec_next().unwrap(),
            n_raises: 0,
            actions_this_street: 0,
            closed: self.is_allin[0] || self.is_allin[1],
            to_act: OOP,
            board: add_cards(self.board, cards),
            ..self
        }
    }

    /// Deal the next street's cards (chance transition).
    pub fn deal_street(&self, cards: &[Card]) -> (s: GameState)
        requires
            self.street != Street::River,
            fits_i32(self.bets[0] + self.bets[1]),
            fits_i32(self.pot + (self.bets[0] + self.bets[1])),
            forall|i: int| 0 <= i < cards@.len() ==> cards@[i] < 64,
        ensures
            s == self.spec_deal_street(cards@),
    {
        let mut s = self.clone();
        let next_street = self.street.next().unwrap();
        s.pot = s.pot + (s.bets[0] + s.bets[1]);
        s.bets = [0, 0];
        s.street = next_street;
        s.n_raises = 0;
        s.actions_this_street = 0;
        s.closed = false;
        s.to_act = OOP;
        let ghost before = s;
        let mut i: usize = 0;
        while i < cards.len()
            invariant
                i <= cards@.len(),
                s == (GameState { board: s.board, ..before }),
                forall|j: int| 0 <= j < cards@.len() ==> cards@[j] < 64,
                s.board == add_cards(self.board, cards@.take(i as int)),
            decreases cards@.len() - i,
        {
            assert(cards@.take(i as int + 1).drop_last() =~= cards@.take(i as int));
            s.board = s.board.add(cards[i]);
            i = i + 1;
        }
        assert(cards@.take(i as int) =~= cards@);
        // With a player all in, go straight to the chance node or showdown.
        if s.is_allin[0] || s.is_allin[1] {
            s.closed = true;
        }
        s
    }
}

/// Every action moves chips between the acting player's stack and bet: the chips in play
/// never change, the acting player's stack does not go below zero, and the other player,
/// the board, the hole cards, the pot and the starting stacks are left alone.
pub proof fn law_apply_conserves_chips(s: GameState, action: Action)
    requires
        s.apply_ok(action),
    ensures
        total_chips(s.spec_apply(action)) == total_chips(s),
        s.stacks[s.to_act as int] >= 0 ==> s.spec_apply(action).stacks[s.to_act as int] >= 0,
        s.spec_apply(action).stacks[1 - s.to_act] == s.stacks[1 - s.to_act],
        s.spec_apply(action).bets[1 - s.to_act] == s.bets[1 - s.to_act],
        s.spec_apply(action).pot == s.pot,
        s.spec_apply(action).board == s.board,
        s.spec_apply(action).holes == s.holes,
        s.spec_apply(action).initial_stacks == s.initial_stacks,
        s.spec_apply(action).street == s.street,
{
}

/// Facing a bet with chips behind the call, a player may re-raise while raises remain
/// under the cap: with the all-in allowed by the pot ratio (zero, as by default) the
/// actions are fold, call, the sized raises and the all-in. Once the cap is reached, fold
/// and call are all that is left.
pub proof fn law_raise_below_the_cap(g: GameState)
    requires
        g.to_act < 2,
        g.to_call() > 0,
        g.to_call() < g.stacks[g.to_act as int],
    ensures
        g.n_raises < g.max_raises_of() && g.pot_ratio_of().spec_is_zero() ==> {
            &&& g.spec_actions().len() >= 3
            &&& g.spec_actions()[0] == Action::Fold
            &&& g.spec_actions()[1] == Action::Call
            &&& g.spec_actions()[g.spec_actions().len() - 1] == Action::AllIn
        },
        g.n_raises >= g.max_raises_of() ==> g.spec_actions() == seq![Action::Fold, Action::Call],
{
}

/// Dealing a street starts a fresh betting round: unless a player is all in, OOP acts
/// first, a check hands the action to IP, and a second check closes the round.
pub proof fn law_deal_starts_a_round(s: GameState, cards: Seq<u8>)
    requires
        s.street != Street::River,
        !s.is_allin[0],
        !s.is_allin[1],
        s.folded is None,
    ensures
        s.spec_deal_street(cards).spec_node_type() == NodeType::Decision(OOP),
        s.spec_deal_street(cards).spec_apply(Action::Check).spec_node_type() == NodeType::Decision(IP),
        s.spec_deal_street(cards).spec_apply(Action::Check).spec_apply(Action::Check).closed,
        s.spec_deal_street(cards).n_raises == 0,
        s.spec_deal_street(cards).bets == [0i32, 0i32],
{
    law_street_order(s.street);
}

/// With donk bets off, OOP first to act on the flop may only check; on the turn and the
/// river the setting changes nothing: the actions are those of the same state under the
/// same configuration with donk bets on.
pub proof fn law_no_donk_blocks_flop_leads_only(
    g: GameState,
    c: Arc<BetConfig>,
    c2: Arc<BetConfig>,
    g2: GameState,
)
    requires
        g.bet_config == Some(c),
        c.no_donk,
        g.to_act == OOP,
        g.bets[1] <= g.bets[0],
        c2.sizes == c.sizes,
        c2.max_raises == c.max_raises,
        c2.allin_threshold == c.allin_threshold,
        c2.allin_pot_ratio == c.allin_pot_ratio,
        c2.geometric_2bets == c.geometric_2bets,
        c2.player_sizes == c.player_sizes,
        !c2.no_donk,
        g2 == (GameState { bet_config: Some(c2), ..g }),
    ensures
        g.street == Street::Flop ==> g.spec_actions() == seq![Action::Check],
        g.street != Street::Flop ==> g.spec_actions() == g2.spec_actions(),
{
    assert(g.to_call() <= 0);
    if g.street != Street::Flop {
        assert(g.max_raises_of() == g2.max_raises_of());
        assert(g.threshold_of() == g2.threshold_of());
        assert(g.pot_ratio_of() == g2.pot_ratio_of());
        assert(g.geometric_of() == g2.geometric_of());
        assert(forall|d: u8| #[trigger] g.sizes_of(d) == g2.sizes_of(d));
        assert(!g.donk_blocked() && !g2.donk_blocked());
    }
}

/// Dealing a street moves the bets into the pot: the chips in play never change.
pub proof fn law_deal_conserves_chips(s: GameState, cards: Seq<u8>)
    requires
        s.street != Street::River,
        fits_i32(s.bets[0] + s.bets[1]),
        fits_i32(s.pot + (s.bets[0] + s.bets[1])),
    ensures
        total_chips(s.spec_deal_street(cards)) == total_chips(s),
{
}

/// A fold ends the hand with the folder recorded; a call closes the betting round.
pub proof fn law_fold_and_call_end_the_round(s: GameState)
    requires
        s.to_act < 2,
        s.folded is None,
    ensures
        s.spec_apply(Action::Fold).spec_node_type() == NodeType::Terminal(TerminalType::Fold(s.to_act)),
        !(s.spec_apply(Action::Call).spec_node_type() is Decision),
{
}

// ---------------------------------------------------------------------------
// Geometric sizing
// ---------------------------------------------------------------------------

/// The integer square root: the largest `r` with `r * r <= v`.
pub open spec fn isqrt(v: nat) -> nat
    decreases v,
{
    if v == 0 {
        0
    } else {
        let r = isqrt((v - 1) as nat);
        if (r + 1) * (r + 1) <= v {
            r + 1
        } else {
            r
        }
    }
}

/// `isqrt(v)` squared is at most `v`, and its successor squared exceeds `v`.
pub proof fn lemma_isqrt(v: nat)
    ensures
        isqrt(v) * isqrt(v) <= v,
        v < (isqrt(v) + 1) * (isqrt(v) + 1),
    decreases v,
{
    if v > 0 {
        lemma_isqrt((v - 1) as nat);
        let r = isqrt((v - 1) as nat);
        assert((r + 1) * (r + 1) < (r + 2) * (r + 2)) by (nonlinear_arith)
            requires
                r >= 0,
        ;
        let q = isqrt(v);
        if (r + 1) * (r + 1) <= v {
            assert(q == r + 1);
        } else {
            assert(q == r);
        }
        assert(q * q <= v && v < (q + 1) * (q + 1)) by (nonlinear_arith)
            requires
                q == r + 1 || q == r,
                q == r + 1 ==> (r + 1) * (r + 1) <= v,
                q == r ==> v < (r + 1) * (r + 1),
                r * r <= v - 1,
                v - 1 < (r + 1) * (r + 1),
                (r + 1) * (r + 1) < (r + 2) * (r + 2),
        ;
    } else {
        let q = isqrt(v);
        assert(q == 0);
        assert(v < (q + 1) * (q + 1)) by (nonlinear_arith)
            requires
                q == 0,
                v == 0,
        ;
    }
}

/// A root bracketed by squares is the integer square root.
pub proof fn lemma_isqrt_unique(v: nat, r: nat)
    requires
        r * r <= v,
        v < (r + 1) * (r + 1),
    ensures
        isqrt(v) == r,
{
    lemma_isqrt(v);
    let q = isqrt(v);
    if q < r {
        assert((q + 1) * (q + 1) <= r * r) by (nonlinear_arith)
            requires
                0 <= q < r,
        ;
    } else if q > r {
        assert((r + 1) * (r + 1) <= q * q) by (nonlinear_arith)
            requires
                0 <= r < q,
        ;
    }
}

/// The integer square root of `v`, by bisection.
fn isqrt_u128(v: u128) -> (r: u128)
    requires
        v < 0x1_0000_0000_0000_0000_0000,
    ensures
        r == isqrt(v as nat),
{
    // lo * lo <= v < hi * hi
    let mut lo: u128 = 0;
    let mut hi: u128 = 0x100_0000_0000;
    assert(v < hi * hi);
    while hi - lo > 1
        invariant
            lo < hi <= 0x100_0000_0000,
            lo * lo <= v,
            v < hi * hi,
        decreases hi - lo,
    {
        let mid = lo + (hi - lo) / 2;
        assert(mid * mid <= 0x1_0000_0000_0000_0000_0000) by (nonlinear_arith)
            requires
                mid <= 0x100_0000_0000,
        ;
        if mid * mid <= v {
            lo = mid;
        } else {
            hi = mid;
        }
    }
    proof {
        lemma_isqrt_unique(v as nat, lo as nat);
    }
    lo
}

/// First bet of a geometric sequence reaching all-in in `n` bets (`n <= 2`): with pot `P`
/// and stack `S`, the rounded `P * ((1 + 2S/P)^(1/n) - 1) / 2`, clamped to `1..=S`. For two
/// bets that is `round((sqrt(P(P + 2S)) - P) / 2)`, computed here exactly in integers.
/// A non-positive pot or stack, or no bets left, gives the stack (at least 0); one bet
/// left gives the stack.
pub open spec fn spec_geometric(pot: int, stack: int, n: int) -> int {
    if stack <= 0 || pot <= 0 || n == 0 {
        if stack > 0 {
            stack
        } else {
            0
        }
    } else if n == 1 {
        stack
    } else {
        let a = (isqrt((pot * (pot + 2 * stack)) as nat) - pot + 1) / 2;
        if a < 1 {
            1
        } else if a > stack {
            stack
        } else {
            a
        }
    }
}

/// Geometric bet size, in chips, for `bets_remaining` bets left to reach all-in.
fn geometric_bet_amount(pot: i32, stack: i32, bets_remaining: u8) -> (r: i32)
    requires
        bets_remaining <= 2,
    ensures
        r == spec_geometric(pot as int, stack as int, bets_remaining as int),
{
    if stack <= 0 || pot <= 0 || bets_remaining == 0 {
        return if stack > 0 {
            stack
        } else {
            0
        };
    }
    if bets_remaining == 1 {
        return stack;
    }
    let p = pot as u128;
    let s = stack as u128;
    assert(p * (p + 2 * s) < 0x1_0000_0000_0000_0000_0000) by (nonlinear_arith)
        requires
            p < 0x8000_0000,
            s < 0x8000_0000,
    ;
    let v = p * (p + 2 * s);
    let x = isqrt_u128(v);
    proof {
        lemma_isqrt(v as nat);
        // p * p <= v, so the root is at least p.
        assert(p * p <= v) by (nonlinear_arith)
            requires
                v == p * (p + 2 * s),
        ;
        if x < p {
            assert((x + 1) * (x + 1) <= p * p) by (nonlinear_arith)
                requires
                    x < p,
            ;
        }
        // v < (p + s)^2, so the root is below p + s.
        assert(v < (p + s) * (p + s)) by (nonlinear_arith)
            requires
                v == p * (p + 2 * s),
                s > 0,
        ;
        if x >= p + s {
            assert((p + s) * (p + s) <= x * x) by (nonlinear_arith)
                requires
                    x >= p + s,
            ;
        }
    }
    let a = (x - p + 1) / 2;
    if a < 1 {
        1
    } else if a > s {
        stack
    } else {
        a as i32
    }
}

// ---------------------------------------------------------------------------
// Legal actions
// ---------------------------------------------------------------------------

/// How one configured size fares at a decision.
#[derive(Debug, Clone, Copy, PartialEq, Eq, Structural)]
pub enum SizeVerdict {
    /// Offered as a bet or raise of that size.
    Offer,
    /// Too small to offer.
    Skip,
    /// Not offered, and calls for the all-in action instead.
    ForceAllIn,
}

/// The verdict on `size` into `pot`, when the player already owes `base` chips, a size of
/// less than `floor` chips is too small, and `threshold` collapses near-all-in amounts:
/// a size needing the whole stack or more, or (with a positive threshold and a positive
/// stack) at least `threshold` of the stack, becomes the all-in.
pub open spec fn spec_size_verdict(
    size: BetSize,
    pot: int,
    base: int,
    floor: int,
    my_stack: int,
    threshold: Ratio,
) -> SizeVerdict {
    let amount = spec_bet_amount(size, pot) as int;
    let chips = base + amount;
    if chips >= my_stack {
        SizeVerdict::ForceAllIn
    } else if amount < floor {
        SizeVerdict::Skip
    } else if threshold.spec_is_positive() && my_stack > 0 && threshold.spec_reaches(
        my_stack,
        chips,
    ) {
        SizeVerdict::ForceAllIn
    } else {
        SizeVerdict::Offer
    }
}

/// The bets offered for `sizes`, in order.
pub open spec fn size_offers(
    sizes: Seq<BetSize>,
    pot: int,
    base: int,
    floor: int,
    my_stack: int,
    threshold: Ratio,
) -> Seq<Action>
    decreases sizes.len(),
{
    if sizes.len() == 0 {
        Seq::empty()
    } else {
        let prev = size_offers(sizes.drop_last(), pot, base, floor, my_stack, threshold);
        if spec_size_verdict(sizes.last(), pot, base, floor, my_stack, threshold)
            == SizeVerdict::Offer {
            prev.push(Action::Bet(sizes.last()))
        } else {
            prev
        }
    }
}

/// Whether some size of `sizes` calls for the all-in.
pub open spec fn some_size_forces_allin(
    sizes: Seq<BetSize>,
    pot: int,
    base: int,
    floor: int,
    my_stack: int,
    threshold: Ratio,
) -> bool {
    exists|i: int|
        0 <= i < sizes.len() && #[trigger] spec_size_verdict(
            sizes[i],
            pot,
            base,
            floor,
            my_stack,
            threshold,
        ) == SizeVerdict::ForceAllIn
}

fn judge_size(size: BetSize, pot: i32, base: i32, floor: i32, my_stack: i32, threshold: Ratio) -> (v:
    SizeVerdict)
    requires
        size_ok(size),
    ensures
        v == spec_size_verdict(size, pot as int, base as int, floor as int, my_stack as int, threshold),
{
    let amount = compute_bet_amount(size, pot);
    let chips = base as i64 + amount as i64;
    if chips >= my_stack as i64 {
        SizeVerdict::ForceAllIn
    } else if amount < floor {
        SizeVerdict::Skip
    } else if threshold.num > 0 && my_stack > 0 && threshold.reaches(my_stack as i64, chips) {
        SizeVerdict::ForceAllIn
    } else {
        SizeVerdict::Offer
    }
}

/// Pushes the offered sizes onto `acts`; returns whether some size calls for the all-in.
fn offer_sizes(
    acts: &mut Vec<Action>,
    sizes: &[BetSize],
    pot: i32,
    base: i32,
    floor: i32,
    my_stack: i32,
    threshold: Ratio,
) -> (forced: bool)
    requires
        forall|i: int| 0 <= i < sizes@.len() ==> size_ok(#[trigger] sizes@[i]),
    ensures
        final(acts)@ == old(acts)@ + size_offers(
            sizes@,
            pot as int,
            base as int,
            floor as int,
            my_stack as int,
            threshold,
        ),
        forced == some_size_forces_allin(
            sizes@,
            pot as int,
            base as int,
            floor as int,
            my_stack as int,
            threshold,
        ),
{
    let ghost start = acts@;
    let mut forced = false;
    let mut i: usize = 0;
    while i < sizes.len()
        invariant
            i <= sizes@.len(),
            forall|j: int| 0 <= j < sizes@.len() ==> size_ok(#[trigger] sizes@[j]),
            acts@ == start + size_offers(
                sizes@.take(i as int),
                pot as int,
                base as int,
                floor as int,
                my_stack as int,
                threshold,
            ),
            forced == some_size_forces_allin(
                sizes@.take(i as int),
                pot as int,
                base as int,
                floor as int,
                my_stack as int,
                threshold,
            ),
        decreases sizes@.len() - i,
    {
        let size = sizes[i];
        let ghost before = sizes@.take(i as int);
        let ghost after = sizes@.take(i as int + 1);
        assert(after.drop_last() =~= before);
        assert(after.last() == size);
        let v = judge_size(size, pot, base, floor, my_stack, threshold);
        match v {
            SizeVerdict::Offer => acts.push(Action::Bet(size)),
            SizeVerdict::ForceAllIn => forced = true,
            SizeVerdict::Skip => {},
        }
        proof {
            let pi = pot as int;
            let bi = base as int;
            let fi = floor as int;
            let si = my_stack as int;
            if v == SizeVerdict::ForceAllIn {
                assert(spec_size_verdict(after[i as int], pi, bi, fi, si, threshold)
                    == SizeVerdict::ForceAllIn);
            }
            if some_size_forces_allin(after, pi, bi, fi, si, threshold) {
                let k = choose|k: int|
                    0 <= k < after.len() && #[trigger] spec_size_verdict(
                        after[k],
                        pi,
                        bi,
                        fi,
                        si,
                        threshold,
                    ) == SizeVerdict::ForceAllIn;
                if k < i {
                    assert(before[k] == after[k]);
                }
            }
            if some_size_forces_allin(before, pi, bi, fi, si, threshold) {
                let k = choose|k: int|
                    0 <= k < before.len() && #[trigger] spec_size_verdict(
                        before[k],
                        pi,
                        bi,
                        fi,
                        si,
                        threshold,
                    ) == SizeVerdict::ForceAllIn;
                assert(before[k] == after[k]);
            }
        }
        i = i + 1;
    }
    assert(sizes@.take(i as int) =~= sizes@);
    forced
}

impl GameState {
    /// The sized bets or raises offered into `pot` when the player already owes `base`
    /// and `floor` chips is the least size worth offering, with `remaining` bets left
    /// before the cap, at raise depth `depth`; and whether some size calls for the all-in.
    /// With geometric sizing and at most two bets left the one offered size is the
    /// geometric one, as a fraction of `pot`.
    pub open spec fn sized_offers(self, pot: int, base: int, floor: int, remaining: int, depth: u8) -> (
        Seq<Action>,
        bool,
    ) {
        let my_stack = self.stacks[self.to_act as int] as int;
        if self.geometric_of() && remaining <= 2 {
            let geo = spec_geometric(pot, my_stack - base, remaining);
            if base + geo < my_stack && geo >= floor {
                (
                    if pot > 0 {
                        seq![Action::Bet(BetSize::Frac(geo as i32, pot as i32))]
                    } else {
                        Seq::empty()
                    },
                    false,
                )
            } else {
                (Seq::empty(), true)
            }
        } else {
            let sizes = self.sizes_of(depth);
            (
                size_offers(sizes, pot, base, floor, my_stack, self.threshold_of()),
                some_size_forces_allin(sizes, pot, base, floor, my_stack, self.threshold_of()),
            )
        }
    }

    /// The all-in action, when the player has chips beyond `owed` and either some size
    /// called for it, the pot ratio is zero, or the stack is at most that ratio of `pot`.
    pub open spec fn allin_option(self, forced: bool, owed: int, pot: int) -> Seq<Action> {
        let my_stack = self.stacks[self.to_act as int] as int;
        if my_stack > owed && (forced || self.pot_ratio_of().spec_is_zero()
            || self.pot_ratio_of().spec_covers(pot, my_stack)) {
            seq![Action::AllIn]
        } else {
            Seq::empty()
        }
    }

    /// Whether the player to act is OOP first to act on the flop with donk bets off.
    pub open spec fn donk_blocked(self) -> bool {
        self.no_donk_of() && self.to_act == OOP && self.street == Street::Flop
    }

    /// The legal actions at the current decision. Facing a bet: fold, then all-in alone
    /// when the call takes the whole stack; otherwise call, then (while raises remain) the
    /// sized raises and possibly all-in. Not facing a bet: check, then (unless donk bets
    /// are off for OOP on the flop) the sized bets and possibly all-in.
    pub open spec fn spec_actions(self) -> Seq<Action> {
        let p = self.to_act as int;
        let my_stack = self.stacks[p] as int;
        let to_call = self.to_call();
        let cp = self.current_pot();
        if to_call > 0 {
            if to_call >= my_stack {
                seq![Action::Fold, Action::AllIn]
            } else if self.n_raises >= self.max_raises_of() {
                seq![Action::Fold, Action::Call]
            } else {
                let pac = cp + to_call;
                let remaining = self.max_raises_of() - self.n_raises;
                let offered = self.sized_offers(pac, to_call, self.bets[1 - p] - 1, remaining, self.n_raises);
                seq![Action::Fold, Action::Call] + offered.0 + self.allin_option(offered.1, to_call, cp)
            }
        } else if self.donk_blocked() {
            seq![Action::Check]
        } else {
            let offered = self.sized_offers(cp, 0, 1, self.max_raises_of() as int, 0);
            seq![Action::Check] + offered.0 + self.allin_option(offered.1, 0, cp)
        }
    }

    /// Whether the sizes or the geometric size are looked at (the player may bet or raise).
    pub open spec fn sizes_considered(self) -> bool {
        let to_call = self.to_call();
        if to_call > 0 {
            to_call < self.stacks[self.to_act as int] && self.n_raises < self.max_raises_of()
        } else {
            !self.donk_blocked()
        }
    }

    /// Every size for `depth` has a non-zero denominator.
    pub open spec fn sizes_computable(self, depth: u8) -> bool {
        forall|i: int|
            0 <= i < self.sizes_of(depth).len() ==> size_ok(#[trigger] self.sizes_of(depth)[i])
    }

    /// Whether geometric sizing replaces the sizes with `remaining` bets left.
    pub open spec fn uses_geometric(self, remaining: int) -> bool {
        self.geometric_of() && remaining <= 2
    }

    /// Facing a bet, the raise arithmetic stays within `i32`: the pot after calling, and
    /// the opponent's bet plus each raise, less the player's own bet.
    pub open spec fn raises_fit(self) -> bool {
        let p = self.to_act as int;
        let opp_bet = self.bets[1 - p] as int;
        let my_bet = self.bets[p] as int;
        let pac = self.current_pot() + self.to_call();
        let remaining = self.max_raises_of() - self.n_raises;
        &&& fits_i32(pac)
        &&& if self.uses_geometric(remaining) {
            let geo = spec_geometric(pac, self.stacks[p] - self.to_call(), remaining);
            fits_i32(opp_bet + geo) && fits_i32(opp_bet + geo - my_bet)
        } else {
            &&& self.sizes_computable(self.n_raises)
            &&& forall|i: int|
                0 <= i < self.sizes_of(self.n_raises).len() ==> {
                    let raise = #[trigger] spec_bet_amount(self.sizes_of(self.n_raises)[i], pac) as int;
                    fits_i32(opp_bet + raise) && fits_i32(opp_bet + raise - my_bet)
                }
        }
    }

    /// The inputs on which `actions` computes within `i32` with a valid player to act:
    /// every configured size it looks at has a non-zero denominator, and the pot, the pot
    /// after calling and the chips of each raise stay within `i32`.
    pub open spec fn actions_ok(self) -> bool {
        &&& self.to_act < 2
        &&& fits_i32(self.to_call())
        &&& self.sizes_considered() ==> {
            &&& fits_i32(self.pot + self.bets[0])
            &&& fits_i32(self.current_pot())
            &&& if self.to_call() > 0 {
                self.raises_fit()
            } else {
                self.uses_geometric(self.max_raises_of() as int) || self.sizes_computable(0)
            }
        }
    }

    /// Pushes the sized bets or raises (see `sized_offers`); returns whether some size
    /// called for the all-in.
    fn push_sized(
        &self,
        acts: &mut Vec<Action>,
        pot: i32,
        base: i32,
        floor: i32,
        remaining: u8,
        depth: u8,
    ) -> (forced: bool)
        requires
            self.to_act < 2,
            self.uses_geometric(remaining as int) || self.sizes_computable(depth),
            0 <= base,
            fits_i32(self.stacks[self.to_act as int] - base),
        ensures
            final(acts)@ == old(acts)@ + self.sized_offers(
                pot as int,
                base as int,
                floor as int,
                remaining as int,
                depth,
            ).0,
            forced == self.sized_offers(pot as int, base as int, floor as int, remaining as int, depth).1,
    {
        let my_stack = self.stacks[self.to_act as usize];
        let (geometric, threshold) = match &self.bet_config {
            Some(c) => (c.geometric_2bets, c.allin_threshold),
            None => (false, Ratio { num: 0, den: 1 }),
        };
        if geometric && remaining <= 2 {
            // Geometric sizing: the raise that reaches all-in in `remaining` bets.
            let geo = geometric_bet_amount(pot, my_stack - base, remaining);
            if (base as i64) + (geo as i64) < my_stack as i64 && geo >= floor {
                if pot > 0 {
                    acts.push(Action::Bet(BetSize::Frac(geo, pot)));
                }
                false
            } else {
                true
            }
        } else {
            match &self.bet_config {
                Some(c) => {
                    let sizes = c.bet_sizes(self.street, depth, self.to_act);
                    assert(sizes@ == self.sizes_of(depth));
                    offer_sizes(acts, sizes, pot, base, floor, my_stack, threshold)
                },
                None => {
                    let sizes = default_bet_sizes(self.street, depth);
                    offer_sizes(acts, sizes.as_slice(), pot, base, floor, my_stack, threshold)
                },
            }
        }
    }

    /// The least raise, for the raise-size floor: one big blind (a simplification of the
    /// last raise size).
    fn min_previous_bet(&self) -> (r: i32)
        ensures
            r == 1,
    {
        1
    }

    /// Legal actions at the current decision node.
    pub fn actions(&self) -> (acts: Vec<Action>)
        requires
            self.actions_ok(),
        ensures
            acts@ == self.spec_actions(),
    {
        let p = self.to_act as usize;
        let opp = 1 - p;
        let my_bet = self.bets[p];
        let opp_bet = self.bets[opp];
        let my_stack = self.stacks[p];
        let to_call = opp_bet - my_bet;
        let (max_raises, pot_ratio, no_donk) = match &self.bet_config {
            Some(c) => (c.max_raises, c.allin_pot_ratio, c.no_donk),
            None => (DEFAULT_MAX_RAISES, Ratio { num: 0, den: 1 }, false),
        };
        let mut actions: Vec<Action> = Vec::new();
        if to_call > 0 {
            // Facing a bet or raise.
            actions.push(Action::Fold);
            if to_call >= my_stack {
                actions.push(Action::AllIn);
                return actions;
            }
            actions.push(Action::Call);
            if self.n_raises < max_raises {
                let current_pot = self.pot + self.bets[0] + self.bets[1];
                let pot_after_call = current_pot + to_call;
                let bets_remaining = max_raises - self.n_raises;
                let ghost before = actions@;
                let needs_allin = self.push_sized(
                    &mut actions,
                    pot_after_call,
                    to_call,
                    opp_bet - self.min_previous_bet(),
                    bets_remaining,
                    self.n_raises,
                );
                // All-in as a raise: always when some size needed it, otherwise subject
                // to the pot ratio.
                if my_stack > to_call {
                    if needs_allin || pot_ratio.is_zero() || pot_ratio.covers(
                        current_pot as i64,
                        my_stack as i64,
                    ) {
                        actions.push(Action::AllIn);
                    }
                }
                assert(actions@ =~= self.spec_actions());
            }
        } else {
            actions.push(Action::Check);
            // Donk bets off: OOP only checks when first to act on the flop.
            if no_donk && self.to_act == OOP && self.street == Street::Flop {
                return actions;
            }
            let current_pot = self.pot + self.bets[0] + self.bets[1];
            let needs_allin = self.push_sized(&mut actions, current_pot, 0, 1, max_raises, 0);
            if my_stack > 0 {
                if needs_allin || pot_ratio.is_zero() || pot_ratio.covers(
                    current_pot as i64,
                    my_stack as i64,
                ) {
                    actions.push(Action::AllIn);
                }
            }
            assert(actions@ =~= self.spec_actions());
        }
        actions
    }
}

// ---------------------------------------------------------------------------
// Copies of a betting grid
// ---------------------------------------------------------------------------

fn copy_sizes(v: &Vec<BetSize>) -> (r: Vec<BetSize>)
    ensures
        r@ == v@,
{
    let mut r: Vec<BetSize> = Vec::new();
    let mut i: usize = 0;
    while i < v.len()
        invariant
            i <= v@.len(),
            r@ == v@.take(i as int),
        decreases v@.len() - i,
    {
        r.push(v[i]);
        i = i + 1;
        assert(r@ =~= v@.take(i as int));
    }
    assert(v@.take(i as int) =~= v@);
    r
}

fn copy_depths(d: &Vec<Vec<BetSize>>) -> (r: Vec<Vec<BetSize>>)
    ensures
        depth_view(r) == depth_view(*d),
{
    let mut r: Vec<Vec<BetSize>> = Vec::new();
    let mut i: usize = 0;
    while i < d.len()
        invariant
            i <= d@.len(),
            depth_view(r) == depth_view(*d).take(i as int),
        decreases d@.len() - i,
    {
        push_depth(&mut r, copy_sizes(&d[i]));
        i = i + 1;
        assert(depth_view(r) =~= depth_view(*d).take(i as int));
    }
    assert(depth_view(*d).take(i as int) =~= depth_view(*d));
    r
}

fn copy_streets(a: &[Vec<Vec<BetSize>>; 4]) -> (r: [Vec<Vec<BetSize>>; 4])
    ensures
        forall|i: int| 0 <= i < 4 ==> depth_view(#[trigger] r[i]) == depth_view(a[i]),
{
    [copy_depths(&a[0]), copy_depths(&a[1]), copy_depths(&a[2]), copy_depths(&a[3])]
}

fn copy_override(o: &Option<[Vec<Vec<BetSize>>; 4]>) -> (r: Option<[Vec<Vec<BetSize>>; 4]>)
    ensures
        r is Some <==> o is Some,
        r is Some ==> forall|i: int|
            0 <= i < 4 ==> depth_view(#[trigger] r->0[i]) == depth_view(o->0[i]),
{
    match o {
        Some(a) => Some(copy_streets(a)),
        None => None,
    }
}

impl Clone for BetConfig {
    /// A copy holding the same grid and settings.
    fn clone(&self) -> (r: Self)
        ensures
            r.same_grid(*self),
    {
        BetConfig {
            sizes: copy_streets(&self.sizes),
            max_raises: self.max_raises,
            allin_threshold: self.allin_threshold,
            allin_pot_ratio: self.allin_pot_ratio,
            no_donk: self.no_donk,
            geometric_2bets: self.geometric_2bets,
            player_sizes: [copy_override(&self.player_sizes[0]), copy_override(&self.player_sizes[1])],
        }
    }
}

/// Configurations holding the same grid offer the same sizes everywhere.
pub proof fn law_same_grid_same_sizes(a: BetConfig, b: BetConfig, street: Street, depth: u8, player: Player)
    requires
        a.same_grid(b),
    ensures
        a.spec_bet_sizes(street, depth, player) == b.spec_bet_sizes(street, depth, player),
{
    let idx = street.spec_index() as int;
    assert(a.shared_depths(idx) == b.shared_depths(idx));
    if player < 2 {
        assert(a.player_depths(player as int, idx) == b.player_depths(player as int, idx));
    }
}

impl GameState {
    /// Cards of `player`'s hole cards together with the board.
    pub open spec fn hand_count(self, player: int) -> int {
        Hand(self.holes[player].0 | self.board.0).spec_cards().len() as int
    }

    /// Terminal payoff of `player` in half chips (twice the chip amount, so a split pot is
    /// exact): at a fold the folder loses what they invested and the other player wins the
    /// pot less their investment; at showdown the stronger hand (`my_strength` against
    /// `opp_strength`, higher is better) wins the pot, a tie splits it, and with fewer than
    /// five cards for either player the payoff is zero.
    pub open spec fn spec_payoff(self, player: Player, my_strength: u32, opp_strength: u32) -> int {
        let total = self.current_pot();
        let invested = self.spec_invested(player);
        match self.folded {
            Some(folder) => if folder == player {
                -2 * invested
            } else {
                2 * total - 2 * invested
            },
            None => if self.hand_count(player as int) < 5 || self.hand_count(1 - player) < 5 {
                0
            } else if my_strength > opp_strength {
                2 * total - 2 * invested
            } else if my_strength < opp_strength {
                -2 * invested
            } else {
                total - 2 * invested
            },
        }
    }

    /// Terminal payoff for a player, from their perspective, in half chips. The hand
    /// strengths are those of the player's and the opponent's hole cards with the board.
    pub fn payoff(&self, player: Player, my_strength: u32, opp_strength: u32) -> (r: i64)
        requires
            player < 2,
            fits_i32(self.pot + self.bets[0]),
            fits_i32(self.current_pot()),
            fits_i32(self.spec_invested(player)),
        ensures
            r == self.spec_payoff(player, my_strength, opp_strength),
    {
        let p = player as usize;
        let opp = 1 - p;
        let total_pot = (self.pot + self.bets[0] + self.bets[1]) as i64;
        if let Some(folder) = self.folded {
            let invested = self.invested(player) as i64;
            if folder == player {
                return -2 * invested;
            } else {
                return 2 * total_pot - 2 * invested;
            }
        }
        let my_hand = self.holes[p].union(self.board);
        let opp_hand = self.holes[opp].union(self.board);
        proof {
            assert(my_hand == Hand(self.holes[player as int].0 | self.board.0));
            assert(opp_hand == Hand(self.holes[1 - player].0 | self.board.0));
        }
        // A showdown needs five or more cards for each player.
        if my_hand.count() < 5 || opp_hand.count() < 5 {
            return 0;
        }
        let invested = self.invested(player) as i64;
        if my_strength > opp_strength {
            2 * total_pot - 2 * invested
        } else if my_strength < opp_strength {
            -2 * invested
        } else {
            total_pot - 2 * invested
        }
    }
}

/// At a fold or a showdown (five or more cards for each player) the two payoffs share the
/// pot: together they are the pot less what both players invested (in half chips), and
/// the player who folded loses exactly what they invested.
pub proof fn law_payoffs_share_the_pot(g: GameState, s0: u32, s1: u32)
    requires
        g.folded matches Some(q) ==> q < 2,
        g.folded is Some || (g.hand_count(0) >= 5 && g.hand_count(1) >= 5),
    ensures
        g.spec_payoff(0, s0, s1) + g.spec_payoff(1, s1, s0) == 2 * g.current_pot() - 2
            * g.spec_invested(0) - 2 * g.spec_invested(1),
        g.folded matches Some(q) ==> g.spec_payoff(q, s0, s1) == -2 * g.spec_invested(q),
{
}

/// Every bet in `size_offers` is a size of `sizes` judged `Offer`.
proof fn lemma_size_offers(
    sizes: Seq<BetSize>,
    pot: int,
    base: int,
    floor: int,
    my_stack: int,
    threshold: Ratio,
    i: int,
)
    requires
        0 <= i < size_offers(sizes, pot, base, floor, my_stack, threshold).len(),
    ensures
        size_offers(sizes, pot, base, floor, my_stack, threshold)[i] is Bet,
        spec_size_verdict(
            size_offers(sizes, pot, base, floor, my_stack, threshold)[i]->Bet_0,
            pot,
            base,
            floor,
            my_stack,
            threshold,
        ) == SizeVerdict::Offer,
    decreases sizes.len(),
{
    let prev = size_offers(sizes.drop_last(), pot, base, floor, my_stack, threshold);
    if i < prev.len() {
        lemma_size_offers(sizes.drop_last(), pot, base, floor, my_stack, threshold, i);
    }
}

/// A fraction `n / pot` of `pot` is `n` chips.
proof fn lemma_whole_fraction(n: int, pot: int)
    requires
        pot > 0,
        n >= 0,
    ensures
        round_half_even(pot * n, pot) == n,
{
    assert(pot * n == n * pot + 0) by (nonlinear_arith);
    vstd::arithmetic::div_mod::lemma_fundamental_div_mod_converse(pot * n, pot, n, 0);
}

/// A sized bet or raise offered at a decision never takes the whole stack: the all-in is
/// its own action, so applying an offered bet leaves the player chips behind.
pub proof fn law_offered_bets_leave_chips(s: GameState, i: int)
    requires
        s.actions_ok(),
        0 <= i < s.spec_actions().len(),
        s.spec_actions()[i] is Bet,
    ensures
        s.bet_chips(s.spec_actions()[i]->Bet_0) < s.stacks[s.to_act as int],
{
    let p = s.to_act as int;
    let my_stack = s.stacks[p] as int;
    let to_call = s.to_call();
    let cp = s.current_pot();
    let acts = s.spec_actions();
    let size = acts[i]->Bet_0;
    if to_call > 0 {
        let pac = cp + to_call;
        let remaining = s.max_raises_of() - s.n_raises;
        let offered = s.sized_offers(pac, to_call, s.bets[1 - p] - 1, remaining, s.n_raises);
        let allin = s.allin_option(offered.1, to_call, cp);
        assert(acts == seq![Action::Fold, Action::Call] + offered.0 + allin);
        let j = i - 2;
        assert(0 <= j < offered.0.len());
        assert(acts[i] == offered.0[j]);
        if s.uses_geometric(remaining) {
            let geo = spec_geometric(pac, my_stack - to_call, remaining);
            assert(size == BetSize::Frac(geo as i32, pac as i32));
            assert(geo >= 0);
            lemma_whole_fraction(geo, pac);
        } else {
            let sizes = s.sizes_of(s.n_raises);
            lemma_size_offers(sizes, pac, to_call, s.bets[1 - p] - 1, my_stack, s.threshold_of(), j);
        }
    } else {
        let offered = s.sized_offers(cp, 0, 1, s.max_raises_of() as int, 0);
        let allin = s.allin_option(offered.1, 0, cp);
        assert(acts == seq![Action::Check] + offered.0 + allin);
        let j = i - 1;
        assert(0 <= j < offered.0.len());
        assert(acts[i] == offered.0[j]);
        if s.uses_geometric(s.max_raises_of() as int) {
            let geo = spec_geometric(cp, my_stack, s.max_raises_of() as int);
            assert(size == BetSize::Frac(geo as i32, cp as i32));
            assert(geo >= 0);
            lemma_whole_fraction(geo, cp);
        } else {
            let sizes = s.sizes_of(0);
            lemma_size_offers(sizes, cp, 0, 1, my_stack, s.threshold_of(), j);
        }
    }
}

// ---------------------------------------------------------------------------
// Lines of play
// ---------------------------------------------------------------------------

/// The state a line of actions leads to from `s`, while each action is a legal action
/// at a decision; `None` once an action is not (or the line reaches a chance node or
/// the end of the hand).
pub open spec fn spec_after_line(s: GameState, line: Seq<Action>) -> Option<GameState>
    decreases line.len(),
{
    if line.len() == 0 {
        Some(s)
    } else if s.spec_node_type() is Decision && s.spec_actions().contains(line[0]) {
        spec_after_line(s.spec_apply(line[0]), line.drop_first())
    } else {
        None
    }
}

/// Along the line, every decision reached can list its actions, and every legal action
/// taken can be applied, within the machine's integers.
pub open spec fn line_ok(s: GameState, line: Seq<Action>) -> bool
    decreases line.len(),
{
    line.len() > 0 && s.spec_node_type() is Decision ==> {
        &&& s.actions_ok()
        &&& s.spec_actions().contains(line[0]) ==> s.apply_ok(line[0]) && line_ok(
            s.spec_apply(line[0]),
            line.drop_first(),
        )
    }
}

fn contains_action(acts: &Vec<Action>, a: Action) -> (b: bool)
    ensures
        b == acts@.contains(a),
{
    let mut i: usize = 0;
    while i < acts.len()
        invariant
            i <= acts@.len(),
            forall|j: int| 0 <= j < i ==> acts@[j] != a,
        decreases acts@.len() - i,
    {
        if acts[i] == a {
            return true;
        }
        i = i + 1;
    }
    false
}

/// The state after a line of actions from `root` (see `spec_after_line`).
pub fn game_state_after_line(root: &GameState, line: &[Action]) -> (r: Option<GameState>)
    requires
        line_ok(*root, line@),
    ensures
        r == spec_after_line(*root, line@),
{
    let mut state = root.clone();
    let mut i: usize = 0;
    assert(line@.skip(0) =~= line@);
    while i < line.len()
        invariant
            i <= line@.len(),
            line_ok(state, line@.skip(i as int)),
            spec_after_line(*root, line@) == spec_after_line(state, line@.skip(i as int)),
        decreases line@.len() - i,
    {
        let a = line[i];
        let ghost rest = line@.skip(i as int);
        assert(rest[0] == a);
        assert(rest.drop_first() =~= line@.skip(i as int + 1));
        match state.node_type() {
            NodeType::Decision(_) => {},
            _ => return None,
        }
        let acts = state.actions();
        if !contains_action(&acts, a) {
            return None;
        }
        state = state.apply(a);
        i = i + 1;
    }
    assert(line@.skip(i as int).len() == 0);
    Some(state)
}

} // verus!
