//! Postflop single-size candidates: the size sets tried for one bet and one raise size
//! per player on the turn and the river, their labels, and the betting grid they give.
use vstd::prelude::*;
use crate::game::{
    BetConfig, BetSize, Street, IP, OOP, depth_view, push_depth, pick_depth, Player,
};
use crate::text::{append_digits, append_int, decimal_digits, int_text};

verus! {

/// Lower-case name of a street.
pub open spec fn street_text(s: Street) -> Seq<char> {
    match s {
        Street::Preflop => "preflop"@,
        Street::Flop => "flop"@,
        Street::Turn => "turn"@,
        Street::River => "river"@,
    }
}

pub fn street_label(s: Street) -> (r: &'static str)
    ensures
        r@ == street_text(s),
{
    proof {
        reveal_strlit("preflop");
        reveal_strlit("flop");
        reveal_strlit("turn");
        reveal_strlit("river");
    }
    match s {
        Street::Preflop => "preflop",
        Street::Flop => "flop",
        Street::Turn => "turn",
        Street::River => "river",
    }
}

/// Label of a size: "75%" for n/100, "2x" for n/1, "3/2" for other fractions, "3bb".
pub open spec fn size_text(s: BetSize) -> Seq<char> {
    match s {
        BetSize::Frac(n, d) => if d == 100 {
            int_text(n as int) + "%"@
        } else if d == 1 {
            int_text(n as int) + "x"@
        } else {
            int_text(n as int) + "/"@ + int_text(d as int)
        },
        BetSize::Bb(n) => int_text(n as int) + "bb"@,
    }
}

/// Appends the label of a size.
fn append_size(out: &mut String, s: BetSize)
    ensures
        final(out)@ == old(out)@ + size_text(s),
{
    proof {
        reveal_strlit("%");
        reveal_strlit("x");
        reveal_strlit("/");
        reveal_strlit("bb");
    }
    match s {
        BetSize::Frac(n, d) => {
            append_int(out, n);
            if d == 100 {
                out.append("%");
            } else if d == 1 {
                out.append("x");
            } else {
                out.append("/");
                append_int(out, d);
            }
        },
        BetSize::Bb(n) => {
            append_int(out, n);
            out.append("bb");
        },
    }
    assert(out@ =~= old(out)@ + size_text(s));
}

pub fn bet_size_label(s: BetSize) -> (r: String)
    ensures
        r@ == size_text(s),
{
    let mut r = String::new();
    append_size(&mut r, s);
    r
}

/// One candidate size set for a single street.
#[derive(Debug, Clone, Copy, PartialEq, Eq, Structural)]
pub struct TurnSizeSet {
    pub oop_bet: BetSize,
    pub oop_raise: Option<BetSize>,
    pub ip_bet: BetSize,
    pub ip_raise: Option<BetSize>,
}

/// A size as a percentage of the pot where it is a whole one ("50" for 50/100, "150" for
/// 3/2), otherwise its label.
pub open spec fn pct_text(s: BetSize) -> Seq<char> {
    match s {
        BetSize::Frac(n, d) => if n >= 0 && d > 0 && (100 * n) % (d as int) == 0 {
            decimal_digits(((100 * n) / (d as int)) as nat)
        } else {
            size_text(s)
        },
        BetSize::Bb(_) => size_text(s),
    }
}

/// [`pct_text`] of an optional raise size, "-" when there is none.
pub open spec fn pct_raise_text(r: Option<BetSize>) -> Seq<char> {
    match r {
        Some(s) => pct_text(s),
        None => "-"@,
    }
}

fn append_pct(out: &mut String, s: BetSize)
    ensures
        final(out)@ == old(out)@ + pct_text(s),
{
    match s {
        BetSize::Frac(n, d) => {
            if n >= 0 && d > 0 {
                let m = (n as u64) * 100;
                let du = d as u64;
                if m % du == 0 {
                    append_digits(out, m / du);
                    return;
                }
            }
            append_size(out, s);
        },
        BetSize::Bb(_) => append_size(out, s),
    }
}

fn append_pct_raise(out: &mut String, r: Option<BetSize>)
    ensures
        final(out)@ == old(out)@ + pct_raise_text(r),
{
    match r {
        Some(s) => append_pct(out, s),
        None => {
            proof {
                reveal_strlit("-");
            }
            out.append("-");
        },
    }
}

impl TurnSizeSet {
    /// "OOP {bet}/{raise}, IP {bet}/{raise}", each size by [`pct_text`].
    pub open spec fn spec_display(self) -> Seq<char> {
        "OOP "@ + pct_text(self.oop_bet) + "/"@ + pct_raise_text(self.oop_raise) + ", IP "@
            + pct_text(self.ip_bet) + "/"@ + pct_raise_text(self.ip_raise)
    }

    fn append_display(&self, out: &mut String)
        ensures
            final(out)@ == old(out)@ + self.spec_display(),
    {
        proof {
            reveal_strlit("OOP ");
            reveal_strlit("/");
            reveal_strlit(", IP ");
        }
        out.append("OOP ");
        append_pct(out, self.oop_bet);
        out.append("/");
        append_pct_raise(out, self.oop_raise);
        out.append(", IP ");
        append_pct(out, self.ip_bet);
        out.append("/");
        append_pct_raise(out, self.ip_raise);
        assert(out@ =~= old(out)@ + self.spec_display());
    }

    /// A short human-readable description, e.g. "OOP 50/100, IP 75/150": bet and raise
    /// of each player as percentages of the pot.
    pub fn display(&self) -> (r: String)
        ensures
            r@ == self.spec_display(),
    {
        let mut r = String::new();
        self.append_display(&mut r);
        r
    }
}

/// Candidate sizes for both the turn and the river; `None` keeps the shared multi-size grid.
#[derive(Debug, Clone, Copy, PartialEq, Eq, Structural)]
pub struct PostflopSizeSet {
    pub turn: Option<TurnSizeSet>,
    pub river: Option<TurnSizeSet>,
}

/// "name=[...]" for a chosen set, "name=multi-size" otherwise.
pub open spec fn street_set_text(name: Seq<char>, s: Option<TurnSizeSet>) -> Seq<char> {
    match s {
        Some(t) => name + "=["@ + t.spec_display() + "]"@,
        None => name + "=multi-size"@,
    }
}

fn append_street_set(out: &mut String, name: &str, s: Option<TurnSizeSet>)
    ensures
        final(out)@ == old(out)@ + street_set_text(name@, s),
{
    proof {
        reveal_strlit("=[");
        reveal_strlit("]");
        reveal_strlit("=multi-size");
    }
    out.append(name);
    match s {
        Some(t) => {
            out.append("=[");
            t.append_display(out);
            out.append("]");
        },
        None => {
            out.append("=multi-size");
        },
    }
    assert(out@ =~= old(out)@ + street_set_text(name@, s));
}

impl PostflopSizeSet {
    pub open spec fn spec_display(self) -> Seq<char> {
        street_set_text("turn"@, self.turn) + ", "@ + street_set_text("river"@, self.river)
    }

    /// Human-readable description of the chosen sizes.
    pub fn display(&self) -> (r: String)
        ensures
            r@ == self.spec_display(),
    {
        proof {
            reveal_strlit(", ");
        }
        let mut r = String::new();
        append_street_set(&mut r, "turn", self.turn);
        r.append(", ");
        append_street_set(&mut r, "river", self.river);
        assert(r@ =~= self.spec_display());
        r
    }
}

/// Candidate pools for one street.
pub struct TurnSizeCandidates {
    pub oop_bet: Vec<BetSize>,
    pub oop_raise: Vec<BetSize>,
    pub ip_bet: Vec<BetSize>,
    pub ip_raise: Vec<BetSize>,
}

impl TurnSizeCandidates {
    /// The pool of role `idx`: 0 OOP bet, 1 OOP raise, 2 IP bet, 3 IP raise.
    pub open spec fn spec_role(self, idx: int) -> Seq<BetSize> {
        if idx == 0 {
            self.oop_bet@
        } else if idx == 1 {
            self.oop_raise@
        } else if idx == 2 {
            self.ip_bet@
        } else {
            self.ip_raise@
        }
    }

    fn role(&self, idx: usize) -> (r: &[BetSize])
        requires
            idx < 4,
        ensures
            r@ == self.spec_role(idx as int),
    {
        match idx {
            0 => self.oop_bet.as_slice(),
            1 => self.oop_raise.as_slice(),
            2 => self.ip_bet.as_slice(),
            _ => self.ip_raise.as_slice(),
        }
    }

    /// A street is active when any of its four pools is non-empty.
    pub open spec fn spec_has_any(self) -> bool {
        self.oop_bet@.len() > 0 || self.oop_raise@.len() > 0 || self.ip_bet@.len() > 0
            || self.ip_raise@.len() > 0
    }

    fn has_any(&self) -> (b: bool)
        ensures
            b == self.spec_has_any(),
    {
        !self.oop_bet.is_empty() || !self.oop_raise.is_empty() || !self.ip_bet.is_empty()
            || !self.ip_raise.is_empty()
    }
}

/// Candidate pools for both the turn and the river.
pub struct PostflopSizeCandidates {
    pub turn: TurnSizeCandidates,
    pub river: TurnSizeCandidates,
}

/// Role names of the flat index 0..8: turn roles first, then river.
pub open spec fn role_text(idx: int) -> Seq<char> {
    if idx == 0 {
        "turn OOP bet"@
    } else if idx == 1 {
        "turn OOP raise"@
    } else if idx == 2 {
        "turn IP bet"@
    } else if idx == 3 {
        "turn IP raise"@
    } else if idx == 4 {
        "river OOP bet"@
    } else if idx == 5 {
        "river OOP raise"@
    } else if idx == 6 {
        "river IP bet"@
    } else {
        "river IP raise"@
    }
}

impl PostflopSizeCandidates {
    /// Map a flat role index 0..8 to a street and an inner role index 0..4.
    pub fn street_and_role(idx: usize) -> (r: (Street, usize))
        requires
            idx < 8,
        ensures
            idx < 4 ==> r == (Street::Turn, idx),
            idx >= 4 ==> r == (Street::River, (idx - 4) as usize),
    {
        if idx <= 3 {
            (Street::Turn, idx)
        } else {
            (Street::River, idx - 4)
        }
    }

    pub open spec fn spec_street_candidates(self, street: Street) -> TurnSizeCandidates {
        if street == Street::Turn {
            self.turn
        } else {
            self.river
        }
    }

    fn street_candidates(&self, street: Street) -> (r: &TurnSizeCandidates)
        requires
            street == Street::Turn || street == Street::River,
        ensures
            *r == self.spec_street_candidates(street),
    {
        match street {
            Street::Turn => &self.turn,
            _ => &self.river,
        }
    }

    /// Human-readable role name for the flat index 0..8.
    pub fn role_name(idx: usize) -> (r: &'static str)
        requires
            idx < 8,
        ensures
            r@ == role_text(idx as int),
    {
        proof {
            reveal_strlit("turn OOP bet");
            reveal_strlit("turn OOP raise");
            reveal_strlit("turn IP bet");
            reveal_strlit("turn IP raise");
            reveal_strlit("river OOP bet");
            reveal_strlit("river OOP raise");
            reveal_strlit("river IP bet");
            reveal_strlit("river IP raise");
        }
        let (street, inner) = Self::street_and_role(idx);
        match street {
            Street::Turn => match inner {
                0 => "turn OOP bet",
                1 => "turn OOP raise",
                2 => "turn IP bet",
                _ => "turn IP raise",
            },
            _ => match inner {
                0 => "river OOP bet",
                1 => "river OOP raise",
                2 => "river IP bet",
                _ => "river IP raise",
            },
        }
    }

    fn has_any(&self) -> (b: bool)
        ensures
            b == (self.turn.spec_has_any() || self.river.spec_has_any()),
    {
        self.turn.has_any() || self.river.has_any()
    }

    /// The size sets of the current choices `arr` (turn roles 0..4, river roles 4..8): a
    /// street with no candidates keeps the multi-size grid, and a raise is chosen only
    /// where its pool is non-empty.
    pub open spec fn spec_size_set(self, arr: [BetSize; 8]) -> PostflopSizeSet {
        PostflopSizeSet {
            turn: if self.turn.spec_has_any() {
                Some(
                    TurnSizeSet {
                        oop_bet: arr[0],
                        oop_raise: if self.turn.oop_raise@.len() == 0 {
                            None
                        } else {
                            Some(arr[1])
                        },
                        ip_bet: arr[2],
                        ip_raise: if self.turn.ip_raise@.len() == 0 {
                            None
                        } else {
                            Some(arr[3])
                        },
                    },
                )
            } else {
                None
            },
            river: if self.river.spec_has_any() {
                Some(
                    TurnSizeSet {
                        oop_bet: arr[4],
                        oop_raise: if self.river.oop_raise@.len() == 0 {
                            None
                        } else {
                            Some(arr[5])
                        },
                        ip_bet: arr[6],
                        ip_raise: if self.river.ip_raise@.len() == 0 {
                            None
                        } else {
                            Some(arr[7])
                        },
                    },
                )
            } else {
                None
            },
        }
    }

    /// Convert the flat choices back to a size set (see `spec_size_set`).
    pub fn size_set(&self, arr: [BetSize; 8]) -> (r: PostflopSizeSet)
        ensures
            r == self.spec_size_set(arr),
    {
        let turn = if self.turn.has_any() {
            Some(
                TurnSizeSet {
                    oop_bet: arr[0],
                    oop_raise: if self.turn.oop_raise.is_empty() {
                        None
                    } else {
                        Some(arr[1])
                    },
                    ip_bet: arr[2],
                    ip_raise: if self.turn.ip_raise.is_empty() {
                        None
                    } else {
                        Some(arr[3])
                    },
                },
            )
        } else {
            None
        };
        let river = if self.river.has_any() {
            Some(
                TurnSizeSet {
                    oop_bet: arr[4],
                    oop_raise: if self.river.oop_raise.is_empty() {
                        None
                    } else {
                        Some(arr[5])
                    },
                    ip_bet: arr[6],
                    ip_raise: if self.river.ip_raise.is_empty() {
                        None
                    } else {
                        Some(arr[7])
                    },
                },
            )
        } else {
            None
        };
        PostflopSizeSet { turn, river }
    }

    /// The starting choice of role `idx`: the first candidate of its pool, or half pot.
    pub open spec fn spec_initial_size(self, idx: int) -> BetSize {
        let pool = self.spec_street_candidates(if idx < 4 {
            Street::Turn
        } else {
            Street::River
        }).spec_role(if idx < 4 {
            idx
        } else {
            idx - 4
        });
        if pool.len() > 0 {
            pool[0]
        } else {
            BetSize::Frac(50, 100)
        }
    }

    /// Each role starts at the first candidate of its pool (half pot when it is empty).
    pub fn initial_sizes(&self) -> (r: [BetSize; 8])
        ensures
            forall|i: int| 0 <= i < 8 ==> #[trigger] r[i] == self.spec_initial_size(i),
    {
        let default_bet = BetSize::Frac(50, 100);
        let mut current = [default_bet; 8];
        let mut i: usize = 0;
        while i < 8
            invariant
                i <= 8,
                forall|j: int| 0 <= j < i ==> #[trigger] current[j] == self.spec_initial_size(j),
            decreases 8 - i,
        {
            let (street, inner) = Self::street_and_role(i);
            let cands = self.street_candidates(street);
            let list = cands.role(inner);
            let ghost prev = current;
            let val = if list.len() > 0 {
                list[0]
            } else {
                BetSize::Frac(50, 100)
            };
            assert(val == self.spec_initial_size(i as int));
            current[i] = val;
            assert(current[i as int] == val);
            assert forall|j: int| 0 <= j < i implies #[trigger] current[j] == self.spec_initial_size(j) by {
                assert(current[j] == prev[j]);
            }
            i = i + 1;
        }
        current
    }
}

// ---------------------------------------------------------------------------
// Betting grid of a size set
// ---------------------------------------------------------------------------

/// Depths of one player's single-size street: the bet, then the raise (or no raise).
pub open spec fn single_size_depths(bet: BetSize, raise: Option<BetSize>) -> Seq<Seq<BetSize>> {
    match raise {
        Some(r) => seq![seq![bet], seq![r]],
        None => seq![seq![bet], Seq::empty()],
    }
}

fn single_size(bet: BetSize, raise: Option<BetSize>) -> (v: Vec<Vec<BetSize>>)
    ensures
        depth_view(v) == single_size_depths(bet, raise),
{
    let mut v: Vec<Vec<BetSize>> = Vec::new();
    let b = vec![bet];
    assert(b@ =~= seq![bet]);
    push_depth(&mut v, b);
    match raise {
        Some(r) => {
            let rv = vec![r];
            assert(rv@ =~= seq![r]);
            push_depth(&mut v, rv);
        },
        None => push_depth(&mut v, Vec::new()),
    }
    assert(depth_view(v) =~= single_size_depths(bet, raise));
    v
}

/// A player's overrides after setting street `idx` to `depths`: the other streets keep
/// the player's earlier overrides, or none (empty) if the player had none.
pub open spec fn overridden(old: Option<Seq<Seq<BetSize>>>, i: int, idx: int, depths: Seq<Seq<BetSize>>) -> Seq<Seq<BetSize>> {
    if i == idx {
        depths
    } else {
        match old {
            Some(d) => d,
            None => Seq::empty(),
        }
    }
}

/// Sets street `idx` of player `p`'s overrides to `depths`.
fn set_player_street(bc: &mut BetConfig, p: usize, idx: usize, depths: Vec<Vec<BetSize>>)
    requires
        p < 2,
        idx < 4,
    ensures
        forall|q: int, i: int|
            0 <= q < 2 && 0 <= i < 4 ==> #[trigger] final(bc).player_depths(q, i) == if q == p {
                Some(overridden(old(bc).player_depths(q, i), i, idx as int, depth_view(depths)))
            } else {
                old(bc).player_depths(q, i)
            },
        forall|i: int| 0 <= i < 4 ==> #[trigger] final(bc).shared_depths(i) == old(bc).shared_depths(i),
        final(bc).max_raises == old(bc).max_raises,
        final(bc).allin_threshold == old(bc).allin_threshold,
        final(bc).allin_pot_ratio == old(bc).allin_pot_ratio,
        final(bc).no_donk == old(bc).no_donk,
        final(bc).geometric_2bets == old(bc).geometric_2bets,
{
    let mut streets = match bc.player_sizes[p].take() {
        Some(s) => s,
        None => {
            let e: [Vec<Vec<BetSize>>; 4] = [Vec::new(), Vec::new(), Vec::new(), Vec::new()];
            assert(depth_view(e[0]) =~= Seq::empty());
            assert(depth_view(e[1]) =~= Seq::empty());
            assert(depth_view(e[2]) =~= Seq::empty());
            assert(depth_view(e[3]) =~= Seq::empty());
            e
        },
    };
    streets[idx] = depths;
    bc.player_sizes[p] = Some(streets);
    proof {
        assert forall|q: int, i: int| 0 <= q < 2 && 0 <= i < 4 implies #[trigger] bc.player_depths(q, i)
            == if q == p {
            Some(overridden(old(bc).player_depths(q, i), i, idx as int, depth_view(depths)))
        } else {
            old(bc).player_depths(q, i)
        } by {}
    }
}

/// Sets one street of both players' overrides to the single sizes of `set`.
fn build_street_override(street: Street, set: &TurnSizeSet, bc: &mut BetConfig)
    ensures
        forall|q: int, i: int|
            0 <= q < 2 && 0 <= i < 4 ==> #[trigger] final(bc).player_depths(q, i) == Some(
                overridden(
                    old(bc).player_depths(q, i),
                    i,
                    street.spec_index() as int,
                    if q == 0 {
                        single_size_depths(set.oop_bet, set.oop_raise)
                    } else {
                        single_size_depths(set.ip_bet, set.ip_raise)
                    },
                ),
            ),
        forall|i: int| 0 <= i < 4 ==> #[trigger] final(bc).shared_depths(i) == old(bc).shared_depths(i),
        final(bc).max_raises == old(bc).max_raises,
        final(bc).allin_threshold == old(bc).allin_threshold,
        final(bc).allin_pot_ratio == old(bc).allin_pot_ratio,
        final(bc).no_donk == old(bc).no_donk,
        final(bc).geometric_2bets == old(bc).geometric_2bets,
{
    let idx = street.index();
    set_player_street(bc, OOP as usize, idx, single_size(set.oop_bet, set.oop_raise));
    set_player_street(bc, IP as usize, idx, single_size(set.ip_bet, set.ip_raise));
}

/// Player `q`'s overrides of street `i` after applying the single sizes of `set` (when
/// chosen) to `street`.
pub open spec fn with_street_set(
    old: Option<Seq<Seq<BetSize>>>,
    i: int,
    street: Street,
    set: Option<TurnSizeSet>,
    q: int,
) -> Option<Seq<Seq<BetSize>>> {
    match set {
        Some(t) => Some(
            overridden(
                old,
                i,
                street.spec_index() as int,
                if q == 0 {
                    single_size_depths(t.oop_bet, t.oop_raise)
                } else {
                    single_size_depths(t.ip_bet, t.ip_raise)
                },
            ),
        ),
        None => old,
    }
}

/// `bc` is `base` with the turn and river single sizes of `set` as per-player overrides.
pub open spec fn built_from(bc: BetConfig, base: BetConfig, set: PostflopSizeSet) -> bool {
    &&& forall|q: int, i: int|
        0 <= q < 2 && 0 <= i < 4 ==> #[trigger] bc.player_depths(q, i) == with_street_set(
            with_street_set(base.player_depths(q, i), i, Street::Turn, set.turn, q),
            i,
            Street::River,
            set.river,
            q,
        )
    &&& forall|i: int| 0 <= i < 4 ==> #[trigger] bc.shared_depths(i) == base.shared_depths(i)
    &&& bc.max_raises == base.max_raises
    &&& bc.allin_threshold == base.allin_threshold
    &&& bc.allin_pot_ratio == base.allin_pot_ratio
    &&& bc.no_donk == base.no_donk
    &&& bc.geometric_2bets == base.geometric_2bets
}

/// Build a `BetConfig` from a base config and chosen postflop sizes; streets that are
/// `None` keep the base config's sizes.
pub fn build_postflop_bet_config(base: &BetConfig, set: &PostflopSizeSet) -> (bc: BetConfig)
    ensures
        built_from(bc, *base, *set),
{
    let mut bc = base.clone();
    if let Some(turn) = set.turn {
        build_street_override(Street::Turn, &turn, &mut bc);
    }
    let ghost mid = bc;
    if let Some(river) = set.river {
        build_street_override(Street::River, &river, &mut bc);
    }
    proof {
        assert forall|q: int, i: int| 0 <= q < 2 && 0 <= i < 4 implies #[trigger] bc.player_depths(q, i)
            == with_street_set(
            with_street_set(base.player_depths(q, i), i, Street::Turn, set.turn, q),
            i,
            Street::River,
            set.river,
            q,
        ) by {
            assert(mid.player_depths(q, i) == with_street_set(
                base.player_depths(q, i),
                i,
                Street::Turn,
                set.turn,
                q,
            ));
        }
    }
    bc
}

/// The sizes a single-size street offers at `depth`: the bet first, then the raise, if any.
pub open spec fn single_size_at(bet: BetSize, raise: Option<BetSize>, depth: u8) -> Seq<BetSize> {
    if depth == 0 {
        seq![bet]
    } else {
        match raise {
            Some(r) => seq![r],
            None => Seq::empty(),
        }
    }
}

/// In a grid built from a size set, a chosen street offers each player exactly the chosen
/// bet, then the chosen raise (none when there is no raise); every other street offers
/// what the base grid offers.
pub proof fn law_single_size_grid(
    base: BetConfig,
    set: PostflopSizeSet,
    bc: BetConfig,
    street: Street,
    depth: u8,
    player: Player,
)
    requires
        built_from(bc, base, set),
        player < 2,
    ensures
        street == Street::Turn && set.turn is Some ==> bc.spec_bet_sizes(street, depth, player) == if player == 0 {
            single_size_at(set.turn->0.oop_bet, set.turn->0.oop_raise, depth)
        } else {
            single_size_at(set.turn->0.ip_bet, set.turn->0.ip_raise, depth)
        },
        street == Street::River && set.river is Some ==> bc.spec_bet_sizes(street, depth, player) == if player == 0 {
            single_size_at(set.river->0.oop_bet, set.river->0.oop_raise, depth)
        } else {
            single_size_at(set.river->0.ip_bet, set.river->0.ip_raise, depth)
        },
        !(street == Street::Turn && set.turn is Some) && !(street == Street::River
            && set.river is Some) ==> bc.spec_bet_sizes(street, depth, player) == base.spec_bet_sizes(
            street,
            depth,
            player,
        ),
{
    let idx = street.spec_index() as int;
    let q = player as int;
    assert(bc.player_depths(q, idx) == with_street_set(
        with_street_set(base.player_depths(q, idx), idx, Street::Turn, set.turn, q),
        idx,
        Street::River,
        set.river,
        q,
    ));
    assert(bc.shared_depths(idx) == base.shared_depths(idx));
    if (street == Street::Turn && set.turn is Some) || (street == Street::River && set.river is Some) {
        let t = if street == Street::Turn {
            set.turn->0
        } else {
            set.river->0
        };
        let d = if q == 0 {
            single_size_depths(t.oop_bet, t.oop_raise)
        } else {
            single_size_depths(t.ip_bet, t.ip_raise)
        };
        assert(bc.player_depths(q, idx) == Some(d));
        assert(pick_depth(d, depth) == Some(if q == 0 {
            single_size_at(t.oop_bet, t.oop_raise, depth)
        } else {
            single_size_at(t.ip_bet, t.ip_raise, depth)
        }));
    }
}

// ---------------------------------------------------------------------------
// Coordinate search over the candidates
// ---------------------------------------------------------------------------

/// Rounds of the coordinate search.
pub const MAX_ROUNDS: u32 = 2;

/// The choices `a` with role `i` set to `v`.
pub open spec fn with_choice(a: [BetSize; 8], i: int, v: BetSize) -> [BetSize; 8] {
    [
        if i == 0 { v } else { a[0] },
        if i == 1 { v } else { a[1] },
        if i == 2 { v } else { a[2] },
        if i == 3 { v } else { a[3] },
        if i == 4 { v } else { a[4] },
        if i == 5 { v } else { a[5] },
        if i == 6 { v } else { a[6] },
        if i == 7 { v } else { a[7] },
    ]
}

/// Where the coordinate search stands: the current choice of each role, the round, and,
/// while screening, the role, its next candidate, and the best size of that role so far.
#[derive(Debug, Clone, Copy)]
pub struct SizeSearch {
    pub current: [BetSize; 8],
    pub round: u32,
    pub role: usize,
    pub cand: usize,
    pub best: BetSize,
    /// Some role changed in this round.
    pub improved: bool,
    pub done: bool,
}

/// What to do next: solve a trial size set, or finish with the chosen one.
#[derive(Debug, Clone, Copy, PartialEq, Eq, Structural)]
pub enum SearchStep {
    /// Solve the trial `set`, which tries candidate `candidate` (from 0) for `role`.
    Screen { role: usize, candidate: usize, set: PostflopSizeSet },
    /// The search is over: `set` is the chosen size set.
    Final { set: PostflopSizeSet },
}

impl PostflopSizeCandidates {
    /// The candidate pool of the flat role index 0..8.
    pub open spec fn pool(self, role: int) -> Seq<BetSize> {
        if role < 4 {
            self.turn.spec_role(role)
        } else {
            self.river.spec_role(role - 4)
        }
    }

    /// The first role at `r` or after with candidates, or 8 when there is none.
    pub open spec fn next_role_from(self, r: int) -> int
        decreases 8 - r,
    {
        if r >= 8 {
            8
        } else if self.pool(r).len() > 0 {
            r
        } else {
            self.next_role_from(r + 1)
        }
    }

    pub fn pool_of(&self, role: usize) -> (p: &[BetSize])
        requires
            role < 8,
        ensures
            p@ == self.pool(role as int),
    {
        let (street, inner) = Self::street_and_role(role);
        self.street_candidates(street).role(inner)
    }

    fn next_role(&self, r: usize) -> (n: usize)
        requires
            r <= 8,
        ensures
            n == self.next_role_from(r as int),
            r <= n <= 8,
            n < 8 ==> self.pool(n as int).len() > 0,
        decreases 8 - r,
    {
        if r >= 8 {
            8
        } else if self.pool_of(r).len() > 0 {
            r
        } else {
            self.next_role(r + 1)
        }
    }

    /// Start a round (the loop head of the search): while the last round changed some
    /// role, fewer than `MAX_ROUNDS` rounds ran, and some pool has candidates, the next
    /// round screens from the first role with candidates; otherwise the search is over.
    pub open spec fn spec_begin_round(self, s: SizeSearch) -> SizeSearch {
        if s.improved && s.round < MAX_ROUNDS && (self.turn.spec_has_any() || self.river.spec_has_any()) {
            let r = self.next_role_from(0);
            if r < 8 {
                SizeSearch {
                    round: (s.round + 1) as u32,
                    role: r as usize,
                    cand: 0,
                    best: s.current[r],
                    improved: false,
                    ..s
                }
            } else {
                SizeSearch { round: (s.round + 1) as u32, improved: false, done: true, ..s }
            }
        } else {
            SizeSearch { done: true, ..s }
        }
    }

    fn begin_round(&self, s: SizeSearch) -> (r: SizeSearch)
        requires
            s.round <= MAX_ROUNDS,
        ensures
            r == self.spec_begin_round(s),
            self.search_ok(r),
    {
        if s.improved && s.round < MAX_ROUNDS && self.has_any() {
            let r = self.next_role(0);
            if r < 8 {
                SizeSearch { round: s.round + 1, role: r, cand: 0, best: s.current[r], improved: false, ..s }
            } else {
                SizeSearch { round: s.round + 1, improved: false, done: true, ..s }
            }
        } else {
            SizeSearch { done: true, ..s }
        }
    }

    /// The search state is consistent: at most `MAX_ROUNDS` rounds, and while screening, a
    /// role with candidates and a candidate of it.
    pub open spec fn search_ok(self, s: SizeSearch) -> bool {
        &&& s.round <= MAX_ROUNDS
        &&& !s.done ==> {
            &&& s.role < 8
            &&& s.cand < self.pool(s.role as int).len()
            &&& s.round >= 1
        }
    }

    /// The start of the search: each role at the first candidate of its pool.
    pub fn start_search(&self) -> (s: SizeSearch)
        ensures
            s == self.spec_begin_round(
                SizeSearch {
                    current: s.current,
                    round: 0,
                    role: 0,
                    cand: 0,
                    best: BetSize::Frac(50, 100),
                    improved: true,
                    done: false,
                },
            ),
            forall|i: int| 0 <= i < 8 ==> #[trigger] s.current[i] == self.spec_initial_size(i),
            self.search_ok(s),
    {
        let current = self.initial_sizes();
        let s0 = SizeSearch {
            current,
            round: 0,
            role: 0,
            cand: 0,
            best: BetSize::Frac(50, 100),
            improved: true,
            done: false,
        };
        self.begin_round(s0)
    }

    /// The next step: screen the current role's next candidate on top of the current
    /// choices, or, when the search is over, the chosen set.
    pub open spec fn spec_step(self, s: SizeSearch) -> SearchStep {
        if s.done {
            SearchStep::Final { set: self.spec_size_set(s.current) }
        } else {
            SearchStep::Screen {
                role: s.role,
                candidate: s.cand,
                set: self.spec_size_set(
                    with_choice(s.current, s.role as int, self.pool(s.role as int)[s.cand as int]),
                ),
            }
        }
    }

    pub fn step(&self, s: &SizeSearch) -> (r: SearchStep)
        requires
            self.search_ok(*s),
        ensures
            r == self.spec_step(*s),
    {
        if s.done {
            SearchStep::Final { set: self.size_set(s.current) }
        } else {
            let size = self.pool_of(s.role)[s.cand];
            let mut trial = s.current;
            trial[s.role] = size;
            assert(trial =~= with_choice(s.current, s.role as int, size));
            SearchStep::Screen { role: s.role, candidate: s.cand, set: self.size_set(trial) }
        }
    }

    /// The state after screening the current candidate, where `better` says whether its
    /// score beat the best score of the role so far (the first candidate of a role beats
    /// the starting score). After the role's last candidate, the best size replaces the
    /// role's choice (counting as an improvement when it differs), and the search moves to
    /// the next role with candidates, or to the next round.
    pub open spec fn spec_record(self, s: SizeSearch, better: bool) -> SizeSearch {
        let size = self.pool(s.role as int)[s.cand as int];
        let best = if better {
            size
        } else {
            s.best
        };
        let cand = s.cand + 1;
        if cand < self.pool(s.role as int).len() {
            SizeSearch { cand: cand as usize, best, ..s }
        } else {
            let changed = best != s.current[s.role as int];
            let current = if changed {
                with_choice(s.current, s.role as int, best)
            } else {
                s.current
            };
            let improved = s.improved || changed;
            let r = self.next_role_from(s.role + 1);
            if r < 8 {
                SizeSearch { current, improved, role: r as usize, cand: 0, best: current[r], ..s }
            } else {
                self.spec_begin_round(SizeSearch { current, improved, best, ..s })
            }
        }
    }

    pub fn record(&self, s: SizeSearch, better: bool) -> (r: SizeSearch)
        requires
            self.search_ok(s),
            !s.done,
        ensures
            r == self.spec_record(s, better),
            self.search_ok(r),
    {
        let pool = self.pool_of(s.role);
        let size = pool[s.cand];
        let best = if better {
            size
        } else {
            s.best
        };
        let cand = s.cand + 1;
        if cand < pool.len() {
            return SizeSearch { cand, best, ..s };
        }
        let changed = best != s.current[s.role];
        let mut current = s.current;
        if changed {
            current[s.role] = best;
            assert(current =~= with_choice(s.current, s.role as int, best));
        }
        let improved = s.improved || changed;
        let r = self.next_role(s.role + 1);
        if r < 8 {
            SizeSearch { current, improved, role: r, cand: 0, best: current[r], ..s }
        } else {
            self.begin_round(SizeSearch { current, improved, best, ..s })
        }
    }
}

impl PostflopSizeCandidates {
    /// Candidates of the roles from `r` on.
    pub open spec fn pools_from(self, r: int) -> int
        decreases 8 - r,
    {
        if r >= 8 {
            0
        } else {
            self.pool(r).len() + self.pools_from(r + 1)
        }
    }

    /// Screens the search has left: the rest of this role, the later roles of this round,
    /// and every candidate in each round still to come.
    pub open spec fn screens_left(self, s: SizeSearch) -> int {
        if s.done {
            0
        } else {
            (self.pool(s.role as int).len() - s.cand) + self.pools_from(s.role + 1) + (MAX_ROUNDS
                - s.round) * self.pools_from(0)
        }
    }
}

/// Skipping roles without candidates skips no candidates.
proof fn lemma_next_role(c: PostflopSizeCandidates, r: int)
    requires
        0 <= r <= 8,
    ensures
        r <= c.next_role_from(r) <= 8,
        c.pools_from(r) == c.pools_from(c.next_role_from(r)),
        c.next_role_from(r) < 8 ==> c.pool(c.next_role_from(r)).len() > 0,
        c.pools_from(r) >= 0,
    decreases 8 - r,
{
    if r < 8 {
        lemma_next_role(c, r + 1);
    }
}

/// The search starts with at most `MAX_ROUNDS` times the candidates to screen.
pub proof fn law_search_start(c: PostflopSizeCandidates, s: SizeSearch)
    ensures
        c.screens_left(c.spec_begin_round(SizeSearch { round: 0, improved: true, done: false, ..s }))
            <= MAX_ROUNDS * c.pools_from(0),
{
    lemma_next_role(c, 0);
    let t = c.pools_from(0);
    let s0 = SizeSearch { round: 0, improved: true, done: false, ..s };
    let b0 = c.spec_begin_round(s0);
    if !b0.done {
        let n = c.next_role_from(0);
        assert(b0.role == n && b0.cand == 0 && b0.round == 1);
        lemma_next_role(c, n + 1);
        assert(c.pools_from(n) == c.pool(n).len() + c.pools_from(n + 1));
        assert(c.screens_left(b0) == c.pools_from(n) + t);
    }
}

/// Pools are held in vectors, so their lengths fit a `usize`.
proof fn lemma_pool_len(c: PostflopSizeCandidates, role: int)
    ensures
        c.pool(role).len() <= usize::MAX,
{
    assert(c.turn.oop_bet@.len() == c.turn.oop_bet.len());
    assert(c.turn.oop_raise@.len() == c.turn.oop_raise.len());
    assert(c.turn.ip_bet@.len() == c.turn.ip_bet.len());
    assert(c.turn.ip_raise@.len() == c.turn.ip_raise.len());
    assert(c.river.oop_bet@.len() == c.river.oop_bet.len());
    assert(c.river.oop_raise@.len() == c.river.oop_raise.len());
    assert(c.river.ip_bet@.len() == c.river.ip_bet.len());
    assert(c.river.ip_raise@.len() == c.river.ip_raise.len());
}

/// Every screen recorded leaves fewer screens to go, so the search ends.
pub proof fn law_search_progress(c: PostflopSizeCandidates, s: SizeSearch, better: bool)
    requires
        c.search_ok(s),
        !s.done,
    ensures
        0 <= c.screens_left(c.spec_record(s, better)) < c.screens_left(s),
{
    let t = c.pools_from(0);
    let len = c.pool(s.role as int).len();
    lemma_next_role(c, 0);
    lemma_next_role(c, s.role + 1);
    lemma_pool_len(c, s.role as int);
    assert(s.round == 1 || s.round == 2);
    let later = (MAX_ROUNDS - s.round) * t;
    assert(later == if s.round == 1 { t } else { 0 }) by (nonlinear_arith)
        requires
            later == (2 - s.round) * t,
            s.round == 1 || s.round == 2,
    ;
    assert(c.screens_left(s) == (len - s.cand) + c.pools_from(s.role + 1) + later);
    let r = c.spec_record(s, better);
    if s.cand + 1 < len {
        assert(c.screens_left(r) == c.screens_left(s) - 1);
    } else {
        let n = c.next_role_from(s.role + 1);
        if n < 8 {
            lemma_next_role(c, n + 1);
            assert(c.pools_from(n) == c.pool(n).len() + c.pools_from(n + 1));
            assert(r.role == n && r.cand == 0 && r.round == s.round && !r.done);
            assert(c.screens_left(r) == c.pools_from(n) + later);
        } else if !r.done {
            let m = c.next_role_from(0);
            lemma_next_role(c, m + 1);
            assert(c.pools_from(m) == c.pool(m).len() + c.pools_from(m + 1));
            assert(s.round == 1 && r.round == 2 && r.role == m && r.cand == 0);
            assert(c.screens_left(r) == c.pools_from(m));
        }
    }
}


/// Entry `j` of `with_choice(a, i, v)` is `v` at `i` and `a[j]` elsewhere.
proof fn lemma_with_choice(a: [BetSize; 8], i: int, v: BetSize, j: int)
    requires
        0 <= j < 8,
    ensures
        with_choice(a, i, v)[j] == (if j == i { v } else { a[j] }),
{
    let w = with_choice(a, i, v);
    if j == 0 {
        assert(w[0] == (if i == 0 { v } else { a[0] }));
    } else if j == 1 {
        assert(w[1] == (if i == 1 { v } else { a[1] }));
    } else if j == 2 {
        assert(w[2] == (if i == 2 { v } else { a[2] }));
    } else if j == 3 {
        assert(w[3] == (if i == 3 { v } else { a[3] }));
    } else if j == 4 {
        assert(w[4] == (if i == 4 { v } else { a[4] }));
    } else if j == 5 {
        assert(w[5] == (if i == 5 { v } else { a[5] }));
    } else if j == 6 {
        assert(w[6] == (if i == 6 { v } else { a[6] }));
    } else {
        assert(w[7] == (if i == 7 { v } else { a[7] }));
    }
}

/// Screening a role's candidates keeps the best one: before the role's last candidate the
/// choices stay as they are and the best so far is the screened size when it scored
/// better; after the last one, the role's choice is the best-scoring size (the screened
/// size when it scored better, the best before it otherwise) and every other role keeps
/// its choice, whichever role or round comes next.
pub proof fn law_record_keeps_the_best(c: PostflopSizeCandidates, s: SizeSearch, better: bool)
    requires
        c.search_ok(s),
        !s.done,
    ensures
        ({
            let size = c.pool(s.role as int)[s.cand as int];
            let best = if better { size } else { s.best };
            let r = c.spec_record(s, better);
            &&& s.cand + 1 < c.pool(s.role as int).len() ==> r.current == s.current && r.best == best
                && r.role == s.role && r.cand == s.cand + 1
            &&& s.cand + 1 == c.pool(s.role as int).len() ==> forall|i: int|
                0 <= i < 8 ==> #[trigger] r.current[i] == (if i == s.role { best } else { s.current[i] })
        }),
{
    let size = c.pool(s.role as int)[s.cand as int];
    let best = if better { size } else { s.best };
    let r = c.spec_record(s, better);
    lemma_pool_len(c, s.role as int);
    if s.cand + 1 == c.pool(s.role as int).len() {
        let changed = best != s.current[s.role as int];
        let current = if changed { with_choice(s.current, s.role as int, best) } else { s.current };
        let improved = s.improved || changed;
        let n = c.next_role_from(s.role + 1);
        if n < 8 {
            assert(r.current == current);
        } else {
            let t = SizeSearch { current, improved, best, ..s };
            assert(c.spec_begin_round(t).current == current);
            assert(r.current == current);
        }
        assert forall|i: int| 0 <= i < 8 implies #[trigger] r.current[i] == (if i == s.role {
            best
        } else {
            s.current[i]
        }) by {
            if changed {
                lemma_with_choice(s.current, s.role as int, best, i);
            }
        }
    }
}

} // verus!
