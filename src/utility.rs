use vstd::prelude::*;

verus! {

/// Linear interpolation between `(s0, u0)` and `(s1, u1)` at `s`, rounded toward `u0`.
pub open spec fn interpolate(s0: int, u0: int, s1: int, u1: int, s: int) -> int {
    if u1 >= u0 {
        u0 + (u1 - u0) * (s - s0) / (s1 - s0)
    } else {
        u0 - (u0 - u1) * (s - s0) / (s1 - s0)
    }
}

/// The piecewise-linear curve through `pts` at stack `s`: the first utility below the
/// first stack, the last one above the last stack, interpolated in between. A player with
/// no points is valued in chips: the utility is the stack itself.
pub open spec fn curve_value(pts: Seq<(u64, u64)>, s: int) -> int
    decreases pts.len(),
{
    if pts.len() == 0 {
        s
    } else if pts.len() == 1 || s <= pts[0].0 {
        pts[0].1 as int
    } else if s < pts[1].0 {
        interpolate(pts[0].0 as int, pts[0].1 as int, pts[1].0 as int, pts[1].1 as int, s)
    } else {
        curve_value(pts.drop_first(), s)
    }
}

/// Sample points with strictly increasing stacks (none at all for a chip-valued player).
pub open spec fn curve_ok(pts: Seq<(u64, u64)>) -> bool {
    &&& forall|k: int| 0 <= k < pts.len() - 1 ==> (#[trigger] pts[k]).0 < pts[k + 1].0
    &&& forall|k: int| 0 <= k < pts.len() ==> (#[trigger] pts[k]).1 <= MAX_UTILITY
}

/// Largest utility a table may hold.
pub const MAX_UTILITY: u64 = 0x3FFF_FFFF_FFFF_FFFF;

/// Whether `pts` has increasing stacks and utilities in range.
fn check_curve(pts: &Vec<(u64, u64)>) -> (r: bool)
    ensures
        r == curve_ok(pts@),
{
    if pts.len() == 0 {
        return true;
    }
    let mut k: usize = 0;
    while k < pts.len() - 1
        invariant
            pts@.len() >= 1,
            k + 1 <= pts@.len(),
            forall|m: int| 0 <= m < k ==> (#[trigger] pts@[m]).0 < pts@[m + 1].0,
            forall|m: int| 0 <= m < k ==> (#[trigger] pts@[m]).1 <= MAX_UTILITY,
        decreases pts@.len() - k,
    {
        if pts[k].0 >= pts[k + 1].0 || pts[k].1 > MAX_UTILITY {
            assert(!curve_ok(pts@)) by {
                assert(pts@[k as int].0 >= pts@[k + 1].0 || pts@[k as int].1 > MAX_UTILITY);
            }
            return false;
        }
        k = k + 1;
    }
    if pts[k].1 > MAX_UTILITY {
        assert(pts@[k as int].1 > MAX_UTILITY);
        return false;
    }
    true
}

/// A tournament utility table: for each player, a curve from stack to utility, and the
/// player's stack at the start of the hand. Stacks are in hundredths of a big blind.
pub struct UtilityFile {
    curves: Vec<Vec<(u64, u64)>>,
    starting_stacks: Vec<u64>,
}

impl UtilityFile {
    pub closed spec fn curve(&self, p: int) -> Seq<(u64, u64)> {
        self.curves@[p]@
    }

    pub closed spec fn starting_stack(&self, p: int) -> u64 {
        self.starting_stacks@[p]
    }

    pub closed spec fn num_players(&self) -> int {
        self.curves@.len() as int
    }

    /// One starting stack per player.
    pub closed spec fn shape_ok(&self) -> bool {
        self.curves@.len() == self.starting_stacks@.len()
    }

    /// One starting stack per player, and each player's curve well formed.
    pub open spec fn wf(&self) -> bool {
        &&& self.shape_ok()
        &&& forall|p: int| 0 <= p < self.num_players() ==> curve_ok(#[trigger] self.curve(p))
    }

    /// Builds a table from each player's sample points and starting stack.
    pub fn new(curves: Vec<Vec<(u64, u64)>>, starting_stacks: Vec<u64>) -> (r: Result<UtilityFile, String>)
        ensures
            r is Ok <==> (curves@.len() == starting_stacks@.len() && forall|p: int|
                0 <= p < curves@.len() ==> curve_ok(#[trigger] curves@[p]@)),
            r is Ok ==> r->Ok_0.wf() && r->Ok_0.num_players() == curves@.len() && (forall|p: int|
                0 <= p < curves@.len() ==> #[trigger] r->Ok_0.curve(p) == curves@[p]@
                    && r->Ok_0.starting_stack(p) == starting_stacks@[p]),
    {
        if curves.len() != starting_stacks.len() {
            return Err(crate::text::string_of("one starting stack is needed per player"));
        }
        let mut p: usize = 0;
        while p < curves.len()
            invariant
                p <= curves@.len(),
                forall|q: int| 0 <= q < p ==> curve_ok(#[trigger] curves@[q]@),
            decreases curves@.len() - p,
        {
            if !check_curve(&curves[p]) {
                return Err(crate::text::string_of("utility stacks must increase, with utilities in range"));
            }
            assert(curve_ok(curves@[p as int]@));
            p = p + 1;
        }
        Ok(UtilityFile { curves, starting_stacks })
    }

    /// Utility of `player` at `stack`, clamped to the ends of the curve and linearly
    /// interpolated between its points.
    pub fn lookup(&self, stack: u64, player: usize) -> (r: u64)
        requires
            self.wf(),
            player < self.num_players(),
        ensures
            r == curve_value(self.curve(player as int), stack as int),
            self.curve(player as int).len() > 0 ==> r <= MAX_UTILITY,
    {
        let pts = &self.curves[player];
        assert(self.curve(player as int) == pts@);
        assert(curve_ok(pts@));
        let n = pts.len();
        if n == 0 {
            return stack;
        }
        if stack <= pts[0].0 || n == 1 {
            return pts[0].1;
        }
        let mut k: usize = 0;
        assert(pts@.subrange(0, n as int) =~= pts@);
        while k + 1 < n && pts[k + 1].0 <= stack
            invariant
                pts@ == self.curve(player as int),
                n == pts@.len(),
                curve_ok(pts@),
                k + 1 <= n,
                pts@[k as int].0 <= stack,
                k == 0 ==> pts@[0].0 < stack,
                curve_value(pts@, stack as int) == curve_value(pts@.subrange(k as int, n as int), stack as int),
            decreases n - k,
        {
            let ghost rest = pts@.subrange(k as int, n as int);
            assert(rest.drop_first() =~= pts@.subrange(k + 1, n as int));
            assert(rest[0] == pts@[k as int]);
            assert(rest[1] == pts@[k + 1]);
            assert(pts@[k as int].0 < pts@[k + 1].0);
            k = k + 1;
        }
        let ghost rest = pts@.subrange(k as int, n as int);
        assert(rest[0] == pts@[k as int]);
        if k + 1 == n || pts[k].0 == stack {
            return pts[k].1;
        }
        assert(rest[1] == pts@[k + 1]);
        let (s0, u0) = pts[k];
        let (s1, u1) = pts[k + 1];
        assert(s0 < stack < s1);
        let t = (stack - s0) as u128;
        let len = (s1 - s0) as u128;
        if u1 >= u0 {
            let d = (u1 - u0) as u128;
            proof {
                assert(d * t <= d * len) by (nonlinear_arith)
                    requires t <= len;
                assert(d * t <= 0xFFFF_FFFF_FFFF_FFFF * 0xFFFF_FFFF_FFFF_FFFF) by (nonlinear_arith)
                    requires d <= 0xFFFF_FFFF_FFFF_FFFF, t <= 0xFFFF_FFFF_FFFF_FFFF;
                assert((d * t) as int / (len as int) <= d) by (nonlinear_arith)
                    requires d * t <= d * len, len > 0;
            }
            u0 + (d * t / len) as u64
        } else {
            let d = (u0 - u1) as u128;
            proof {
                assert(d * t <= d * len) by (nonlinear_arith)
                    requires t <= len;
                assert(d * t <= 0xFFFF_FFFF_FFFF_FFFF * 0xFFFF_FFFF_FFFF_FFFF) by (nonlinear_arith)
                    requires d <= 0xFFFF_FFFF_FFFF_FFFF, t <= 0xFFFF_FFFF_FFFF_FFFF;
                assert((d * t) as int / (len as int) <= d) by (nonlinear_arith)
                    requires d * t <= d * len, len > 0;
            }
            u0 - (d * t / len) as u64
        }
    }

    /// Stack of `player` at the start of the hand.
    pub fn starting_stack_of(&self, player: usize) -> (r: u64)
        requires
            self.wf(),
            player < self.num_players(),
        ensures
            r == self.starting_stack(player as int),
    {
        self.starting_stacks[player]
    }
}

} // verus!
